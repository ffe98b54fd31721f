//! Names and order of log files.

use hc32_firmware::logfile_core::{
    boot_newer, format_boot_marker, newest_boot, next_boot, oldest_file, parse_legacy_slot_name,
    parse_segment_name, segment_name, segment_newer, MARKER_CAP, NAME_CAP,
};

#[test]
fn segment_names_are_zero_padded_and_lexicographically_ordered() {
    let mut buf = [0u8; NAME_CAP];

    let mut names = Vec::new();
    for (boot, seg) in [(1u64, 0u32), (1, 2), (2, 0), (42, 7), (999, 99)] {
        let name = core::str::from_utf8(segment_name(boot, seg, &mut buf)).unwrap();
        names.push(name.to_string());
    }
    let mut sorted = names.clone();
    sorted.sort();
    assert_eq!(names, sorted);

    assert_eq!(
        parse_segment_name("boot_00000000000000000001.log"),
        Some((1, 0))
    );
    assert_eq!(
        parse_segment_name("boot_00000000000000000042_07.log"),
        Some((42, 7))
    );
    assert_eq!(
        core::str::from_utf8(segment_name(42, 7, &mut buf)).unwrap(),
        "boot_00000000000000000042_07.log"
    );
}

#[test]
fn parse_rejects_invalid_names() {
    assert_eq!(parse_segment_name(""), None);
    assert_eq!(parse_segment_name("boot_.log"), None);
    assert_eq!(parse_segment_name("boot_abc.log"), None);
    assert_eq!(parse_segment_name("boot_00000000000000000001.txt"), None);
    assert_eq!(parse_segment_name("boot_00000000000000000001_1.log"), None);
    assert_eq!(parse_segment_name("boot_00000000000000000001.log "), None);

    assert_eq!(parse_legacy_slot_name("log0.log"), Some((0, 0)));
    assert_eq!(parse_legacy_slot_name("log12.log"), Some((0, 12)));
    assert_eq!(parse_legacy_slot_name("log.log"), None);
    assert_eq!(
        parse_legacy_slot_name("boot_00000000000000000001.log"),
        None
    );
}

#[test]
fn boot_ordering_wraps() {
    assert!(boot_newer(2, 1));
    assert!(!boot_newer(1, 2));
    assert!(!boot_newer(1, 1));
    assert!(boot_newer(0, u64::MAX));
    assert!(!boot_newer(u64::MAX, 0));
}

#[test]
fn newest_oldest_and_next_boot() {
    let files = [(5u64, 0u32), (6, 1), (6, 2), (7, 0)];
    assert_eq!(newest_boot(&files), Some(7));
    assert_eq!(oldest_file(&files), Some((5, 0)));
    assert_eq!(next_boot(newest_boot(&files)), 8);
    assert_eq!(next_boot(None), 1);

    assert!(segment_newer((6, 2), (6, 1)));
    assert!(segment_newer((7, 0), (6, 99)));

    let wrapped = [(u64::MAX - 1, 0), (u64::MAX, 0), (1, 0), (2, 0)];
    assert_eq!(newest_boot(&wrapped), Some(2));
    assert_eq!(oldest_file(&wrapped), Some((u64::MAX - 1, 0)));
    assert_eq!(next_boot(newest_boot(&wrapped)), 3);
}

#[test]
fn marker_roundtrip() {
    let mut buf = [0u8; MARKER_CAP];
    for boot in [1u64, 42, u64::MAX] {
        let marker = format_boot_marker(boot, &mut buf);
        assert!(marker.starts_with(b"\n----- boot #"));
        assert!(marker.ends_with(b" -----\n"));
    }
}

#[test]
fn numbers_in_names_are_digits() {
    assert_eq!(parse_segment_name("boot_00000000000000000001_05.log"), Some((1, 5)));
    assert_eq!(parse_segment_name("boot_00000000000000000001_+5.log"), None);
    assert_eq!(parse_segment_name("boot_+0000000000000000001.log"), None);
    assert_eq!(parse_legacy_slot_name("log5.log"), Some((0, 5)));
    assert_eq!(parse_legacy_slot_name("log+5.log"), None);
}
