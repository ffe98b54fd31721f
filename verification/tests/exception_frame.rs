//! Frames that exceptions leave on the stack.

use hc32_firmware::exception_frame::{try_decode, BASIC_WORDS, EXTENDED_BYTES, FP_WORDS};

fn synthetic_stack(extended: bool) -> Vec<u32> {
    let mut words = Vec::new();

    for i in 0..BASIC_WORDS {
        words.push(0xB000_0000 | (i as u32) * 4);
    }
    if extended {

        for i in 0..16 {
            words.push(0x5000_0000 | (i as u32) * 4);
        }
        words.push(0x6000_0000);
        words.push(0x7000_0000);
    }
    words
}

#[test]
fn layout_maps_r0_at_sp_and_pc_at_0x18() {
    let stack = synthetic_stack(true);
    let frame = try_decode(&stack, true).unwrap();

    assert_eq!(frame.basic[0], 0xB000_0000);
    assert_eq!(frame.basic[5], 0xB000_0014);
    assert_eq!(frame.basic[6], 0xB000_0018);
    assert_eq!(frame.basic[7], 0xB000_001C);
}

#[test]
fn fp_context_follows_basic_frame() {
    let stack = synthetic_stack(true);
    let frame = try_decode(&stack, true).unwrap();
    let fp = frame.fp.unwrap();

    assert_eq!(fp[0], 0x5000_0000);
    assert_eq!(fp[15], 0x5000_003C);
    assert_eq!(fp[16], 0x6000_0000);
    assert_eq!(fp[17], 0x7000_0000);
}

#[test]
fn regression_never_reads_basic_frame_from_plus_0x48() {

    let stack = synthetic_stack(true);
    let frame = try_decode(&stack, true).unwrap();
    assert_ne!(frame.basic[0], 0x5000_0028, "r0 不得取自 FP 扩展区");
    assert_eq!(frame.basic[0], 0xB000_0000);
    let wrong_shifted = try_decode(&stack[18..], true);

    assert!(wrong_shifted.is_none());
}

#[test]
fn basic_only_frame_rejects_null_fp() {
    let stack = synthetic_stack(false);
    assert_eq!(stack.len(), BASIC_WORDS);
    let frame = try_decode(&stack, false).unwrap();
    assert!(frame.fp.is_none());

    assert!(try_decode(&stack[..7], false).is_none());

    assert!(try_decode(&stack, true).is_none());
}

#[test]
fn frame_sizes_match_architecture() {
    assert_eq!(BASIC_WORDS * 4, 0x20);
    assert_eq!(EXTENDED_BYTES, 0x68);
    assert_eq!(FP_WORDS * 4, 0x48);
}
