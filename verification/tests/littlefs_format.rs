//! The format of the file system on flash.

use hc32_firmware::littlefs::format::{
    checked_align_4, checked_record_len, checked_snapshot_span, commit_marker_bytes, crc32_mpeg2,
    generation_is_newer, is_aligned_4, Crc32Mpeg2, FormatError, RecordHeader, SnapshotHeader,
    COMMIT_MARKER, COMMIT_OFFSET, CRC32_MPEG2_INITIAL, DISK_VERSION, ERASED_WORD,
    HEADER_CRC_FIELD_OFFSET, HEADER_CRC_OFFSET, HEADER_SIZE, RECORD_FLAG_DIRECTORY,
};
use hc32_firmware::littlefs::{Geometry, MAX_FILES, MAX_NAME_LEN};

const GEOMETRY: Geometry = Geometry {
    block_size: 64,
    block_count: 8,
};

fn read_u32(bytes: &[u8], offset: usize) -> u32 {
    u32::from_le_bytes([
        bytes[offset],
        bytes[offset + 1],
        bytes[offset + 2],
        bytes[offset + 3],
    ])
}

fn write_u32(bytes: &mut [u8], offset: usize, value: u32) {
    bytes[offset..offset + 4].copy_from_slice(&value.to_le_bytes());
}

fn sample_header() -> SnapshotHeader {
    SnapshotHeader::new(7, 2, 64, 0x1122_3344, 2, GEOMETRY).unwrap()
}

fn refresh_header_crc(bytes: &mut [u8; HEADER_SIZE]) {
    let crc = crc32_mpeg2(&bytes[..HEADER_CRC_OFFSET]);
    write_u32(bytes, HEADER_CRC_FIELD_OFFSET, crc);
}

#[test]
fn crc_matches_standard_vector() {
    assert_eq!(crc32_mpeg2(b"123456789"), 0x0376_e6e7);
    assert_eq!(crc32_mpeg2(b""), CRC32_MPEG2_INITIAL);
}

#[test]
fn crc_is_incremental_and_resettable() {
    let mut crc = Crc32Mpeg2::new();
    crc.update(b"1234");
    let saved = crc.value();
    crc.update(b"56789");
    assert_eq!(crc.finalize(), 0x0376_e6e7);

    let mut resumed = Crc32Mpeg2::from_state(saved);
    resumed.update(b"56789");
    assert_eq!(resumed.value(), 0x0376_e6e7);
    resumed.reset();
    assert_eq!(resumed.value(), CRC32_MPEG2_INITIAL);
}

#[test]
fn snapshot_codec_is_little_endian_and_round_trips() {
    let header = sample_header();
    let encoded = header.encode_committed().unwrap();

    assert_eq!(&encoded[0..4], b"RFS1");
    assert_eq!(&encoded[4..8], &DISK_VERSION.to_le_bytes());
    assert_eq!(&encoded[8..12], &7u32.to_le_bytes());
    assert_eq!(&encoded[12..16], &2u32.to_le_bytes());
    assert_eq!(&encoded[44..56], &[0u8; 12]);
    assert_eq!(
        read_u32(&encoded, HEADER_CRC_FIELD_OFFSET),
        crc32_mpeg2(&encoded[..HEADER_CRC_OFFSET])
    );
    assert_eq!(&encoded[COMMIT_OFFSET..], &COMMIT_MARKER.to_le_bytes());
    assert_eq!(SnapshotHeader::decode_at(&encoded, 2, GEOMETRY), Ok(header));
}

#[test]
fn uncommitted_header_is_never_accepted() {
    let header = sample_header();
    let encoded = header.encode_uncommitted().unwrap();
    assert_eq!(&encoded[COMMIT_OFFSET..], &ERASED_WORD.to_le_bytes());
    assert_eq!(
        SnapshotHeader::decode(&encoded),
        Err(FormatError::NotCommitted { found: ERASED_WORD })
    );
    assert_eq!(header.encode_prefix().unwrap(), encoded[..COMMIT_OFFSET]);
    assert_eq!(commit_marker_bytes(), COMMIT_MARKER.to_le_bytes());
}

#[test]
fn snapshot_crc_rejects_corruption() {
    let mut encoded = sample_header().encode_committed().unwrap();
    let stored = read_u32(&encoded, HEADER_CRC_FIELD_OFFSET);
    encoded[20] ^= 1;
    assert!(matches!(
        SnapshotHeader::decode(&encoded),
        Err(FormatError::HeaderCrcMismatch { found, .. }) if found == stored
    ));
}

#[test]
fn snapshot_rejects_unknown_and_noncanonical_fields() {
    let mut encoded = sample_header().encode_committed().unwrap();
    write_u32(&mut encoded, 40, 1);
    refresh_header_crc(&mut encoded);
    assert_eq!(
        SnapshotHeader::decode(&encoded),
        Err(FormatError::UnsupportedFeatures { found: 1 })
    );

    let mut encoded = sample_header().encode_committed().unwrap();
    encoded[44] = 1;
    refresh_header_crc(&mut encoded);
    assert_eq!(
        SnapshotHeader::decode(&encoded),
        Err(FormatError::NonZeroReserved)
    );

    let mut encoded = sample_header().encode_committed().unwrap();
    write_u32(&mut encoded, 16, 3);
    refresh_header_crc(&mut encoded);
    assert_eq!(
        SnapshotHeader::decode(&encoded),
        Err(FormatError::InvalidSnapshotSpan {
            expected: 2,
            found: 3
        })
    );
}

#[test]
fn snapshot_is_bound_to_scan_location_and_device_geometry() {
    let encoded = sample_header().encode_committed().unwrap();
    assert_eq!(
        SnapshotHeader::decode_at(&encoded, 3, GEOMETRY),
        Err(FormatError::InvalidStart {
            expected: 3,
            found: 2
        })
    );
    assert_eq!(
        SnapshotHeader::decode_at(&encoded, 2, Geometry::new(128, 8)),
        Err(FormatError::GeometryMismatch {
            expected: Geometry::new(128, 8),
            found: GEOMETRY
        })
    );
}

#[test]
fn snapshot_limits_files_extent_and_half_device() {
    assert_eq!(
        SnapshotHeader::new(0, 0, 0, 0, MAX_FILES + 1, GEOMETRY),
        Err(FormatError::TooManyFiles {
            found: MAX_FILES + 1
        })
    );
    assert_eq!(
        SnapshotHeader::new(0, 8, 0, 0, 0, GEOMETRY),
        Err(FormatError::SnapshotOutOfBounds)
    );
    let wrapped = SnapshotHeader::new(0, 7, 64, 0, 0, GEOMETRY).unwrap();
    assert_eq!(wrapped.block_span, 2);
    assert_eq!(wrapped.start_block, 7);
    assert_eq!(
        SnapshotHeader::new(0, 0, 64 * 4, 0, 0, GEOMETRY),
        Err(FormatError::SnapshotTooLarge)
    );
}

#[test]
fn snapshot_constructor_reports_invalid_geometry() {
    assert_eq!(
        SnapshotHeader::new(0, 0, 0, 0, 0, Geometry::new(0, 8)),
        Err(FormatError::InvalidBlockSize { found: 0 })
    );
    assert_eq!(
        SnapshotHeader::new(0, 0, 0, 0, 0, Geometry::new(64, 1)),
        Err(FormatError::InvalidBlockCount { found: 1 })
    );
}

#[test]
fn record_codec_round_trips_and_calculates_padding() {
    let header = RecordHeader::new(3, 6, 0xaabb_ccdd, 0).unwrap();
    assert_eq!(header.record_len, 32);
    let encoded = header.encode().unwrap();
    assert_eq!(&encoded[..4], b"FILE");
    assert_eq!(&encoded[16..18], &3u16.to_le_bytes());
    assert_eq!(RecordHeader::decode(&encoded), Ok(header));
    assert!(is_aligned_4(header.record_len));

    let directory =
        RecordHeader::new(3, 0, CRC32_MPEG2_INITIAL, RECORD_FLAG_DIRECTORY).unwrap();
    assert_eq!(
        RecordHeader::decode(&directory.encode().unwrap()),
        Ok(directory)
    );
}

#[test]
fn record_rejects_bad_lengths_flags_and_magic() {
    assert_eq!(
        RecordHeader::new(0, 0, 0, 0),
        Err(FormatError::InvalidNameLength { found: 0 })
    );
    assert_eq!(
        RecordHeader::new((MAX_NAME_LEN + 1) as u16, 0, 0, 0),
        Err(FormatError::InvalidNameLength {
            found: (MAX_NAME_LEN + 1) as u16
        })
    );
    assert_eq!(
        RecordHeader::new(1, 0, 0, 2),
        Err(FormatError::UnsupportedRecordFlags { found: 2 })
    );

    let header = RecordHeader::new(1, 0, 0, 0).unwrap();
    let mut encoded = header.encode().unwrap();
    write_u32(&mut encoded, 4, header.record_len + 4);
    assert!(matches!(
        RecordHeader::decode(&encoded),
        Err(FormatError::InvalidRecordLength { .. })
    ));
    encoded[..4].copy_from_slice(b"NOPE");
    assert!(matches!(
        RecordHeader::decode(&encoded),
        Err(FormatError::BadRecordMagic { .. })
    ));
}

#[test]
fn checked_layout_math_never_wraps() {
    assert_eq!(checked_align_4(0), Some(0));
    assert_eq!(checked_align_4(1), Some(4));
    assert_eq!(checked_align_4(u32::MAX), None);
    assert_eq!(checked_record_len(1, u32::MAX), None);
    assert_eq!(checked_snapshot_span(u32::MAX, 64), None);
    assert_eq!(checked_snapshot_span(0, 0), None);
}

#[test]
fn generation_comparison_handles_wrap_and_ambiguity() {
    assert!(!generation_is_newer(10, 10));
    assert!(generation_is_newer(11, 10));
    assert!(!generation_is_newer(10, 11));
    assert!(generation_is_newer(0, u32::MAX));
    assert!(!generation_is_newer(u32::MAX, 0));
    assert!(!generation_is_newer(0x8000_0000, 0));
    assert!(!generation_is_newer(0, 0x8000_0000));
}
