//! Erase counters and the choice of blocks.

use hc32_firmware::littlefs::format::{
    wear_table_size, SnapshotHeader, MAX_WEAR_BLOCKS, WEAR_BAD_BIT, WEAR_COUNT_MASK,
};
use hc32_firmware::littlefs::wear::{
    choose_start_block, incremented_wear, mark_bad, rescaled_wear, wear_bounds, WEAR_RESCALE_AT,
};
use hc32_firmware::littlefs::Geometry;

fn sample_geometry() -> Geometry {
    Geometry::new(4096, 8)
}

fn sample_active() -> SnapshotHeader {

    SnapshotHeader::new(1, 0, wear_table_size(8), 0, 0, sample_geometry()).unwrap()
}

#[test]
fn rescale_halves_counts_and_preserves_bad_flags() {
    let mut wear = [0u16; MAX_WEAR_BLOCKS];
    wear[0] = 10;
    wear[1] = WEAR_RESCALE_AT;
    wear[2] = WEAR_BAD_BIT | 20_000;
    wear[3] = WEAR_BAD_BIT | 29_999;

    let rescaled = rescaled_wear(&wear, 8);
    assert_eq!(rescaled[0], 5);
    assert_eq!(rescaled[1], WEAR_RESCALE_AT / 2);

    assert_eq!(rescaled[2], WEAR_BAD_BIT | 10_000);
    assert_eq!(rescaled[3], WEAR_BAD_BIT | 14_999);

    assert_eq!(rescaled[8], 0);
}

#[test]
fn rescale_is_idempotent_below_threshold() {
    let mut wear = [0u16; MAX_WEAR_BLOCKS];
    wear[0] = WEAR_RESCALE_AT - 1;
    let rescaled = rescaled_wear(&wear, 8);
    assert_eq!(rescaled, wear);
}

#[test]
fn choose_skips_runs_containing_bad_blocks() {
    let active = sample_active();
    let mut wear = [0u16; MAX_WEAR_BLOCKS];

    let start = choose_start_block(&active, 1, &wear, 8).unwrap();
    assert_eq!(start, 1);
    wear[1] = WEAR_BAD_BIT;
    let start = choose_start_block(&active, 1, &wear, 8).unwrap();
    assert_eq!(start, 2);
}

#[test]
fn choose_returns_none_when_all_candidates_contain_bad_blocks() {
    let active = sample_active();
    let mut wear = [0u16; MAX_WEAR_BLOCKS];
    for block in 1..8 {
        wear[block] = WEAR_BAD_BIT;
    }
    assert_eq!(choose_start_block(&active, 1, &wear, 8), None);
}

#[test]
fn incremented_wear_saturates_at_mask_and_keeps_bad() {
    let mut wear = [0u16; MAX_WEAR_BLOCKS];
    wear[0] = WEAR_COUNT_MASK;
    wear[1] = WEAR_BAD_BIT | 5;
    let next = incremented_wear(&wear, 0, 2, 8);
    assert_eq!(next[0], WEAR_COUNT_MASK);
    assert_eq!(next[1], WEAR_BAD_BIT | 6);
}

#[test]
fn mark_bad_sets_flag_without_touching_count() {
    let mut wear = [0u16; MAX_WEAR_BLOCKS];
    wear[4] = 123;
    mark_bad(&mut wear, 4);
    assert_eq!(wear[4], WEAR_BAD_BIT | 123);
}

#[test]
fn wear_bounds_skip_bad_blocks() {
    let mut wear = [7u16; MAX_WEAR_BLOCKS];
    wear[0] = 3;
    wear[1] = 9;
    wear[2] = WEAR_BAD_BIT | 20_000;
    assert_eq!(wear_bounds(&wear, 8), (3, 9));
}
