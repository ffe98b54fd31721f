//! Placing payloads in blocks, and the classes of free blocks.

use hc32_firmware::heap_layout::{
    allocation_plan, checked_align_up, tlsf_class_min, tlsf_insert_index, tlsf_search_index, Layout,
    TLSF_SL_COUNT,
};

const HEADER: usize = 8;
const PREFIX: usize = 4;
const FOOTER: usize = 4;
const BLOCK_ALIGN: usize = 8;

#[test]
fn sequential_blocks_preserve_payload_and_block_alignment() {
    let mut block = 0x2000_0000usize;
    let arena_end = block + 64 * 1024;

    for (index, align) in [1, 2, 4, 8, 16, 32, 64, 256, 4096]
        .into_iter()
        .cycle()
        .take(128)
        .enumerate()
    {
        let layout = Layout::from_size_align(index % 97 + 1, align).unwrap();
        let plan = allocation_plan(
            block,
            arena_end - block,
            layout,
            HEADER,
            PREFIX,
            FOOTER,
            BLOCK_ALIGN,
        )
        .unwrap();

        assert_eq!(plan.payload % align, 0);
        assert_eq!(plan.block_size % BLOCK_ALIGN, 0);
        assert!(plan.payload >= block + HEADER + PREFIX);
        block += plan.block_size;
        assert_eq!(block % BLOCK_ALIGN, 0);
    }
}

#[test]
fn high_alignment_padding_is_accounted_for() {
    let block = 0x2000_0008;
    let layout = Layout::from_size_align(33, 1024).unwrap();
    let plan =
        allocation_plan(block, 4096, layout, HEADER, PREFIX, FOOTER, BLOCK_ALIGN).unwrap();

    assert_eq!(plan.payload % 1024, 0);
    assert!(plan.block_size >= plan.payload - block + 33 + FOOTER);
    assert_eq!(plan.block_size % BLOCK_ALIGN, 0);
}

#[test]
fn insufficient_or_overflowing_layouts_fail_closed() {
    let layout = Layout::from_size_align(128, 32).unwrap();
    assert!(
        allocation_plan(0x2000_0000, 64, layout, HEADER, PREFIX, FOOTER, BLOCK_ALIGN,)
            .is_none()
    );
    assert!(
        allocation_plan(
            usize::MAX - 7,
            usize::MAX,
            layout,
            HEADER,
            PREFIX,
            FOOTER,
            BLOCK_ALIGN,
        )
        .is_none()
    );
    assert_eq!(checked_align_up(usize::MAX, 8), None);
    assert_eq!(checked_align_up(1, 3), None);
}

#[test]
fn zero_sized_layout_still_gets_a_stable_internal_slot() {
    let layout = Layout::from_size_align(0, 64).unwrap();
    let plan = allocation_plan(
        0x2000_0000,
        1024,
        layout,
        HEADER,
        PREFIX,
        FOOTER,
        BLOCK_ALIGN,
    )
    .unwrap();

    assert_eq!(plan.payload % 64, 0);
    assert!(plan.block_size > HEADER + PREFIX + FOOTER);
}

const FL_MIN: usize = 4;
const FL_COUNT: usize = 14;

#[test]
fn tlsf_insert_index_places_size_within_its_class() {

    for size in 24..=200_000 {
        let (fl, sl) = tlsf_insert_index(size, FL_MIN);
        let min = tlsf_class_min(fl, sl, FL_MIN);
        let max = tlsf_class_min(fl, sl + 1, FL_MIN);
        assert!(
            size >= min && size < max,
            "size={size} 不在其类 [{min}, {max}) 内 (fl={fl}, sl={sl})"
        );
        assert!(fl < FL_COUNT);
    }
}

#[test]
fn tlsf_search_index_guarantees_class_fits() {
    for size in 24..=200_000 {
        let Some((fl, sl)) = tlsf_search_index(size, FL_MIN, FL_COUNT) else {
            panic!("size={size} 应存在可容纳的尺寸级");
        };
        let min = tlsf_class_min(fl, sl, FL_MIN);
        assert!(min >= size, "size={size} 被映射到更小的级 (min={min})");

        if fl > 0 || sl > 0 {
            let (pfl, psl) = if sl > 0 {
                (fl, sl - 1)
            } else {
                (fl - 1, TLSF_SL_COUNT - 1)
            };
            let prev_min = tlsf_class_min(pfl, psl, FL_MIN);
            assert!(
                prev_min < size,
                "size={size} 应落入更小级 (前级最小 {prev_min})"
            );
        }
    }
}

#[test]
fn tlsf_search_index_reports_overflow_beyond_fl_count() {

    let top = 1usize << (FL_MIN + FL_COUNT - 1);
    assert!(tlsf_search_index(top, FL_MIN, FL_COUNT).is_some());

    assert!(
        tlsf_search_index(1usize << (FL_MIN + FL_COUNT), FL_MIN, FL_COUNT).is_none()
    );
}

#[test]
fn tlsf_mapping_is_monotonic_in_size() {
    let mut prev = (0usize, 0usize);
    for size in 24..=200_000 {
        let (fl, sl) = tlsf_insert_index(size, FL_MIN);
        assert!((fl, sl) >= prev, "映射非单调: size={size}");
        prev = (fl, sl);
    }
}
