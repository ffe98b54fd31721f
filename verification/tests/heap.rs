//! The heap of the firmware.

use hc32_firmware::heap::{capacity, largest_free_block, used, HeapAllocator};
use hc32_firmware::heap_layout::Layout;

const START: u32 = 0x2000_0004;

const END: u32 = 0x2000_1007;

fn arena() -> Vec<u32> {
    vec![0u32; 0xff8 / 4]
}

#[test]
fn heaps_begin_and_end_at_multiples_of_eight() {
    assert_eq!(capacity(0x2000_0004, 0x2000_1007), 0xff8);
    assert_eq!(capacity(0x2000_0000, 0x2000_0007), 0);
    assert_eq!(capacity(0x2000_0001, 0x2000_0000), 0);
    assert_eq!(capacity(usize::MAX, usize::MAX), 0);
}

#[test]
fn the_first_request_takes_charge_of_the_heap() {
    let mut words = arena();
    let mut heap = HeapAllocator::new();
    assert_eq!(used(&heap), 0);
    let layout = Layout::from_size_align(100, 16).unwrap();
    let payload = heap.allocate(&mut words, START, END, layout).unwrap();
    assert_eq!(payload % 16, 0);
    assert!(payload >= 0x2000_0008 && payload + 100 <= 0x2000_1000);
    assert!(used(&heap) >= 100);
    let second = heap.allocate(&mut words, START, END, layout).unwrap();
    assert!(second >= payload + 100 || payload >= second + 100);
    heap.release(&mut words, payload);
    heap.release(&mut words, second);
    heap.release(&mut words, 0);
    assert_eq!(used(&heap), 0);
    assert_eq!(largest_free_block(&heap, &words), 0xff8);
}

#[test]
fn requests_that_do_not_fit_are_refused() {
    let mut words = arena();
    let mut heap = HeapAllocator::new();
    let huge = Layout::from_size_align(0x1000, 8).unwrap();
    assert_eq!(heap.allocate(&mut words, START, END, huge), None);
    assert_eq!(used(&heap), 0);
    let small = Layout::from_size_align(8, 8).unwrap();
    assert!(heap.allocate(&mut words, START, END, small).is_some());
}
