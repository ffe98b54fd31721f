//! The allocator, on an arena of 64 KiB.

use hc32_firmware::heap_layout::Layout;
use hc32_firmware::heap_tlsf::Tlsf;

const START: u32 = 0x2000_0000;
const ARENA_BYTES: u32 = 64 * 1024;

/// An arena and its allocator, with payloads addressed byte by byte.
struct Arena {
    words: Vec<u32>,
    tlsf: Tlsf,
}

impl Arena {
    fn new(bytes: u32) -> Self {
        let mut words = vec![0u32; (bytes / 4) as usize];
        let mut tlsf = Tlsf::new();
        tlsf.init(&mut words, START, START + bytes);
        Arena { words, tlsf }
    }

    fn take(&mut self, layout: Layout) -> Option<u32> {
        self.tlsf.allocate(&mut self.words, layout)
    }

    fn dealloc(&mut self, payload: u32) {
        self.tlsf.dealloc(&mut self.words, payload);
    }

    fn put(&mut self, address: u32, byte: u8) {
        let at = address - START;
        let word = &mut self.words[(at / 4) as usize];
        let shift = 8 * (at % 4);
        *word = (*word & !(0xff << shift)) | ((byte as u32) << shift);
    }

    fn get(&self, address: u32) -> u8 {
        let at = address - START;
        (self.words[(at / 4) as usize] >> (8 * (at % 4))) as u8
    }

    fn largest_free_block(&self) -> u32 {
        self.tlsf.largest_free_block(&self.words)
    }
}

fn layout(size: usize, align: usize) -> Layout {
    Layout::from_size_align(size, align).unwrap()
}

struct Rng(u32);

impl Rng {
    fn next(&mut self) -> u32 {
        let mut x = self.0;
        x ^= x << 13;
        x ^= x >> 17;
        x ^= x << 5;
        self.0 = x;
        x
    }

    fn below(&mut self, n: u32) -> u32 {
        self.next() % n
    }
}

#[test]
fn alloc_free_reuses_memory_without_corruption() {
    let mut arena = Arena::new(ARENA_BYTES);
    let layouts = [
        layout(1, 1),
        layout(7, 8),
        layout(24, 8),
        layout(512, 8),
        layout(2048, 8),
        layout(1056, 32),
        layout(544, 32),
        layout(4096, 256),
    ];
    let mut allocations: Vec<(u32, Layout)> = Vec::new();

    for round in 0..200usize {
        let wanted = layouts[(round * 3 + 1) % layouts.len()];
        if let Some(payload) = arena.take(wanted) {
            for i in 0..wanted.size {
                arena.put(payload + i as u32, (round as u8).wrapping_add(i as u8));
            }
            allocations.push((payload, wanted));
        }
        if allocations.len() > 16 && round % 2 == 1 {
            let index = round % allocations.len();
            let (payload, _) = allocations.swap_remove(index);
            arena.dealloc(payload);
        }
    }
    for (payload, _) in allocations.drain(..) {
        arena.dealloc(payload);
    }
    assert_eq!(arena.tlsf.used(), 0);
    assert_eq!(arena.largest_free_block(), ARENA_BYTES);
}

#[test]
fn random_churn_keeps_neighbors_intact() {
    let mut arena = Arena::new(ARENA_BYTES);
    let mut rng = Rng(0x1234_5678);

    const ALIGNS: [usize; 7] = [1, 2, 4, 8, 16, 64, 256];
    let mut live: Vec<(u32, u32, u8)> = Vec::new();

    for round in 0..5000u32 {
        match rng.below(10) {
            0..=6 => {
                let size = 1 + rng.below(1500);
                let align = ALIGNS[rng.below(ALIGNS.len() as u32) as usize];
                let Some(wanted) = Layout::from_size_align(size as usize, align) else {
                    continue;
                };
                let Some(payload) = arena.take(wanted) else {
                    continue;
                };
                let tag = (round & 0xFF) as u8;
                for i in 0..size {
                    arena.put(payload + i, tag);
                }
                live.push((payload, size, tag));
            }
            _ => {
                if !live.is_empty() {
                    let index = rng.below(live.len() as u32) as usize;
                    let (payload, size, tag) = live.swap_remove(index);
                    for i in 0..size {
                        assert_eq!(arena.get(payload + i), tag, "round={round}");
                    }
                    arena.dealloc(payload);
                }
            }
        }
    }
    for (payload, size, tag) in live.drain(..) {
        for i in 0..size {
            assert_eq!(arena.get(payload + i), tag);
        }
        arena.dealloc(payload);
    }
    assert_eq!(arena.tlsf.used(), 0);
    assert_eq!(arena.largest_free_block(), ARENA_BYTES);
}

#[test]
fn thread_stack_and_tcb_churn_matches_kernel_pattern() {
    let mut arena = Arena::new(ARENA_BYTES);
    let stack_layout = layout(512 + 32, 32);
    let tcb_layout = layout(224, 8);
    let mut stacks: Vec<u32> = Vec::new();
    let mut tcbs: Vec<u32> = Vec::new();

    for _ in 0..3000 {
        let tcb = arena.take(tcb_layout);
        assert!(tcb.is_some());
        tcbs.push(tcb.unwrap());
        let stack = arena.take(stack_layout);
        assert!(stack.is_some());
        for i in 0..stack_layout.size {
            arena.put(stack.unwrap() + i as u32, 0xA5);
        }
        stacks.push(stack.unwrap());
        if stacks.len() >= 8 {
            let stack = stacks.remove(0);
            let tcb = tcbs.remove(0);
            arena.dealloc(stack);
            arena.dealloc(tcb);
        }
    }
    for stack in stacks {
        arena.dealloc(stack);
    }
    for tcb in tcbs {
        arena.dealloc(tcb);
    }
    assert_eq!(arena.tlsf.used(), 0);
    assert_eq!(arena.largest_free_block(), ARENA_BYTES);
}

#[test]
fn coalescing_merges_all_directions() {
    let mut arena = Arena::new(ARENA_BYTES);
    let l = layout(256, 8);
    let a = arena.take(l);
    let b = arena.take(l);
    let c = arena.take(l);
    assert!(a.is_some() && b.is_some() && c.is_some());
    let (a, b, c) = (a.unwrap(), b.unwrap(), c.unwrap());
    assert!(a < b && b < c);
    arena.dealloc(b);
    arena.dealloc(a);
    arena.dealloc(c);
    assert_eq!(arena.tlsf.used(), 0);
    assert_eq!(arena.largest_free_block(), ARENA_BYTES);
    let big = arena.take(layout(32 * 1024, 8));
    assert!(big.is_some());
    arena.dealloc(big.unwrap());
    assert_eq!(arena.tlsf.used(), 0);
}

#[test]
fn high_alignment_payloads_round_trip() {
    let mut arena = Arena::new(ARENA_BYTES);
    let mut rng = Rng(0xDEAD_BEEF);

    let mut live: Vec<(u32, usize)> = Vec::new();
    for _ in 0..2000 {
        let align = 1usize << rng.below(11);
        let size = 1 + rng.below(256) as usize;
        let Some(wanted) = Layout::from_size_align(size, align) else {
            continue;
        };
        let Some(payload) = arena.take(wanted) else {
            continue;
        };
        assert_eq!(payload as usize % align, 0);
        live.push((payload, align));
        if live.len() > 64 {
            let index = rng.below(live.len() as u32) as usize;
            let (payload, _) = live.swap_remove(index);
            arena.dealloc(payload);
        }
    }
    for (payload, _) in live {
        arena.dealloc(payload);
    }
    assert_eq!(arena.tlsf.used(), 0);
    assert_eq!(arena.largest_free_block(), ARENA_BYTES);
}

#[test]
fn all_free_orders_coalesce_to_single_block() {
    let l = layout(256, 8);
    let orders: [[usize; 3]; 6] = [
        [0, 1, 2],
        [2, 1, 0],
        [1, 0, 2],
        [0, 2, 1],
        [2, 0, 1],
        [1, 2, 0],
    ];
    for order in orders {
        let mut arena = Arena::new(ARENA_BYTES);
        let a = arena.take(l);
        let b = arena.take(l);
        let c = arena.take(l);
        assert!(a.is_some() && b.is_some() && c.is_some());
        let payloads = [a.unwrap(), b.unwrap(), c.unwrap()];
        for index in order {
            arena.dealloc(payloads[index]);
        }
        assert_eq!(arena.largest_free_block(), ARENA_BYTES, "order {order:?}");
        assert_eq!(arena.tlsf.used(), 0);
    }
}

#[test]
fn allocation_failure_is_graceful_when_full() {
    let mut arena = Arena::new(1024);
    let big = arena.take(layout(2048, 8));
    assert!(big.is_none());
    let small = arena.take(layout(64, 8));
    assert!(small.is_some());
    arena.dealloc(small.unwrap());
    assert_eq!(arena.tlsf.used(), 0);
}

#[test]
fn a_block_a_quarter_larger_than_needed_is_enough() {
    // 3000 bytes need at most 3016, and a quarter more is 3770.
    let mut arena = Arena::new(3776);
    assert!(arena.take(layout(3000, 8)).is_some());

    // The only free block is in the class from 3584 on; for 3016 bytes that class is
    // good enough, for 3600 it is not, although the block itself would be.
    let mut arena = Arena::new(3776);
    assert_eq!(arena.take(layout(3600, 8)), None);
    assert_eq!(arena.largest_free_block(), 3776);
    assert!(arena.take(layout(3016, 8)).is_some());
}

#[test]
fn allocations_come_from_the_nearest_class() {
    let mut arena = Arena::new(4096);
    let small = arena.take(layout(100, 8)).unwrap();
    let wall = arena.take(layout(16, 8)).unwrap();
    arena.dealloc(small);
    // The freed block is of the nearest class, not the rest of the arena.
    assert_eq!(arena.take(layout(64, 8)), Some(small));
    arena.dealloc(wall);
}
