//! The heap of the firmware: where it lies, and the allocator that serves it.

use vstd::prelude::*;

use crate::heap_layout::{self, Layout};
use crate::heap_tlsf::Tlsf;

verus! {

/// The heap between two addresses, cut down to multiples of eight.
pub open spec fn bounds_of(raw_start: int, raw_end: int) -> (int, int) {
    let end = raw_end - raw_end % 8;
    let start = match heap_layout::checked_up(raw_start, 8) {
        Some(start) => start,
        None => end,
    };
    (if start < end {
        start
    } else {
        end
    }, end)
}

/// The allocator of the heap.
pub struct HeapAllocator {
    tlsf: Tlsf,
}

/// `after` is the arena `words` of an allocator that has just taken charge of it.
pub open spec fn taken_over(after: Tlsf, words: Seq<u32>, start: int, end: int) -> bool {
    &&& after.inv(words)
    &&& after.ready()
    &&& after.start() == start
    &&& after.end() == end
    &&& after.map() == (if end - start >= 16 {
        map![start => crate::heap_tlsf::Piece {
            size: end - start,
            used: false,
            prev_used: true,
            prev_size: 0,
            payload: 0,
        }]
    } else {
        Map::empty()
    })
}

/// An allocation gave `r`, and led from one state to another.
pub open spec fn allocated(
    before: Tlsf,
    words: Seq<u32>,
    after: Tlsf,
    words_after: Seq<u32>,
    layout: Layout,
    r: Option<u32>,
) -> bool {
    &&& after.start() == before.start()
    &&& after.end() == before.end()
    &&& match r {
        None => {
            &&& before.choice(layout) is None
            &&& after == before
            &&& words_after == words
        },
        Some(payload) => {
            let a = before.choice(layout)->0;
            &&& before.choice(layout) is Some
            &&& before.map().dom().contains(a)
            &&& !before.map()[a].used
            &&& heap_layout::placement(a, layout, 8, 4, 0, 8) is Some
            &&& payload == heap_layout::placement(a, layout, 8, 4, 0, 8).unwrap().0
            &&& after.map() == crate::heap_tlsf::placed_map(before.map(), a, layout)
            &&& crate::heap_tlsf::payloads_kept(
                before.map(),
                words,
                words_after,
                before.start(),
                before.end(),
            )
        },
    }
}

impl HeapAllocator {
    /// The state of the allocator.
    pub closed spec fn state(self) -> Tlsf {
        self.tlsf
    }

    /// An allocator that has not served any request.
    pub fn new() -> (r: Self)
        ensures
            !r.state().ready(),
            forall|words: Seq<u32>| #[trigger] r.state().inv(words),
            r.state().map() == Map::<int, crate::heap_tlsf::Piece>::empty(),
    {
        HeapAllocator { tlsf: Tlsf::new() }
    }

    /// Allocate; the first request takes charge of the heap between the two
    /// addresses, whose words are `words`.
    pub fn allocate(&mut self, words: &mut [u32], raw_start: u32, raw_end: u32, layout: Layout) -> (r:
        Option<u32>)
        requires
            old(self).state().inv(old(words)@),
            layout.ok(),
            !old(self).state().ready() ==> ({
                let (start, end) = bounds_of(raw_start as int, raw_end as int);
                crate::heap_tlsf::bounds_ok(old(words)@, start, end)
            }),
        ensures
            final(self).state().inv(final(words)@),
            final(self).state().ready(),
            if old(self).state().ready() {
                allocated(
                    old(self).state(),
                    old(words)@,
                    final(self).state(),
                    final(words)@,
                    layout,
                    r,
                )
            } else {
                let (start, end) = bounds_of(raw_start as int, raw_end as int);
                exists|fresh: Tlsf, arena: Seq<u32>| #[trigger]
                    taken_over(fresh, arena, start, end) && allocated(
                        fresh,
                        arena,
                        final(self).state(),
                        final(words)@,
                        layout,
                        r,
                    )
            },
    {
        if !self.tlsf.initialized() {
            let (start, end) = heap_bounds(raw_start as usize, raw_end as usize);
            self.tlsf.init(words, start as u32, end as u32);
            assert(taken_over(self.tlsf, words@, start as int, end as int));
        }
        self.tlsf.allocate(words, layout)
    }

    /// Free what was allocated; nothing for the address zero.
    pub fn release(&mut self, words: &mut [u32], payload: u32)
        requires
            old(self).state().inv(old(words)@),
            payload != 0 ==> old(self).state().live(payload as int),
        ensures
            final(self).state().inv(final(words)@),
            payload == 0 ==> *final(self) == *old(self) && final(words)@ == old(words)@,
            payload != 0 ==> {
                let owner = old(self).state().owner(payload as int);
                &&& final(self).state().ready()
                &&& final(self).state().start() == old(self).state().start()
                &&& final(self).state().end() == old(self).state().end()
                &&& final(self).state().map() == crate::heap_tlsf::merged_map(
                    old(self).state().map(),
                    owner,
                )
                &&& crate::heap_tlsf::payloads_kept(
                    old(self).state().map().remove(owner),
                    old(words)@,
                    final(words)@,
                    old(self).state().start(),
                    old(self).state().end(),
                )
            },
    {
        if payload != 0 {
            self.tlsf.dealloc(words, payload);
        }
    }
}

/// The heap between two addresses. Neither bound is moved outwards.
fn heap_bounds(raw_start: usize, raw_end: usize) -> (r: (usize, usize))
    ensures
        (r.0 as int, r.1 as int) == bounds_of(raw_start as int, raw_end as int),
        r.0 <= r.1 <= raw_end,
{
    let end: usize = raw_end - raw_end % 8;
    let start: usize = match heap_layout::checked_align_up(raw_start, 8) {
        Some(start) => start,
        None => end,
    };
    if start < end {
        (start, end)
    } else {
        (end, end)
    }
}

/// The size of the heap between two addresses.
pub fn capacity(raw_start: usize, raw_end: usize) -> (r: usize)
    ensures
        ({
            let (start, end) = bounds_of(raw_start as int, raw_end as int);
            r == end - start
        }),
{
    let (start, end) = heap_bounds(raw_start, raw_end);
    end - start
}

/// Bytes in use, those of the allocator itself counted.
pub fn used(heap: &HeapAllocator) -> (r: u32)
    requires
        exists|words: Seq<u32>| #[trigger] heap.state().inv(words),
    ensures
        r == (if heap.state().ready() {
            heap.state().end() - heap.state().start() - crate::heap_tlsf::free_from(
                heap.state().map(),
                heap.state().start(),
                heap.state().end(),
            )
        } else {
            0
        }),
{
    heap.tlsf.used()
}

/// The size of the largest free block.
pub fn largest_free_block(heap: &HeapAllocator, words: &[u32]) -> (r: u32)
    requires
        heap.state().inv(words@),
    ensures
        crate::heap_tlsf::is_largest(heap.state().map(), r as int),
{
    heap.tlsf.largest_free_block(words)
}

/// The heap lies within the two addresses, begins and ends at multiples of eight,
/// and leaves out at most seven bytes at either end.
pub proof fn law_the_heap_keeps_to_its_bounds(raw_start: int, raw_end: int)
    requires
        0 <= raw_start <= usize::MAX,
        0 <= raw_end <= usize::MAX,
    ensures
        ({
            let (start, end) = bounds_of(raw_start, raw_end);
            &&& start % 8 == 0
            &&& end % 8 == 0
            &&& start <= end <= raw_end
            &&& raw_end - end <= 7
            &&& raw_start <= raw_end - 14 ==> raw_start <= start <= raw_start + 7
        }),
{
    assert(vstd::arithmetic::power2::is_pow2(8)) by {
        reveal_with_fuel(vstd::arithmetic::power2::is_pow2, 5);
    }
}

} // verus!
