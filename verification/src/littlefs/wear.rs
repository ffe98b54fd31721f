//! Wear leveling: where the next snapshot goes, and how the erase counters
//! follow.
//!
//! A wear entry holds a 15-bit erase counter and, in its top bit, the mark of a
//! bad block.

use vstd::prelude::*;

use super::format::{MAX_WEAR_BLOCKS, SnapshotHeader, WEAR_BAD_BIT, WEAR_COUNT_MASK};

verus! {

/// Counter value at which all counters are halved.
///
/// Halving keeps the order of the counters and the bad marks, so that placement
/// never sees all blocks saturated alike.
pub const WEAR_RESCALE_AT: u16 = 30_000;

/// The block is marked bad.
pub open spec fn bad(entry: u16) -> bool {
    entry >= WEAR_BAD_BIT
}

/// The erase counter of a wear entry.
pub open spec fn count(entry: u16) -> int {
    entry as int % 0x8000
}

/// A wear entry made of a mark and a counter.
pub open spec fn entry_of(is_bad: bool, n: int) -> u16 {
    (n + if is_bad {
        0x8000int
    } else {
        0
    }) as u16
}

/// Block number `n` of a device that wraps around after `block_count` blocks.
pub open spec fn wrap(n: int, block_count: int) -> int {
    if n < block_count {
        n
    } else {
        n - block_count
    }
}

/// The run of `span` blocks from `start` on takes up block `b`.
pub open spec fn occupies(start: int, span: int, block_count: int, b: int) -> bool {
    exists|k: int| 0 <= k < span && #[trigger] wrap(start + k, block_count) == b
}

/// Two runs of blocks share a block.
pub open spec fn overlap(
    start: int,
    span: int,
    other_start: int,
    other_span: int,
    block_count: int,
) -> bool {
    exists|b: int|
        #[trigger] occupies(start, span, block_count, b) && occupies(
            other_start,
            other_span,
            block_count,
            b,
        )
}

pub(crate) fn wrapped(n: u32, block_count: u32) -> (r: u32)
    requires
        n < 2 * block_count,
    ensures
        r == wrap(n as int, block_count as int),
        r < block_count,
{
    if n < block_count {
        n
    } else {
        n - block_count
    }
}

/// Whether the two runs of blocks share a block.
pub fn spans_overlap(
    start: u32,
    span: u32,
    other_start: u32,
    other_span: u32,
    block_count: u32,
) -> (r: bool)
    requires
        start < block_count,
        other_start < block_count,
        span <= block_count,
        other_span <= block_count,
        block_count <= 0x7fff_ffff,
    ensures
        r == overlap(
            start as int,
            span as int,
            other_start as int,
            other_span as int,
            block_count as int,
        ),
{
    let ghost bc = block_count as int;
    let ghost os = other_start as int;
    let ghost on = other_span as int;
    let mut index: u32 = 0;
    while index < span
        invariant
            index <= span <= block_count,
            start < block_count,
            other_start < block_count,
            other_span <= block_count <= 0x7fff_ffff,
            bc == block_count,
            os == other_start,
            on == other_span,
            forall|k: int|
                0 <= k < index ==> !occupies(os, on, bc, #[trigger] wrap(start + k, bc)),
        decreases span - index,
    {
        let block: u32 = wrapped(start + index, block_count);
        let mut other: u32 = 0;
        while other < other_span
            invariant
                other <= other_span <= block_count <= 0x7fff_ffff,
                other_start < block_count,
                bc == block_count,
                os == other_start,
                on == other_span,
                index < span,
                block == wrap(start + index, bc),
                forall|j: int| 0 <= j < other ==> #[trigger] wrap(os + j, bc) != block,
            decreases other_span - other,
        {
            if wrapped(other_start + other, block_count) == block {
                proof {
                    assert(wrap(start + index, bc) == block as int);
                    assert(occupies(start as int, span as int, bc, block as int));
                    assert(wrap(os + other as int, bc) == block as int);
                    assert(occupies(os, on, bc, block as int));
                }
                return true;
            }
            other += 1;
        }
        assert(!occupies(os, on, bc, wrap(start + index, bc)));
        index += 1;
    }
    assert forall|b: int| #[trigger]
        occupies(start as int, span as int, bc, b) implies !occupies(os, on, bc, b) by {
        let k = choose|k: int| 0 <= k < span && #[trigger] wrap(start + k, bc) == b;
    }
    false
}

/// Whether two snapshots share a block.
pub fn segments_overlap(left: &SnapshotHeader, right: &SnapshotHeader) -> (r: bool)
    requires
        left.error() is None,
        right.error() is None,
        left.block_count == right.block_count,
        left.block_count <= 0x7fff_ffff,
    ensures
        r == overlap(
            left.start_block as int,
            left.block_span as int,
            right.start_block as int,
            right.block_span as int,
            left.block_count as int,
        ),
{
    spans_overlap(
        left.start_block,
        left.block_span,
        right.start_block,
        right.block_span,
        left.block_count,
    )
}

/// The run holds no bad block.
pub open spec fn usable(wear: Seq<u16>, start: int, span: int, block_count: int) -> bool {
    forall|k: int| 0 <= k < span ==> !bad(wear[#[trigger] wrap(start + k, block_count)])
}

/// Highest erase counter of the run.
pub open spec fn max_count(wear: Seq<u16>, start: int, span: int, block_count: int) -> int
    decreases span,
{
    if span <= 0 {
        0
    } else {
        let m = max_count(wear, start, span - 1, block_count);
        let c = count(wear[wrap(start + span - 1, block_count)]);
        if c > m {
            c
        } else {
            m
        }
    }
}

/// Sum of the erase counters of the run.
pub open spec fn sum_count(wear: Seq<u16>, start: int, span: int, block_count: int) -> int
    decreases span,
{
    if span <= 0 {
        0
    } else {
        sum_count(wear, start, span - 1, block_count) + count(
            wear[wrap(start + span - 1, block_count)],
        )
    }
}

/// How far the run lies behind the end of the active snapshot.
pub open spec fn distance(active: SnapshotHeader, start: int, block_count: int) -> int {
    wrap(
        start + block_count - wrap(active.start_block + active.block_span, block_count),
        block_count,
    )
}

/// A snapshot of `span` blocks may go to `start`: it spares the active snapshot
/// and every bad block.
pub open spec fn candidate(
    active: SnapshotHeader,
    span: int,
    wear: Seq<u16>,
    block_count: int,
    start: int,
) -> bool {
    &&& 0 <= start < block_count
    &&& !overlap(
        start,
        span,
        active.start_block as int,
        active.block_span as int,
        block_count,
    )
    &&& usable(wear, start, span, block_count)
}

/// `a` is a better place than `b`: a lower highest counter, then a lower sum,
/// then nearer behind the active snapshot.
pub open spec fn better(
    active: SnapshotHeader,
    span: int,
    wear: Seq<u16>,
    block_count: int,
    a: int,
    b: int,
) -> bool {
    let ma = max_count(wear, a, span, block_count);
    let mb = max_count(wear, b, span, block_count);
    let sa = sum_count(wear, a, span, block_count);
    let sb = sum_count(wear, b, span, block_count);
    ma < mb || (ma == mb && (sa < sb || (sa == sb && distance(active, a, block_count) < distance(
        active,
        b,
        block_count,
    ))))
}

/// `start` is the best of the places below `limit`.
pub open spec fn best_below(
    active: SnapshotHeader,
    span: int,
    wear: Seq<u16>,
    block_count: int,
    start: int,
    limit: int,
) -> bool {
    &&& start < limit
    &&& candidate(active, span, wear, block_count, start)
    &&& forall|t: int|
        0 <= t < limit && t != start && #[trigger] candidate(active, span, wear, block_count, t)
            ==> better(active, span, wear, block_count, start, t)
}

/// Choose the next segment start with dynamic wear leveling.
///
/// Among every run of `span` consecutive blocks that does not overlap the
/// active snapshot and contains no bad blocks, pick the one with the lowest
/// maximum erase count (lowest total as tie-break). The remaining tie-break is
/// the smallest forward cyclic distance from the old successor position, which
/// reproduces the sequential sweep for uniformly worn devices. `None` means
/// that the device has no viable layout for this snapshot.
pub fn choose_start_block(
    active: &SnapshotHeader,
    span: u32,
    wear: &[u16; MAX_WEAR_BLOCKS],
    block_count: u32,
) -> (r: Option<u32>)
    requires
        active.start_block < block_count,
        active.block_span <= block_count,
        span <= block_count,
        block_count <= MAX_WEAR_BLOCKS,
    ensures
        match r {
            Some(start) => {
                &&& best_below(
                    *active,
                    span as int,
                    wear@,
                    block_count as int,
                    start as int,
                    block_count as int,
                )
                &&& is_free_run(*active, span as int, wear@, block_count as int, start as int)
                &&& forall|t: int| #[trigger]
                    is_free_run(*active, span as int, wear@, block_count as int, t) && span > 0
                        ==> is_topped_by(
                        wear@,
                        span as int,
                        block_count as int,
                        start as int,
                        t,
                    )
            },
            None => forall|t: int|
                {
                    &&& !#[trigger] candidate(*active, span as int, wear@, block_count as int, t)
                    &&& !is_free_run(*active, span as int, wear@, block_count as int, t)
                },
        },
{
    let ghost bc = block_count as int;
    let ghost n = span as int;
    let successor: u32 = wrapped(active.start_block + active.block_span, block_count);
    let mut best: Option<(u32, u32, u32, u32)> = None;
    let mut start: u32 = 0;
    while start < block_count
        invariant
            active.start_block < block_count,
            active.block_span <= block_count,
            span <= block_count,
            block_count <= 64,
            bc == block_count,
            n == span,
            start <= block_count,
            successor == wrap(active.start_block + active.block_span, bc),
            successor < block_count,
            match best {
                Some((m, s, d, at)) => {
                    &&& best_below(*active, n, wear@, bc, at as int, start as int)
                    &&& m == max_count(wear@, at as int, n, bc)
                    &&& s == sum_count(wear@, at as int, n, bc)
                    &&& d == distance(*active, at as int, bc)
                },
                None => forall|t: int|
                    t < start ==> !#[trigger] candidate(*active, n, wear@, bc, t),
            },
        decreases block_count - start,
    {
        if !spans_overlap(start, span, active.start_block, active.block_span, block_count) {
            let mut maximum: u32 = 0;
            let mut sum: u32 = 0;
            let mut is_bad: bool = false;
            let mut index: u32 = 0;
            while index < span && !is_bad
                invariant
                    index <= span <= block_count,
                    block_count <= 64,
                    start < block_count,
                    bc == block_count,
                    n == span,
                    maximum == max_count(wear@, start as int, index as int, bc),
                    sum == sum_count(wear@, start as int, index as int, bc),
                    maximum <= 0x7fff,
                    sum <= index * 0x7fff,
                    !is_bad ==> usable(wear@, start as int, index as int, bc),
                    is_bad ==> !usable(wear@, start as int, n, bc),
                decreases span - index, if is_bad {
                    0int
                } else {
                    1
                },
            {
                let block: u32 = wrapped(start + index, block_count);
                let entry: u16 = wear[block as usize];
                assert(wrap(start + index as int, bc) == block);
                if entry >= WEAR_BAD_BIT {
                    is_bad = true;
                } else {
                    let counter: u32 = (entry % WEAR_BAD_BIT) as u32;
                    if counter > maximum {
                        maximum = counter;
                    }
                    sum = sum + counter;
                    index += 1;
                }
            }
            if !is_bad {
                assert(candidate(*active, n, wear@, bc, start as int));
                let distance: u32 = wrapped(start + block_count - successor, block_count);
                let replace: bool = match best {
                    Some((best_max, best_sum, best_distance, _at)) => maximum < best_max || (maximum
                        == best_max && (sum < best_sum || (sum == best_sum && distance
                        < best_distance))),
                    None => true,
                };
                proof {
                    if let Some((m, s, d, at)) = best {
                        lemma_distance_injective(*active, at as int, start as int, bc);
                        if replace {
                            assert forall|t: int|
                                0 <= t < start + 1 && t != start && #[trigger] candidate(
                                    *active,
                                    n,
                                    wear@,
                                    bc,
                                    t,
                                ) implies better(*active, n, wear@, bc, start as int, t) by {
                                if t != at {
                                    assert(better(*active, n, wear@, bc, at as int, t));
                                }
                            }
                        }
                    }
                }
                if replace {
                    best = Some((maximum, sum, distance, start));
                }
            } else {
                assert(!candidate(*active, n, wear@, bc, start as int));
            }
        } else {
            assert(!candidate(*active, n, wear@, bc, start as int));
        }
        start += 1;
    }
    proof {
        if let Some((m, s, d, at)) = best {
            law_free_runs_are_the_candidates(*active, n, wear@, bc, at as int);
            assert forall|t: int| #[trigger]
                is_free_run(*active, n, wear@, bc, t) && n > 0 implies is_topped_by(
                wear@,
                n,
                bc,
                at as int,
                t,
            ) by {
                law_least_worn_run_is_chosen(*active, n, wear@, bc, at as int, t);
            }
        } else {
            assert forall|t: int| true implies {
                &&& !#[trigger] candidate(*active, n, wear@, bc, t)
                &&& !is_free_run(*active, n, wear@, bc, t)
            } by {
                law_free_runs_are_the_candidates(*active, n, wear@, bc, t);
            }
        }
    }
    match best {
        Some((_m, _s, _d, at)) => Some(at),
        None => None,
    }
}

proof fn lemma_distance_injective(active: SnapshotHeader, a: int, b: int, block_count: int)
    requires
        0 <= a < block_count,
        0 <= b < block_count,
        a != b,
        active.start_block < block_count,
        active.block_span <= block_count,
    ensures
        distance(active, a, block_count) != distance(active, b, block_count),
{
}

// ---------------------------------------------------------------------------
// What the choice of a place comes to
// ---------------------------------------------------------------------------

/// Block `index` of the run that begins at `start`, on a device of `n` blocks in a
/// ring.
pub open spec fn ring(start: int, index: int, n: int) -> int {
    (start + index) % n
}

/// How often a block was erased: the lower 15 bits of its entry.
pub open spec fn erases(wear: Seq<u16>, b: int) -> int {
    wear[b] as int % 0x8000
}

/// No block of the run is marked bad, and none belongs to the active snapshot.
pub open spec fn is_free_run(
    active: SnapshotHeader,
    span: int,
    wear: Seq<u16>,
    n: int,
    start: int,
) -> bool {
    &&& 0 <= start < n
    &&& forall|j: int| 0 <= j < span ==> wear[#[trigger] ring(start, j, n)] < 0x8000
    &&& forall|j: int, a: int|
        0 <= j < span && 0 <= a < active.block_span ==> #[trigger] ring(start, j, n)
            != #[trigger] ring(active.start_block as int, a, n)
}

/// Some block of the run at `t` was erased at least as often as every block of the
/// run at `s`.
pub open spec fn is_topped_by(wear: Seq<u16>, span: int, n: int, s: int, t: int) -> bool {
    exists|k: int|
        0 <= k < span && #[trigger] tops(wear, span, n, s, ring(t, k, n))
}

/// Block `b` was erased at least as often as every block of the run at `s`.
pub open spec fn tops(wear: Seq<u16>, span: int, n: int, s: int, b: int) -> bool {
    forall|j: int|
        0 <= j < span ==> erases(wear, #[trigger] ring(s, j, n)) <= erases(wear, b)
}

proof fn lemma_ring_is_wrap(start: int, index: int, n: int)
    requires
        0 <= start < n,
        0 <= index <= n,
    ensures
        ring(start, index, n) == wrap(start + index, n),
        0 <= ring(start, index, n) < n,
{
    let x = start + index;
    if x < n {
        vstd::arithmetic::div_mod::lemma_small_mod(x as nat, n as nat);
    } else {
        vstd::arithmetic::div_mod::lemma_small_mod((x - n) as nat, n as nat);
        vstd::arithmetic::div_mod::lemma_mod_sub_multiples_vanish(x, n);
        assert((-n + x) % n == x % n);
    }
}

/// The places that a choice is made from are the runs without bad blocks that leave
/// the active snapshot alone.
pub proof fn law_free_runs_are_the_candidates(
    active: SnapshotHeader,
    span: int,
    wear: Seq<u16>,
    n: int,
    start: int,
)
    requires
        0 <= span <= n,
        active.start_block < n,
        active.block_span <= n,
    ensures
        candidate(active, span, wear, n, start) == is_free_run(active, span, wear, n, start),
{
    let other = active.start_block as int;
    let width = active.block_span as int;
    if 0 <= start < n {
        assert forall|j: int| 0 <= j <= n implies ring(start, j, n) == #[trigger] wrap(
            start + j,
            n,
        ) by {
            lemma_ring_is_wrap(start, j, n);
        }
        assert forall|a: int| 0 <= a <= n implies ring(other, a, n) == #[trigger] wrap(
            other + a,
            n,
        ) by {
            lemma_ring_is_wrap(other, a, n);
        }
        if candidate(active, span, wear, n, start) {
            assert forall|j: int| 0 <= j < span implies wear[#[trigger] ring(start, j, n)]
                < 0x8000 by {
                assert(!bad(wear[wrap(start + j, n)]));
            }
            assert forall|j: int, a: int|
                0 <= j < span && 0 <= a < width implies #[trigger] ring(start, j, n)
                != #[trigger] ring(other, a, n) by {
                let b = wrap(start + j, n);
                if b == wrap(other + a, n) {
                    assert(occupies(start, span, n, b));
                    assert(occupies(other, width, n, b));
                }
            }
        }
        if is_free_run(active, span, wear, n, start) {
            assert forall|k: int| 0 <= k < span implies !bad(
                wear[#[trigger] wrap(start + k, n)],
            ) by {
                assert(wear[ring(start, k, n)] < 0x8000);
            }
            assert forall|b: int| #[trigger] occupies(start, span, n, b) implies !occupies(
                other,
                width,
                n,
                b,
            ) by {
                let j = choose|k: int| 0 <= k < span && #[trigger] wrap(start + k, n) == b;
                if occupies(other, width, n, b) {
                    let a = choose|k: int| 0 <= k < width && #[trigger] wrap(other + k, n) == b;
                    assert(ring(start, j, n) != ring(other, a, n));
                }
            }
        }
    }
}

/// The highest counter of a run is the counter of one of its blocks, and none of its
/// blocks was erased more often.
pub proof fn law_highest_counter_of_a_run(wear: Seq<u16>, start: int, span: int, n: int)
    requires
        0 <= start < n,
        1 <= span <= n,
    ensures
        forall|j: int|
            0 <= j < span ==> erases(wear, #[trigger] ring(start, j, n)) <= max_count(
                wear,
                start,
                span,
                n,
            ),
        exists|k: int|
            0 <= k < span && erases(wear, #[trigger] ring(start, k, n)) == max_count(
                wear,
                start,
                span,
                n,
            ),
    decreases span,
{
    let last = span - 1;
    lemma_ring_is_wrap(start, last, n);
    assert(erases(wear, ring(start, last, n)) == count(wear[wrap(start + last, n)]));
    assert(max_count(wear, start, 0, n) == 0);
    if span > 1 {
        law_highest_counter_of_a_run(wear, start, last, n);
        let k = choose|k: int|
            0 <= k < last && erases(wear, #[trigger] ring(start, k, n)) == max_count(
                wear,
                start,
                last,
                n,
            );
        assert(0 <= k < span);
    }
}

/// The total of a run of one block is its counter, and a run that moves on by one
/// block loses the counter of the block it leaves and gains that of the block it
/// enters.
pub proof fn law_total_of_a_run(wear: Seq<u16>, start: int, span: int, n: int)
    requires
        0 <= start < n,
        1 <= span <= n,
    ensures
        sum_count(wear, start, 1, n) == erases(wear, start),
        sum_count(wear, ring(start, 1, n), span, n) == sum_count(wear, start, span, n) - erases(
            wear,
            start,
        ) + erases(wear, ring(start, span, n)),
    decreases span,
{
    let next = ring(start, 1, n);
    lemma_ring_is_wrap(start, 0, n);
    lemma_ring_is_wrap(start, 1, n);
    lemma_ring_is_wrap(start, span, n);
    assert(sum_count(wear, start, 0, n) == 0);
    assert(sum_count(wear, next, 0, n) == 0);
    assert(sum_count(wear, start, 1, n) == count(wear[wrap(start + 1 - 1, n)]));
    assert(wrap(next + span - 1, n) == wrap(start + span, n)) by {
        if start + 1 < n {
        } else {
            assert(next == 0);
            assert(start + span == n + (span - 1));
        }
    }
    if span > 1 {
        law_total_of_a_run(wear, start, span - 1, n);
        lemma_ring_is_wrap(start, span - 1, n);
    }
}

/// Going on by the distance of a place from the end of the active snapshot leads to
/// that place.
pub proof fn law_distance_leads_to_the_place(active: SnapshotHeader, start: int, n: int)
    requires
        0 <= start < n,
        active.start_block < n,
        active.block_span <= n,
    ensures
        0 <= distance(active, start, n) < n,
        ring(
            ring(active.start_block as int, active.block_span as int, n),
            distance(active, start, n),
            n,
        ) == start,
{
    let end = ring(active.start_block as int, active.block_span as int, n);
    lemma_ring_is_wrap(active.start_block as int, active.block_span as int, n);
    lemma_ring_is_wrap(end, distance(active, start, n), n);
}

/// A snapshot is written where the most worn block is worn least: the run that is
/// chosen is free, and in every other free run some block was erased at least as
/// often as each block of the chosen one. If the same holds the other way round, the
/// chosen run has no more erasures in all; and if these are the same too, it comes
/// first behind the active snapshot.
pub proof fn law_least_worn_run_is_chosen(
    active: SnapshotHeader,
    span: int,
    wear: Seq<u16>,
    n: int,
    s: int,
    t: int,
)
    requires
        1 <= span <= n,
        active.start_block < n,
        active.block_span <= n,
        best_below(active, span, wear, n, s, n),
        is_free_run(active, span, wear, n, t),
    ensures
        is_free_run(active, span, wear, n, s),
        is_topped_by(wear, span, n, s, t),
        is_topped_by(wear, span, n, t, s) ==> sum_count(wear, s, span, n) <= sum_count(
            wear,
            t,
            span,
            n,
        ),
        is_topped_by(wear, span, n, t, s) && sum_count(wear, s, span, n) == sum_count(
            wear,
            t,
            span,
            n,
        ) ==> distance(active, s, n) <= distance(active, t, n),
{
    law_free_runs_are_the_candidates(active, span, wear, n, s);
    law_free_runs_are_the_candidates(active, span, wear, n, t);
    law_highest_counter_of_a_run(wear, s, span, n);
    law_highest_counter_of_a_run(wear, t, span, n);
    let k = choose|k: int|
        0 <= k < span && erases(wear, #[trigger] ring(t, k, n)) == max_count(wear, t, span, n);
    assert(s != t ==> better(active, span, wear, n, s, t));
    assert(tops(wear, span, n, s, ring(t, k, n)));
    if is_topped_by(wear, span, n, t, s) {
        let i = choose|i: int| 0 <= i < span && #[trigger] tops(wear, span, n, t, ring(s, i, n));
        assert(erases(wear, ring(t, k, n)) <= erases(wear, ring(s, i, n)));
        assert(max_count(wear, t, span, n) <= max_count(wear, s, span, n));
    }
}

/// On a device that is worn evenly the snapshots go round: the chosen run is the
/// first free one that is met going on from the end of the active snapshot.
pub proof fn law_even_wear_is_swept(
    active: SnapshotHeader,
    span: int,
    wear: Seq<u16>,
    n: int,
    s: int,
    step: int,
    earlier: int,
)
    requires
        1 <= span <= n,
        active.start_block < n,
        active.block_span <= n,
        forall|b: int| 0 <= b < n ==> #[trigger] erases(wear, b) == erases(wear, 0),
        best_below(active, span, wear, n, s, n),
        0 <= earlier < step < n,
        ring(ring(active.start_block as int, active.block_span as int, n), step, n) == s,
    ensures
        !is_free_run(
            active,
            span,
            wear,
            n,
            ring(ring(active.start_block as int, active.block_span as int, n), earlier, n),
        ),
{
    let end = ring(active.start_block as int, active.block_span as int, n);
    let t = ring(end, earlier, n);
    lemma_ring_is_wrap(active.start_block as int, active.block_span as int, n);
    lemma_ring_is_wrap(end, step, n);
    lemma_ring_is_wrap(end, earlier, n);
    if is_free_run(active, span, wear, n, t) {
        law_least_worn_run_is_chosen(active, span, wear, n, s, t);
        assert forall|j: int| 0 <= j < span implies erases(wear, #[trigger] ring(t, j, n))
            == erases(wear, 0) by {
            lemma_ring_is_wrap(t, j, n);
        }
        assert forall|j: int| 0 <= j < span implies erases(wear, #[trigger] ring(s, j, n))
            == erases(wear, 0) by {
            lemma_ring_is_wrap(s, j, n);
        }
        assert(tops(wear, span, n, t, ring(s, 0, n)));
        lemma_even_total(wear, s, span, n);
        lemma_even_total(wear, t, span, n);
        assert(distance(active, s, n) == step);
        assert(distance(active, t, n) == earlier);
    }
}

proof fn lemma_even_total(wear: Seq<u16>, start: int, span: int, n: int)
    requires
        0 <= start < n,
        0 <= span <= n,
        forall|b: int| 0 <= b < n ==> #[trigger] erases(wear, b) == erases(wear, 0),
    ensures
        sum_count(wear, start, span, n) == span * erases(wear, 0),
    decreases span,
{
    if span == 0 {
        assert(0 * erases(wear, 0) == 0) by (nonlinear_arith);
    } else {
        lemma_even_total(wear, start, span - 1, n);
        lemma_ring_is_wrap(start, span - 1, n);
        let b = wrap(start + span - 1, n);
        assert(erases(wear, b) == erases(wear, 0));
        assert((span - 1) * erases(wear, 0) + erases(wear, 0) == span * erases(wear, 0))
            by (nonlinear_arith);
    }
}

/// No block of the run is marked bad.
pub open spec fn is_good_run(wear: Seq<u16>, span: int, n: int, start: int) -> bool {
    forall|j: int| 0 <= j < span ==> wear[#[trigger] ring(start, j, n)] < 0x8000
}

/// The runs that can be used are those without a block marked bad, counted on from the
/// last block to the first.
pub proof fn law_usable_runs_hold_no_bad_block(wear: Seq<u16>, start: int, span: int, n: int)
    requires
        0 <= start < n,
        0 <= span <= n,
    ensures
        usable(wear, start, span, n) <==> is_good_run(wear, span, n, start),
{
    assert forall|j: int| 0 <= j < span implies #[trigger] ring(start, j, n) == wrap(start + j, n) by {
        lemma_ring_is_wrap(start, j, n);
    }
    if is_good_run(wear, span, n, start) {
        assert forall|k: int| 0 <= k < span implies !bad(wear[#[trigger] wrap(start + k, n)]) by {
            assert(wear[ring(start, k, n)] < 0x8000);
        }
    }
    if usable(wear, start, span, n) {
        assert forall|j: int| 0 <= j < span implies wear[#[trigger] ring(start, j, n)] < 0x8000 by {
            assert(!bad(wear[wrap(start + j, n)]));
        }
    }
}

/// First start of a run without bad blocks, for a device that holds no snapshot
/// yet.
pub fn choose_virgin_start(
    span: u32,
    wear: &[u16; MAX_WEAR_BLOCKS],
    block_count: u32,
) -> (r: Option<u32>)
    requires
        span <= block_count,
        block_count <= MAX_WEAR_BLOCKS,
    ensures
        match r {
            Some(start) => {
                &&& start < block_count
                &&& usable(wear@, start as int, span as int, block_count as int)
                &&& forall|t: int|
                    0 <= t < start ==> !#[trigger] usable(
                        wear@,
                        t,
                        span as int,
                        block_count as int,
                    )
            },
            None => forall|t: int|
                0 <= t < block_count ==> !#[trigger] usable(
                    wear@,
                    t,
                    span as int,
                    block_count as int,
                ),
        },
        match r {
            Some(start) => {
                &&& is_good_run(wear@, span as int, block_count as int, start as int)
                &&& forall|t: int|
                    0 <= t < start ==> !#[trigger] is_good_run(
                        wear@,
                        span as int,
                        block_count as int,
                        t,
                    )
            },
            None => forall|t: int|
                0 <= t < block_count ==> !#[trigger] is_good_run(
                    wear@,
                    span as int,
                    block_count as int,
                    t,
                ),
        },
{
    let ghost bc = block_count as int;
    proof {
        assert forall|t: int| 0 <= t < bc implies #[trigger] is_good_run(
            wear@,
            span as int,
            bc,
            t,
        ) == usable(wear@, t, span as int, bc) by {
            law_usable_runs_hold_no_bad_block(wear@, t, span as int, bc);
        }
    }
    let mut start: u32 = 0;
    while start < block_count
        invariant
            start <= block_count <= 64,
            span <= block_count,
            bc == block_count,
            forall|t: int| 0 <= t < start ==> !#[trigger] usable(wear@, t, span as int, bc),
            forall|t: int|
                0 <= t < bc ==> #[trigger] is_good_run(wear@, span as int, bc, t) == usable(
                    wear@,
                    t,
                    span as int,
                    bc,
                ),
        decreases block_count - start,
    {
        let mut is_bad: bool = false;
        let mut index: u32 = 0;
        while index < span && !is_bad
            invariant
                index <= span <= block_count <= 64,
                start < block_count,
                bc == block_count,
                !is_bad ==> usable(wear@, start as int, index as int, bc),
                is_bad ==> !usable(wear@, start as int, span as int, bc),
            decreases span - index, if is_bad {
                0int
            } else {
                1
            },
        {
            let block: u32 = wrapped(start + index, block_count);
            assert(wrap(start + index as int, bc) == block);
            if wear[block as usize] >= WEAR_BAD_BIT {
                is_bad = true;
            } else {
                index += 1;
            }
        }
        if !is_bad {
            return Some(start);
        }
        start += 1;
    }
    None
}

/// The wear entry after one more erase: the counter saturates, the mark stays.
pub open spec fn bumped(entry: u16) -> u16 {
    entry_of(
        bad(entry),
        if count(entry) < WEAR_COUNT_MASK {
            count(entry) + 1
        } else {
            count(entry)
        },
    )
}

/// Return `wear` with every block of the destination segment incremented,
/// saturating at the 15-bit counter width (bad flags preserved).
pub fn incremented_wear(
    wear: &[u16; MAX_WEAR_BLOCKS],
    start_block: u32,
    span: u32,
    block_count: u32,
) -> (next: [u16; MAX_WEAR_BLOCKS])
    requires
        start_block < block_count,
        span <= block_count,
        block_count <= MAX_WEAR_BLOCKS,
    ensures
        forall|b: int|
            0 <= b < 64 ==> #[trigger] next@[b] == (if occupies(
                start_block as int,
                span as int,
                block_count as int,
                b,
            ) {
                bumped(wear@[b])
            } else {
                wear@[b]
            }),
{
    let ghost bc = block_count as int;
    let ghost at = start_block as int;
    let mut next = *wear;
    let mut index: u32 = 0;
    while index < span
        invariant
            index <= span <= block_count <= 64,
            start_block < block_count,
            bc == block_count,
            at == start_block,
            forall|b: int|
                0 <= b < 64 ==> #[trigger] next@[b] == (if occupies(at, index as int, bc, b) {
                    bumped(wear@[b])
                } else {
                    wear@[b]
                }),
        decreases span - index,
    {
        let block: usize = wrapped(start_block + index, block_count) as usize;
        proof {
            assert(wrap(at + index as int, bc) == block);
            if occupies(at, index as int, bc, block as int) {
                let k = choose|k: int|
                    0 <= k < index && #[trigger] wrap(at + k, bc) == block as int;
                assert(false);
            }
            assert forall|b: int| 0 <= b < 64 implies occupies(at, index + 1, bc, b) == (occupies(
                at,
                index as int,
                bc,
                b,
            ) || b == block) by {
                if occupies(at, index + 1, bc, b) {
                    let k = choose|k: int| 0 <= k < index + 1 && #[trigger] wrap(at + k, bc) == b;
                    if k < index {
                        assert(occupies(at, index as int, bc, b));
                    }
                }
                if occupies(at, index as int, bc, b) {
                    let k = choose|k: int| 0 <= k < index && #[trigger] wrap(at + k, bc) == b;
                    assert(occupies(at, index + 1, bc, b));
                }
                if b == block {
                    assert(occupies(at, index + 1, bc, b));
                }
            }
        }
        let entry: u16 = next[block];
        let counter: u16 = entry % WEAR_BAD_BIT;
        if counter < WEAR_COUNT_MASK {
            next[block] = entry + 1;
        }
        index += 1;
    }
    next
}

/// Some counter of the device has reached the halving threshold.
pub open spec fn saturated(wear: Seq<u16>, block_count: int) -> bool {
    exists|b: int| 0 <= b < block_count && count(#[trigger] wear[b]) >= WEAR_RESCALE_AT
}

/// The wear entry with its counter halved.
pub open spec fn halved(entry: u16) -> u16 {
    entry_of(bad(entry), count(entry) / 2)
}

/// Halve all counters when one of them nears saturation (bad flags preserved).
pub fn rescaled_wear(wear: &[u16; MAX_WEAR_BLOCKS], block_count: u32) -> (next: [u16;
    MAX_WEAR_BLOCKS])
    requires
        block_count <= MAX_WEAR_BLOCKS,
    ensures
        forall|b: int|
            0 <= b < 64 ==> #[trigger] next@[b] == (if saturated(wear@, block_count as int) && b
                < block_count {
                halved(wear@[b])
            } else {
                wear@[b]
            }),
{
    let mut next = *wear;
    let mut any: bool = false;
    let mut i: usize = 0;
    while i < block_count as usize
        invariant
            i <= block_count <= 64,
            any == saturated(wear@, i as int),
        decreases block_count - i,
    {
        if wear[i] % WEAR_BAD_BIT >= WEAR_RESCALE_AT {
            any = true;
            assert(count(wear@[i as int]) >= WEAR_RESCALE_AT);
        }
        i += 1;
    }
    if any {
        let mut j: usize = 0;
        while j < block_count as usize
            invariant
                j <= block_count <= 64,
                forall|b: int|
                    0 <= b < 64 ==> #[trigger] next@[b] == (if b < j {
                        halved(wear@[b])
                    } else {
                        wear@[b]
                    }),
            decreases block_count - j,
        {
            let entry: u16 = next[j];
            let half: u16 = (entry % WEAR_BAD_BIT) / 2;
            if entry >= WEAR_BAD_BIT {
                next[j] = WEAR_BAD_BIT + half;
            } else {
                next[j] = half;
            }
            j += 1;
        }
    }
    next
}

/// Halving keeps the order of the counters and every bad mark, and takes every
/// counter below the value at which the counters are halved.
pub proof fn law_halving_keeps_order(a: u16, b: u16)
    ensures
        count(a) <= count(b) ==> count(halved(a)) <= count(halved(b)),
        bad(halved(a)) == bad(a),
        2 * (halved(a) as int % 0x8000) <= a as int % 0x8000 <= 2 * (halved(a) as int % 0x8000) + 1,
        halved(a) >= 0x8000 <==> a >= 0x8000,
        halved(a) as int % 0x8000 < 30_000,
{
}

/// An erase counts one more, up to the highest value of a counter, and never changes
/// a mark.
pub proof fn law_bump_is_monotone(a: u16)
    ensures
        count(a) <= count(bumped(a)) <= count(a) + 1,
        bad(bumped(a)) == bad(a),
        a as int % 0x8000 != 0x7fff ==> bumped(a) == a + 1,
        a as int % 0x8000 == 0x7fff ==> bumped(a) == a,
{
}

/// Mark a block as bad without touching its counter.
pub fn mark_bad(wear: &mut [u16; MAX_WEAR_BLOCKS], block: u32)
    requires
        block < MAX_WEAR_BLOCKS,
    ensures
        final(wear)@ == old(wear)@.update(
            block as int,
            entry_of(true, count(old(wear)@[block as int])),
        ),
{
    let entry: u16 = wear[block as usize];
    if entry < WEAR_BAD_BIT {
        wear[block as usize] = WEAR_BAD_BIT + entry;
    }
    assert(wear@ =~= old(wear)@.update(
        block as int,
        entry_of(true, count(old(wear)@[block as int])),
    ));
}

/// `low` and `high` are the extreme counters of the blocks that are not bad, or
/// both 0 if all blocks are.
pub open spec fn are_bounds(wear: Seq<u16>, block_count: int, low: int, high: int) -> bool {
    if forall|b: int| 0 <= b < block_count ==> bad(#[trigger] wear[b]) {
        low == 0 && high == 0
    } else {
        &&& forall|b: int|
            0 <= b < block_count && !bad(#[trigger] wear[b]) ==> low <= count(wear[b]) <= high
        &&& exists|b: int| 0 <= b < block_count && !bad(#[trigger] wear[b]) && count(wear[b]) == low
        &&& exists|b: int|
            0 <= b < block_count && !bad(#[trigger] wear[b]) && count(wear[b]) == high
    }
}

/// Smallest and largest erase count over all non-bad blocks.
pub fn wear_bounds(wear: &[u16; MAX_WEAR_BLOCKS], block_count: u32) -> (r: (u32, u32))
    requires
        block_count <= MAX_WEAR_BLOCKS,
    ensures
        are_bounds(wear@, block_count as int, r.0 as int, r.1 as int),
{
    let mut minimum: u32 = u32::MAX;
    let mut maximum: u32 = 0;
    let mut i: usize = 0;
    while i < block_count as usize
        invariant
            i <= block_count <= 64,
            if minimum == u32::MAX {
                maximum == 0 && forall|b: int| 0 <= b < i ==> bad(#[trigger] wear@[b])
            } else {
                &&& forall|b: int|
                    0 <= b < i && !bad(#[trigger] wear@[b]) ==> minimum <= count(wear@[b])
                        <= maximum
                &&& exists|b: int|
                    0 <= b < i && !bad(#[trigger] wear@[b]) && count(wear@[b]) == minimum
                &&& exists|b: int|
                    0 <= b < i && !bad(#[trigger] wear@[b]) && count(wear@[b]) == maximum
            },
        decreases block_count - i,
    {
        let entry: u16 = wear[i];
        if entry < WEAR_BAD_BIT {
            let counter: u32 = (entry % WEAR_BAD_BIT) as u32;
            assert(!bad(wear@[i as int]) && count(wear@[i as int]) == counter);
            if counter < minimum {
                minimum = counter;
            }
            if counter > maximum {
                maximum = counter;
            }
        }
        i += 1;
    }
    if minimum == u32::MAX {
        return (0, 0);
    }
    (minimum, maximum)
}

} // verus!
