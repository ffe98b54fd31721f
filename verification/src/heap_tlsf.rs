//! Two-level segregated free lists.
//!
//! The allocator manages an arena of 32-bit words that it is handed with every
//! call. Block headers, free-list links and owner prefixes live in the arena
//! itself:
//!
//! ```text
//! [size and flags | size of the block before] [free: next, prev] [padding | owner | payload]
//! ```
//!
//! - Bit 0 of the first word says that the block is in use, bit 1 that the block
//!   before it is; the rest is the length of the block, a multiple of eight.
//! - The owner word before a payload holds the address of the block, so that a
//!   payload of any alignment leads back to its block.
//!
//! Bitmaps lead to the smallest size class of which every block is large enough,
//! so allocating and freeing take a bounded number of steps.

use vstd::arithmetic::power2::{is_pow2, lemma2_to64, pow2};
use vstd::prelude::*;

use crate::heap_layout::{Layout, align_up, allocation_plan, checked_align_up, checked_up, class_le, class_min, first_fitting, in_class, larger, law_align_up_is_least, law_class_min_is_monotone, law_insert_index_is_monotone, lemma_divides_trans, lemma_pow2_divides, placement, tlsf_insert_index, tlsf_search_index};

verus! {

/// Bytes of a block header.
pub const HEADER: usize = 8;

/// Bytes of the owner prefix.
pub const PREFIX: usize = 4;

/// Alignment of blocks; their lengths are multiples of it.
pub const BLOCK_ALIGN: usize = 8;

/// The smallest block: a header and the two links of a free block.
pub const MIN_BLOCK: u32 = 16;

/// Subclasses of each power of two.
pub const SL_COUNT: usize = 4;

/// Binary logarithm of the smallest block.
pub const FL_MIN_LOG2: usize = 4;

/// Powers of two that are covered: blocks are shorter than `2^18`.
pub const FL_COUNT: usize = 14;

/// Number of free lists.
pub const LIST_COUNT: usize = 56;

/// No arena reaches this size.
pub const ARENA_LIMIT: u32 = 0x4_0000;

// ---------------------------------------------------------------------------
// Bits
// ---------------------------------------------------------------------------

/// Bit `i` of `x`.
pub open spec fn bit(x: u32, i: int) -> bool {
    (x >> (i as u32)) & 1 == 1
}

fn test_bit(x: u32, i: u32) -> (r: bool)
    requires
        i < 32,
    ensures
        r == bit(x, i as int),
{
    (x >> i) & 1 == 1
}

fn set_bit(x: u32, i: u32) -> (r: u32)
    requires
        i < 32,
    ensures
        forall|j: int| 0 <= j < 32 ==> #[trigger] bit(r, j) == (j == i || bit(x, j)),
        r != 0,
{
    let r: u32 = x | (1u32 << i);
    assert(r != 0) by (bit_vector)
        requires
            r == x | (1u32 << i),
            i < 32,
    ;
    assert forall|j: int| 0 <= j < 32 implies #[trigger] bit(r, j) == (j == i || bit(x, j)) by {
        let k = j as u32;
        assert(((x | (1u32 << i)) >> k) & 1 == 1 <==> k == i || (x >> k) & 1 == 1) by (bit_vector)
            requires
                i < 32,
                k < 32,
        ;
    }
    r
}

fn clear_bit(x: u32, i: u32) -> (r: u32)
    requires
        i < 32,
    ensures
        forall|j: int| 0 <= j < 32 ==> #[trigger] bit(r, j) == (j != i && bit(x, j)),
{
    let r: u32 = x & !(1u32 << i);
    assert forall|j: int| 0 <= j < 32 implies #[trigger] bit(r, j) == (j != i && bit(x, j)) by {
        let k = j as u32;
        assert(((x & !(1u32 << i)) >> k) & 1 == 1 <==> k != i && (x >> k) & 1 == 1) by (bit_vector)
            requires
                i < 32,
                k < 32,
        ;
    }
    r
}

proof fn lemma_zero_bits(x: u32)
    ensures
        x == 0 ==> forall|j: int| 0 <= j < 32 ==> !#[trigger] bit(x, j),
        (forall|j: int| 0 <= j < 32 ==> !#[trigger] bit(x, j)) ==> x == 0,
{
    if x == 0 {
        assert forall|j: int| 0 <= j < 32 implies !#[trigger] bit(x, j) by {
            let k = j as u32;
            assert((0u32 >> k) & 1 == 0) by (bit_vector);
        }
    } else {
        let k = x.trailing_zeros();
        vstd::std_specs::bits::axiom_u32_trailing_zeros(x);
        assert(bit(x, k as int));
    }
}

// ---------------------------------------------------------------------------
// The arena
// ---------------------------------------------------------------------------

/// One block of the arena.
pub struct Piece {
    pub size: int,
    pub used: bool,
    /// Whether the block before is in use; true of the first block.
    pub prev_used: bool,
    /// The size of the block before; zero for the first block.
    pub prev_size: int,
    /// Of a used block: the address that was handed out.
    pub payload: int,
}

/// The word at an address.
#[verifier::opaque]
pub open spec fn word(mem: Seq<u32>, start: int, addr: int) -> int {
    mem[(addr - start) / 4] as int
}

/// The address of a word of the arena.
pub open spec fn spot(start: int, end: int, x: int) -> bool {
    start <= x && x % 4 == 0 && x + 4 <= end
}

/// The first word of a block.
pub open spec fn flags(p: Piece) -> int {
    p.size + (if p.used {
        1int
    } else {
        0
    }) + (if p.prev_used {
        2int
    } else {
        0
    })
}

/// A block that fits into the arena and is described by its header.
#[verifier::opaque]
pub open spec fn piece_ok(
    m: Map<int, Piece>,
    mem: Seq<u32>,
    start: int,
    end: int,
    a: int,
) -> bool {
    let p = m[a];
    &&& start <= a
    &&& a % 8 == 0
    &&& p.size % 8 == 0
    &&& p.size >= 16
    &&& a + p.size <= end
    &&& word(mem, start, a) == flags(p)
    &&& word(mem, start, a + 4) == p.prev_size
    &&& a == start ==> p.prev_size == 0 && p.prev_used
    &&& a != start ==> {
        let q = a - p.prev_size;
        p.prev_size >= 16 && m.dom().contains(q) && m[q].size == p.prev_size && m[q].used
            == p.prev_used
    }
    &&& a + p.size < end ==> {
        let n = a + p.size;
        m.dom().contains(n) && m[n].prev_size == p.size && m[n].prev_used == p.used
    }
    &&& p.used ==> {
        &&& a + 16 <= p.payload < a + p.size
        &&& p.payload % 8 == 0
        &&& word(mem, start, p.payload - 4) == a
    }
    &&& !p.used ==> p.prev_used && p.payload == 0
}

/// The bounds of an arena.
pub open spec fn bounds_ok(mem: Seq<u32>, start: int, end: int) -> bool {
    &&& 0 < start <= end <= u32::MAX
    &&& start % 8 == 0
    &&& end % 8 == 0
    &&& end - start == 4 * mem.len()
    &&& end - start < ARENA_LIMIT
}

/// Blocks do not overlap.
pub open spec fn apart(m: Map<int, Piece>) -> bool {
    forall|a: int, b: int|
        #![trigger m.dom().contains(a), m.dom().contains(b)]
        m.dom().contains(a) && m.dom().contains(b) && a < b ==> a + m[a].size <= b
}

/// The blocks divide up the arena, and no two free ones are neighbours.
pub open spec fn phys_ok(m: Map<int, Piece>, mem: Seq<u32>, start: int, end: int) -> bool {
    &&& bounds_ok(mem, start, end)
    &&& end - start >= 16 ==> m.dom().contains(start)
    &&& forall|a: int| #[trigger] m.dom().contains(a) ==> piece_ok(m, mem, start, end, a)
    &&& apart(m)
}

/// The bytes of the free blocks from `a` on.
pub open spec fn free_from(m: Map<int, Piece>, a: int, end: int) -> int
    decreases end - a,
{
    if a >= end || !m.dom().contains(a) || m[a].size <= 0 || a + m[a].size > end {
        0
    } else {
        (if m[a].used {
            0
        } else {
            m[a].size
        }) + free_from(m, a + m[a].size, end)
    }
}

/// The free blocks, with their sizes.
pub open spec fn free_of(m: Map<int, Piece>) -> Map<int, int> {
    Map::new(|a: int| m.dom().contains(a) && !m[a].used, |a: int| m[a].size)
}

/// The class of a block, as the index of its list.
pub open spec fn class_of(size: int) -> int {
    choose|c: int| 0 <= c < 56 && #[trigger] in_class(size, c / 4, c % 4, 4)
}

pub proof fn lemma_class_of(size: int, c: int)
    requires
        0 <= c < 56,
        in_class(size, c / 4, c % 4, 4),
    ensures
        class_of(size) == c,
{
    let d = class_of(size);
    assert(0 <= d < 56 && in_class(size, d / 4, d % 4, 4));
    law_insert_index_is_monotone(size, (c / 4, c % 4), size, (d / 4, d % 4), 4);
    law_insert_index_is_monotone(size, (d / 4, d % 4), size, (c / 4, c % 4), 4);
}

/// The list for a block of this size.
fn list_for(size: u32) -> (r: (usize, usize))
    requires
        16 <= size < ARENA_LIMIT,
    ensures
        r.0 < 14,
        r.1 < 4,
        class_of(size as int) == r.0 * 4 + r.1,
        in_class(size as int, r.0 as int, r.1 as int, 4),
{
    proof {
        lemma2_to64();
    }
    let (fl, sl) = tlsf_insert_index(size as usize, FL_MIN_LOG2);
    proof {
        if fl >= 14 {
            law_class_min_is_monotone((14, 0), (fl as int, sl as int), 4);
            assert(class_min(14, 0, 4) == pow2(16) * 4);
        }
        let c = fl * 4 + sl;
        assert(c / 4 == fl && c % 4 == sl);
        lemma_class_of(size as int, c);
    }
    (fl, sl)
}

/// The allocator.
pub struct Tlsf {
    /// The first block of each free list, zero where it is empty.
    lists: [u32; LIST_COUNT],
    /// Which powers of two have free blocks.
    fl_bitmap: u32,
    /// Which subclasses of each power of two have free blocks.
    sl_bitmaps: [u32; FL_COUNT],
    /// Bytes of all free blocks.
    free_bytes: u32,
    arena_start: u32,
    arena_end: u32,
    initialized: bool,
    /// The blocks of the arena.
    blocks: Ghost<Map<int, Piece>>,
    /// The addresses in each free list.
    chains: Ghost<Seq<Seq<int>>>,
}

/// The links of the block at position `i` of a chain.
#[verifier::opaque]
pub open spec fn linked(mem: Seq<u32>, start: int, chain: Seq<int>, i: int) -> bool {
    &&& word(mem, start, chain[i] + 8) == (if i + 1 < chain.len() {
        chain[i + 1]
    } else {
        0
    })
    &&& word(mem, start, chain[i] + 12) == (if i > 0 {
        chain[i - 1]
    } else {
        0
    })
}

/// Free blocks are far enough from each other to have their own links.
pub open spec fn spread(l: Map<int, int>) -> bool {
    forall|a: int, b: int|
        #![trigger l.dom().contains(a), l.dom().contains(b)]
        l.dom().contains(a) && l.dom().contains(b) && a < b ==> a + 16 <= b
}

/// A free block lies in the arena and its header tells its size.
pub open spec fn free_ok(
    mem: Seq<u32>,
    start: int,
    end: int,
    a: int,
    size: int,
) -> bool {
    &&& start <= a
    &&& a % 8 == 0
    &&& a + 16 <= end
    &&& 16 <= size < ARENA_LIMIT
    &&& size % 8 == 0
    &&& size <= word(mem, start, a) < size + 4
}

/// Nothing but links of blocks in `l` has changed.
pub open spec fn links_only(
    before: Seq<u32>,
    after: Seq<u32>,
    l: Map<int, int>,
    start: int,
    end: int,
) -> bool {
    &&& after.len() == before.len()
    &&& forall|x: int|
        spot(start, end, x) && !l.dom().contains(x - 8) && !l.dom().contains(x - 12)
            ==> #[trigger] word(after, start, x) == word(before, start, x)
}

/// The chains hold exactly the blocks of `l`, each in the list of its class.
#[verifier::opaque]
pub open spec fn chains_ok(
    chains: Seq<Seq<int>>,
    l: Map<int, int>,
    mem: Seq<u32>,
    start: int,
) -> bool {
    &&& chains.len() == 56
    &&& forall|c: int, i: int|
        #![trigger chains[c][i]]
        0 <= c < 56 && 0 <= i < chains[c].len() ==> l.dom().contains(chains[c][i]) && class_of(
            l[chains[c][i]],
        ) == c && linked(mem, start, chains[c], i)
    &&& forall|c: int, i: int, j: int|
        #![trigger chains[c][i], chains[c][j]]
        0 <= c < 56 && 0 <= i < j < chains[c].len() ==> chains[c][i] != chains[c][j]
    &&& forall|a: int|
        #[trigger] l.dom().contains(a) ==> 0 <= class_of(l[a]) < 56 && chains[class_of(
            l[a],
        )].contains(a)
}

impl Tlsf {
    pub closed spec fn map(self) -> Map<int, Piece> {
        self.blocks@
    }

    pub closed spec fn start(self) -> int {
        self.arena_start as int
    }

    pub closed spec fn end(self) -> int {
        self.arena_end as int
    }

    pub closed spec fn ready(self) -> bool {
        self.initialized
    }

    /// The free lists, in the order in which blocks are taken from them.
    pub closed spec fn free_lists(self) -> Seq<Seq<int>> {
        self.chains@
    }

    /// The lists and bitmaps show the chains.
    #[verifier::opaque]
    spec fn heads_ok(self) -> bool {
        &&& self.chains@.len() == 56
        &&& forall|c: int|
            0 <= c < 56 ==> #[trigger] self.lists@[c] == (if self.chains@[c].len() > 0 {
                self.chains@[c][0]
            } else {
                0
            })
        &&& forall|f: int, s: int|
            #![trigger bit(self.sl_bitmaps@[f], s)]
            0 <= f < 14 && 0 <= s < 4 ==> bit(self.sl_bitmaps@[f], s) == (self.chains@[f * 4
                + s].len() > 0)
        &&& forall|f: int, s: int|
            #![trigger bit(self.sl_bitmaps@[f], s)]
            0 <= f < 14 && 4 <= s < 32 ==> !bit(self.sl_bitmaps@[f], s)
        &&& forall|f: int|
            0 <= f < 14 ==> #[trigger] bit(self.fl_bitmap, f) == (self.sl_bitmaps@[f] != 0)
    }

    /// The free lists hold exactly the blocks of `l`.
    spec fn lists_ok(self, l: Map<int, int>, mem: Seq<u32>) -> bool {
        let start = self.arena_start as int;
        let end = self.arena_end as int;
        &&& bounds_ok(mem, start, end)
        &&& self.heads_ok()
        &&& chains_ok(self.chains@, l, mem, start)
        &&& spread(l)
        &&& forall|a: int| #[trigger] l.dom().contains(a) ==> free_ok(mem, start, end, a, l[a])
    }

    /// All but the lists is as it was.
    spec fn same_arena(self, before: Self) -> bool {
        &&& self.free_bytes == before.free_bytes
        &&& self.arena_start == before.arena_start
        &&& self.arena_end == before.arena_end
        &&& self.initialized == before.initialized
        &&& self.blocks == before.blocks
    }
}

/// The word at an address.
fn read_word(mem: &[u32], start: u32, addr: u32) -> (r: u32)
    requires
        start % 4 == 0,
        spot(start as int, start + 4 * mem@.len(), addr as int),
    ensures
        r == word(mem@, start as int, addr as int),
{
    reveal(word);
    mem[((addr - start) / 4) as usize]
}

fn write_word(mem: &mut [u32], start: u32, addr: u32, value: u32)
    requires
        start % 4 == 0,
        spot(start as int, start + 4 * old(mem)@.len(), addr as int),
    ensures
        final(mem)@.len() == old(mem)@.len(),
        forall|x: int|
            spot(start as int, start + 4 * old(mem)@.len(), x) ==> #[trigger] word(
                final(mem)@,
                start as int,
                x,
            ) == (if x == addr {
                value as int
            } else {
                word(old(mem)@, start as int, x)
            }),
{
    reveal(word);
    mem[((addr - start) / 4) as usize] = value;
}

/// The links of a block are unaffected by words that are not its links.
proof fn lemma_linked_same(
    before: Seq<u32>,
    after: Seq<u32>,
    start: int,
    chain: Seq<int>,
    i: int,
)
    requires
        linked(before, start, chain, i),
        word(after, start, chain[i] + 8) == word(before, start, chain[i] + 8),
        word(after, start, chain[i] + 12) == word(before, start, chain[i] + 12),
    ensures
        linked(after, start, chain, i),
{
    reveal(linked);
}

/// The links of one block, word by word.
proof fn lemma_links(mem: Seq<u32>, start: int, chain: Seq<int>, i: int)
    ensures
        linked(mem, start, chain, i) <==> word(mem, start, chain[i] + 8) == (if i + 1
            < chain.len() {
            chain[i + 1]
        } else {
            0
        }) && word(mem, start, chain[i] + 12) == (if i > 0 {
            chain[i - 1]
        } else {
            0
        }),
{
    reveal(linked);
}

/// The words after a block was put before `head`.
spec fn fronted(
    before: Seq<u32>,
    after: Seq<u32>,
    start: int,
    end: int,
    a: int,
    head: int,
) -> bool {
    &&& after.len() == before.len()
    &&& forall|x: int|
        spot(start, end, x) ==> #[trigger] word(after, start, x) == (if x == a + 8 {
            head
        } else if head != 0 && x == head + 12 {
            a
        } else if x == a + 12 {
            0
        } else {
            word(before, start, x)
        })
}

/// A block goes to the front of its chain.
#[verifier::spinoff_prover]
#[verifier::rlimit(60)]
proof fn lemma_insert_chains(
    chains: Seq<Seq<int>>,
    l: Map<int, int>,
    before: Seq<u32>,
    after: Seq<u32>,
    start: int,
    end: int,
    a: int,
    size: int,
)
    requires
        bounds_ok(before, start, end),
        chains_ok(chains, l, before, start),
        spread(l.insert(a, size)),
        !l.dom().contains(a),
        forall|b: int|
            #[trigger] l.insert(a, size).dom().contains(b) ==> free_ok(
                before,
                start,
                end,
                b,
                l.insert(a, size)[b],
            ),
        0 <= class_of(size) < 56,
        fronted(
            before,
            after,
            start,
            end,
            a,
            if chains[class_of(size)].len() > 0 {
                chains[class_of(size)][0]
            } else {
                0
            },
        ),
    ensures
        chains_ok(
            chains.update(class_of(size), seq![a] + chains[class_of(size)]),
            l.insert(a, size),
            after,
            start,
        ),
        links_only(before, after, l.insert(a, size), start, end),
        forall|b: int|
            #[trigger] l.insert(a, size).dom().contains(b) ==> free_ok(
                after,
                start,
                end,
                b,
                l.insert(a, size)[b],
            ),
{
    reveal(chains_ok);
    let k = class_of(size);
    let chain = chains[k];
    let l2 = l.insert(a, size);
    let new = seq![a] + chain;
    let chains2 = chains.update(k, new);
    let head = if chain.len() > 0 {
        chain[0]
    } else {
        0
    };
    assert(l2.dom().contains(a));
    assert(free_ok(before, start, end, a, size));
    if chain.len() > 0 {
        assert(l.dom().contains(chains[k][0]));
        assert(l2.dom().contains(chain[0]));
        assert(free_ok(before, start, end, chain[0], l2[chain[0]]));
    }
    assert forall|c: int, i: int|
        #![trigger chains2[c][i]]
        0 <= c < 56 && 0 <= i < chains2[c].len() implies l2.dom().contains(chains2[c][i])
        && class_of(l2[chains2[c][i]]) == c && linked(after, start, chains2[c], i) by {
        if c == k {
            if i == 0 {
                assert(chains2[c][0] == a);
                assert(spot(start, end, a + 8) && spot(start, end, a + 12));
                lemma_links(after, start, new, 0);
                assert(chain.len() > 0 ==> new[1] == chain[0]);
            } else {
                let b = chain[i - 1];
                assert(chains2[c][i] == chains[k][i - 1]);
                assert(l.dom().contains(b) && linked(before, start, chain, i - 1));
                assert(l2.dom().contains(b));
                assert(free_ok(before, start, end, b, l2[b]));
                if i > 1 {
                    assert(chains[k][0] != chains[k][i - 1]);
                }
                assert(spot(start, end, b + 8) && spot(start, end, b + 12));
                lemma_links(before, start, chain, i - 1);
                lemma_links(after, start, new, i);
                assert(i + 1 < new.len() ==> new[i + 1] == chain[i]);
                assert(i > 1 ==> new[i - 1] == chain[i - 2]);
            }
        } else {
            let b = chains[c][i];
            assert(l.dom().contains(b) && linked(before, start, chains[c], i));
            assert(l2.dom().contains(b));
            assert(free_ok(before, start, end, b, l2[b]));
            assert(spot(start, end, b + 8) && spot(start, end, b + 12));
            lemma_linked_same(before, after, start, chains[c], i);
        }
    }
    assert forall|c: int, i: int, j: int|
        #![trigger chains2[c][i], chains2[c][j]]
        0 <= c < 56 && 0 <= i < j < chains2[c].len() implies chains2[c][i] != chains2[c][j] by {
        if c == k {
            if i == 0 {
                assert(l.dom().contains(chains[k][j - 1]));
            } else {
                assert(chains[k][i - 1] != chains[k][j - 1]);
            }
        } else {
            assert(chains[c][i] != chains[c][j]);
        }
    }
    assert forall|b: int| #[trigger] l2.dom().contains(b) implies 0 <= class_of(l2[b]) < 56
        && chains2[class_of(l2[b])].contains(b) by {
        if b == a {
            assert(new[0] == a);
        } else {
            let c = class_of(l[b]);
            assert(l.dom().contains(b));
            assert(chains[c].contains(b));
            let i = choose|i: int| 0 <= i < chains[c].len() && chains[c][i] == b;
            if c == k {
                assert(new[i + 1] == b);
            }
        }
    }
    assert forall|b: int| #[trigger] l2.dom().contains(b) implies free_ok(
        after,
        start,
        end,
        b,
        l2[b],
    ) by {
        assert(free_ok(before, start, end, b, l2[b]));
        assert(spot(start, end, b));
        assert(word(after, start, b) == word(before, start, b));
    }
}

/// What the chains say of one block.
proof fn lemma_chain_block(
    chains: Seq<Seq<int>>,
    l: Map<int, int>,
    mem: Seq<u32>,
    start: int,
    c: int,
    i: int,
)
    requires
        chains_ok(chains, l, mem, start),
        0 <= c < 56,
        0 <= i < chains[c].len(),
    ensures
        l.dom().contains(chains[c][i]),
        class_of(l[chains[c][i]]) == c,
        linked(mem, start, chains[c], i),
{
    reveal(chains_ok);
}

impl Tlsf {
    /// The first block of list `index`.
    fn head(&self, index: usize) -> (r: u32)
        requires
            self.heads_ok(),
            index < 56,
        ensures
            r == (if self.chains@[index as int].len() > 0 {
                self.chains@[index as int][0]
            } else {
                0
            }),
    {
        reveal(Tlsf::heads_ok);
        self.lists[index]
    }

    /// List `(fl, sl)` now starts with `block`, and has the blocks of `chain`.
    fn set_head(&mut self, fl: usize, sl: usize, block: u32, Ghost(chain): Ghost<Seq<int>>)
        requires
            old(self).heads_ok(),
            fl < 14,
            sl < 4,
            block == (if chain.len() > 0 {
                chain[0]
            } else {
                0
            }),
            chain.len() > 0 ==> chain[0] != 0,
        ensures
            final(self).heads_ok(),
            final(self).same_arena(*old(self)),
            final(self).chains@ == old(self).chains@.update(fl * 4 + sl, chain),
    {
        reveal(Tlsf::heads_ok);
        let index: usize = fl * SL_COUNT + sl;
        let ghost old_chains = self.chains@;
        let ghost sl0 = self.sl_bitmaps@;
        let ghost fl0 = self.fl_bitmap;
        self.lists[index] = block;
        self.chains = Ghost(old_chains.update(index as int, chain));
        if block != 0 {
            let sub: u32 = set_bit(self.sl_bitmaps[fl], sl as u32);
            self.sl_bitmaps[fl] = sub;
            self.fl_bitmap = set_bit(self.fl_bitmap, fl as u32);
        } else {
            let sub: u32 = clear_bit(self.sl_bitmaps[fl], sl as u32);
            self.sl_bitmaps[fl] = sub;
            if sub == 0 {
                self.fl_bitmap = clear_bit(self.fl_bitmap, fl as u32);
            }
        }
        proof {
            assert forall|f: int, t: int|
                #![trigger bit(self.sl_bitmaps@[f], t)]
                0 <= f < 14 && 0 <= t < 4 implies bit(self.sl_bitmaps@[f], t) == (self.chains@[f
                * 4 + t].len() > 0) by {
                assert(bit(sl0[f], t) == (old_chains[f * 4 + t].len() > 0));
            }
            assert forall|f: int, t: int|
                #![trigger bit(self.sl_bitmaps@[f], t)]
                0 <= f < 14 && 4 <= t < 32 implies !bit(self.sl_bitmaps@[f], t) by {
                assert(!bit(sl0[f], t));
            }
            assert forall|f: int| 0 <= f < 14 implies #[trigger] bit(self.fl_bitmap, f) == (
            self.sl_bitmaps@[f] != 0) by {
                assert(bit(fl0, f) == (sl0[f] != 0));
                lemma_zero_bits(sl0[f]);
                lemma_zero_bits(self.sl_bitmaps@[f]);
            }
        }
    }

    /// Put a free block at the front of the list of its class.
    #[verifier::spinoff_prover]
    #[verifier::rlimit(40)]
    fn list_insert(&mut self, mem: &mut [u32], block: u32, Ghost(l): Ghost<Map<int, int>>, Ghost(
        size,
    ): Ghost<int>)
        requires
            old(self).lists_ok(l, old(mem)@),
            !l.dom().contains(block as int),
            spread(l.insert(block as int, size)),
            free_ok(
                old(mem)@,
                old(self).arena_start as int,
                old(self).arena_end as int,
                block as int,
                size,
            ),
        ensures
            final(self).lists_ok(l.insert(block as int, size), final(mem)@),
            final(self).same_arena(*old(self)),
            links_only(
                old(mem)@,
                final(mem)@,
                l.insert(block as int, size),
                old(self).arena_start as int,
                old(self).arena_end as int,
            ),
    {
        let ghost before = mem@;
        let ghost start = self.arena_start as int;
        let ghost end = self.arena_end as int;
        let ghost chains = self.chains@;
        let first: u32 = read_word(mem, self.arena_start, block);
        let length: u32 = first - first % 4;
        assert(length == size);
        let (fl, sl) = list_for(length);
        let index: usize = fl * SL_COUNT + sl;
        let ghost k = index as int;
        let head: u32 = self.head(index);
        proof {
            if chains[k].len() > 0 {
                lemma_chain_block(chains, l, before, start, k, 0);
            }
        }
        write_word(mem, self.arena_start, block + 8, head);
        write_word(mem, self.arena_start, block + 12, 0);
        if head != 0 {
            write_word(mem, self.arena_start, head + 12, block);
        }
        proof {
            lemma_insert_chains(chains, l, before, mem@, start, end, block as int, size);
        }
        let ghost chain = seq![block as int] + chains[k];
        self.set_head(fl, sl, block, Ghost(chain));
    }
}

/// Where a free block stands in its chain.
proof fn lemma_chain_position(
    chains: Seq<Seq<int>>,
    l: Map<int, int>,
    mem: Seq<u32>,
    start: int,
    a: int,
) -> (n: int)
    requires
        chains_ok(chains, l, mem, start),
        l.dom().contains(a),
    ensures
        0 <= class_of(l[a]) < 56,
        0 <= n < chains[class_of(l[a])].len(),
        chains[class_of(l[a])][n] == a,
{
    reveal(chains_ok);
    let c = class_of(l[a]);
    assert(chains[c].contains(a));
    choose|n: int| 0 <= n < chains[c].len() && chains[c][n] == a
}

proof fn lemma_chain_distinct(
    chains: Seq<Seq<int>>,
    l: Map<int, int>,
    mem: Seq<u32>,
    start: int,
    c: int,
    i: int,
    j: int,
)
    requires
        chains_ok(chains, l, mem, start),
        0 <= c < 56,
        0 <= i < j < chains[c].len(),
    ensures
        chains[c][i] != chains[c][j],
{
    reveal(chains_ok);
}

/// The words after the block at position `n` of a chain was taken out.
spec fn unlinked(
    before: Seq<u32>,
    after: Seq<u32>,
    start: int,
    end: int,
    chain: Seq<int>,
    n: int,
) -> bool {
    &&& after.len() == before.len()
    &&& forall|x: int|
        spot(start, end, x) ==> #[trigger] word(after, start, x) == (if x == chain[n] + 8 {
            0
        } else if n + 1 < chain.len() && x == chain[n + 1] + 12 {
            if n > 0 {
                chain[n - 1]
            } else {
                0
            }
        } else if n > 0 && x == chain[n - 1] + 8 {
            if n + 1 < chain.len() {
                chain[n + 1]
            } else {
                0
            }
        } else {
            word(before, start, x)
        })
}

/// A place in the arena that can be a block.
spec fn seat(start: int, end: int, a: int) -> bool {
    start <= a && a % 8 == 0 && a + 16 <= end
}

/// The rest of the chain is linked as before.
#[verifier::spinoff_prover]
proof fn lemma_unlinked_chain(
    before: Seq<u32>,
    after: Seq<u32>,
    start: int,
    end: int,
    chain: Seq<int>,
    n: int,
    i: int,
)
    requires
        unlinked(before, after, start, end, chain, n),
        0 <= n < chain.len(),
        0 <= i < chain.len() - 1,
        forall|j: int| 0 <= j < chain.len() ==> seat(start, end, #[trigger] chain[j]),
        linked(before, start, chain, if i < n {
            i
        } else {
            i + 1
        }),
        forall|j: int, o: int|
            #![trigger chain[j], chain[o]]
            0 <= j < o < chain.len() ==> chain[j] + 16 <= chain[o] || chain[o] + 16 <= chain[j],
    ensures
        linked(after, start, chain.remove(n), i),
{
    let new = chain.remove(n);
    let o = if i < n {
        i
    } else {
        i + 1
    };
    let b = chain[o];
    assert(new[i] == b);
    assert(seat(start, end, b));
    assert(spot(start, end, b + 8) && spot(start, end, b + 12));
    lemma_links(before, start, chain, o);
    lemma_links(after, start, new, i);
    if i + 1 < new.len() {
        let q = if i + 1 < n {
            i + 1
        } else {
            i + 2
        };
        assert(new[i + 1] == chain[q]);
    }
    if i > 0 {
        let q = if i - 1 < n {
            i - 1
        } else {
            i
        };
        assert(new[i - 1] == chain[q]);
    }
    if o < n {
        assert(chain[o] + 16 <= chain[n] || chain[n] + 16 <= chain[o]);
        if o != n - 1 {
            assert(chain[o] + 16 <= chain[n - 1] || chain[n - 1] + 16 <= chain[o]);
        }
        if n + 1 < chain.len() {
            assert(chain[o] + 16 <= chain[n + 1] || chain[n + 1] + 16 <= chain[o]);
        }
    } else {
        assert(chain[n] + 16 <= chain[o] || chain[o] + 16 <= chain[n]);
        if o != n + 1 {
            assert(chain[n + 1] + 16 <= chain[o] || chain[o] + 16 <= chain[n + 1]);
        }
        if n > 0 {
            assert(chain[n - 1] + 16 <= chain[o] || chain[o] + 16 <= chain[n - 1]);
        }
    }
}

/// A block leaves its chain.
#[verifier::spinoff_prover]
#[verifier::rlimit(60)]
proof fn lemma_remove_chains(
    chains: Seq<Seq<int>>,
    l: Map<int, int>,
    before: Seq<u32>,
    after: Seq<u32>,
    start: int,
    end: int,
    k: int,
    n: int,
)
    requires
        bounds_ok(before, start, end),
        chains_ok(chains, l, before, start),
        spread(l),
        forall|b: int| #[trigger] l.dom().contains(b) ==> free_ok(before, start, end, b, l[b]),
        0 <= k < 56,
        0 <= n < chains[k].len(),
        unlinked(before, after, start, end, chains[k], n),
    ensures
        chains_ok(
            chains.update(k, chains[k].remove(n)),
            l.remove(chains[k][n]),
            after,
            start,
        ),
{
    reveal(chains_ok);
    let chain = chains[k];
    let a = chain[n];
    let l2 = l.remove(a);
    let new = chain.remove(n);
    let chains2 = chains.update(k, new);
    assert forall|i: int| 0 <= i < chain.len() implies seat(start, end, #[trigger] chain[i]) by {
        assert(l.dom().contains(chains[k][i]));
        assert(free_ok(before, start, end, chain[i], l[chain[i]]));
    }
    assert forall|j: int, o: int|
        #![trigger chain[j], chain[o]]
        0 <= j < o < chain.len() implies chain[j] + 16 <= chain[o] || chain[o] + 16 <= chain[j] by {
        assert(l.dom().contains(chains[k][j]));
        assert(l.dom().contains(chains[k][o]));
        assert(chains[k][j] != chains[k][o]);
    }
    assert(class_of(l[chains[k][n]]) == k);
    assert forall|c: int, i: int|
        #![trigger chains2[c][i]]
        0 <= c < 56 && 0 <= i < chains2[c].len() implies l2.dom().contains(chains2[c][i])
        && class_of(l2[chains2[c][i]]) == c && linked(after, start, chains2[c], i) by {
        if c == k {
            let o = if i < n {
                i
            } else {
                i + 1
            };
            assert(chains2[c][i] == chains[k][o]);
            assert(chains[k][o] != chains[k][n]) by {
                if o < n {
                    assert(chain[o] + 16 <= chain[n] || chain[n] + 16 <= chain[o]);
                } else {
                    assert(chain[n] + 16 <= chain[o] || chain[o] + 16 <= chain[n]);
                }
            }
            lemma_unlinked_chain(before, after, start, end, chain, n, i);
        } else {
            let b = chains[c][i];
            assert(l.dom().contains(b) && class_of(l[b]) == c && linked(
                before,
                start,
                chains[c],
                i,
            ));
            assert(free_ok(before, start, end, b, l[b]));
            assert(spot(start, end, b + 8) && spot(start, end, b + 12));
            if n > 0 {
                assert(class_of(l[chains[k][n - 1]]) == k);
            }
            if n + 1 < chain.len() {
                assert(class_of(l[chains[k][n + 1]]) == k);
            }
            lemma_linked_same(before, after, start, chains[c], i);
        }
    }
    assert forall|c: int, i: int, j: int|
        #![trigger chains2[c][i], chains2[c][j]]
        0 <= c < 56 && 0 <= i < j < chains2[c].len() implies chains2[c][i] != chains2[c][j] by {
        if c == k {
            let oi = if i < n {
                i
            } else {
                i + 1
            };
            let oj = if j < n {
                j
            } else {
                j + 1
            };
            assert(chains[k][oi] != chains[k][oj]);
        } else {
            assert(chains[c][i] != chains[c][j]);
        }
    }
    assert forall|b: int| #[trigger] l2.dom().contains(b) implies 0 <= class_of(l2[b]) < 56
        && chains2[class_of(l2[b])].contains(b) by {
        let c = class_of(l[b]);
        assert(l.dom().contains(b));
        assert(chains[c].contains(b));
        let i = choose|i: int| 0 <= i < chains[c].len() && chains[c][i] == b;
        if c == k {
            if i < n {
                assert(new[i] == b);
            } else {
                assert(new[i - 1] == b);
            }
        }
    }
}

/// A block that leaves its chain leaves everything but links as it is.
#[verifier::spinoff_prover]
#[verifier::rlimit(40)]
proof fn lemma_remove_rest(
    chains: Seq<Seq<int>>,
    l: Map<int, int>,
    before: Seq<u32>,
    after: Seq<u32>,
    start: int,
    end: int,
    k: int,
    n: int,
)
    requires
        bounds_ok(before, start, end),
        chains_ok(chains, l, before, start),
        spread(l),
        forall|b: int| #[trigger] l.dom().contains(b) ==> free_ok(before, start, end, b, l[b]),
        0 <= k < 56,
        0 <= n < chains[k].len(),
        unlinked(before, after, start, end, chains[k], n),
    ensures
        links_only(before, after, l, start, end),
        spread(l.remove(chains[k][n])),
        forall|b: int| #[trigger] l.dom().contains(b) ==> free_ok(after, start, end, b, l[b]),
{
    reveal(chains_ok);
    let chain = chains[k];
    let l2 = l.remove(chain[n]);
    assert(l.dom().contains(chains[k][n]));
    if n > 0 {
        assert(l.dom().contains(chains[k][n - 1]));
    }
    if n + 1 < chain.len() {
        assert(l.dom().contains(chains[k][n + 1]));
    }
    assert forall|b: int| #[trigger] l.dom().contains(b) implies free_ok(
        after,
        start,
        end,
        b,
        l[b],
    ) by {
        assert(free_ok(before, start, end, b, l[b]));
        assert(spot(start, end, b));
    }
    assert forall|x: int, y: int|
        #![trigger l2.dom().contains(x), l2.dom().contains(y)]
        l2.dom().contains(x) && l2.dom().contains(y) && x < y implies x + 16 <= y by {
        assert(l.dom().contains(x) && l.dom().contains(y));
    }
}

/// Link the neighbours of a block in a list to each other.
#[verifier::spinoff_prover]
fn bridge(mem: &mut [u32], start: u32, block: u32, next: u32, prev: u32)
    requires
        start % 4 == 0,
        start > 0,
        start + 4 * old(mem)@.len() <= u32::MAX,
        seat(start as int, start + 4 * old(mem)@.len(), block as int),
        next != 0 ==> seat(start as int, start + 4 * old(mem)@.len(), next as int),
        prev != 0 ==> seat(start as int, start + 4 * old(mem)@.len(), prev as int),
        next != block && prev != block,
    ensures
        final(mem)@.len() == old(mem)@.len(),
        forall|x: int|
            spot(start as int, start + 4 * old(mem)@.len(), x) ==> #[trigger] word(
                final(mem)@,
                start as int,
                x,
            ) == (if x == block + 8 {
                0
            } else if next != 0 && x == next + 12 {
                prev as int
            } else if prev != 0 && x == prev + 8 {
                next as int
            } else {
                word(old(mem)@, start as int, x)
            }),
{
    if prev != 0 {
        write_word(mem, start, prev + 8, next);
    }
    if next != 0 {
        write_word(mem, start, next + 12, prev);
    }
    write_word(mem, start, block + 8, 0);
}

impl Tlsf {
    /// Take a free block out of its list.
    #[verifier::spinoff_prover]
    #[verifier::rlimit(60)]
    fn list_remove(&mut self, mem: &mut [u32], block: u32, Ghost(l): Ghost<Map<int, int>>)
        requires
            old(self).lists_ok(l, old(mem)@),
            l.dom().contains(block as int),
        ensures
            final(self).lists_ok(l.remove(block as int), final(mem)@),
            final(self).same_arena(*old(self)),
            links_only(
                old(mem)@,
                final(mem)@,
                l,
                old(self).arena_start as int,
                old(self).arena_end as int,
            ),
    {
        let ghost before = mem@;
        let ghost start = self.arena_start as int;
        let ghost end = self.arena_end as int;
        let ghost chains = self.chains@;
        let ghost a = block as int;
        assert(free_ok(before, start, end, a, l[a]));
        let first: u32 = read_word(mem, self.arena_start, block);
        let length: u32 = first - first % 4;
        assert(length == l[a]);
        let (fl, sl) = list_for(length);
        let index: usize = fl * SL_COUNT + sl;
        let ghost k = index as int;
        let ghost n = lemma_chain_position(chains, l, before, start, a);
        let ghost chain = chains[k];
        proof {
            lemma_chain_block(chains, l, before, start, k, n);
            lemma_links(before, start, chain, n);
            if n + 1 < chain.len() {
                lemma_chain_block(chains, l, before, start, k, n + 1);
                assert(free_ok(before, start, end, chain[n + 1], l[chain[n + 1]]));
            }
            if n > 0 {
                lemma_chain_block(chains, l, before, start, k, n - 1);
                assert(free_ok(before, start, end, chain[n - 1], l[chain[n - 1]]));
                lemma_chain_block(chains, l, before, start, k, 0);
                lemma_chain_distinct(chains, l, before, start, k, n - 1, n);
            }
            if n + 1 < chain.len() {
                lemma_chain_distinct(chains, l, before, start, k, n, n + 1);
            }
        }
        let next: u32 = read_word(mem, self.arena_start, block + 8);
        let prev: u32 = read_word(mem, self.arena_start, block + 12);
        let head: u32 = self.head(index);
        let new_head: u32 = if prev == 0 {
            next
        } else {
            head
        };
        bridge(mem, self.arena_start, block, next, prev);
        let ghost new = chain.remove(n);
        let ghost after = mem@;
        proof {
            assert(unlinked(before, after, start, end, chain, n));
            lemma_remove_chains(chains, l, before, after, start, end, k, n);
            lemma_remove_rest(chains, l, before, after, start, end, k, n);
            assert(n > 0 ==> new[0] == chain[0]);
            assert(n == 0 && new.len() > 0 ==> new[0] == chain[1]);
            assert forall|b: int| #[trigger] l.remove(a).dom().contains(b) implies free_ok(
                after,
                start,
                end,
                b,
                l.remove(a)[b],
            ) by {
                assert(l.dom().contains(b));
            }
        }
        self.set_head(fl, sl, new_head, Ghost(new));
    }

    /// The first block of the first list, from that of class `(fl, sl)` on, that
    /// has any.
    fn first_block(&self, fl: usize, sl: usize) -> (r: Option<u32>)
        requires
            self.heads_ok(),
            fl < 14,
            sl < 4,
            forall|c: int|
                0 <= c < 56 && (#[trigger] self.chains@[c]).len() > 0 ==> self.chains@[c][0] != 0,
        ensures
            match r {
                Some(block) => exists|c: int|
                    #![trigger self.chains@[c]]
                    fl * 4 + sl <= c < 56 && self.chains@[c].len() > 0 && self.chains@[c][0]
                        == block && forall|d: int|
                        fl * 4 + sl <= d < c ==> (#[trigger] self.chains@[d]).len() == 0,
                None => forall|c: int|
                    fl * 4 + sl <= c < 56 ==> (#[trigger] self.chains@[c]).len() == 0,
            },
    {
        reveal(Tlsf::heads_ok);
        let ghost from = fl * 4 + sl;
        let mut s: usize = sl;
        while s < SL_COUNT
            invariant
                self.heads_ok(),
                fl < 14,
                sl <= s <= 4,
                from == fl * 4 + sl,
                forall|d: int| from <= d < fl * 4 + s ==> (#[trigger] self.chains@[d]).len() == 0,
            decreases 4 - s,
        {
            reveal(Tlsf::heads_ok);
            let ghost c = fl * 4 + s;
            if test_bit(self.sl_bitmaps[fl], s as u32) {
                assert(self.chains@[c].len() > 0);
                return Some(self.lists[fl * SL_COUNT + s]);
            }
            s += 1;
        }
        let mut f: usize = fl + 1;
        while f < FL_COUNT
            invariant
                self.heads_ok(),
                fl < f <= 14,
                sl < 4,
                from == fl * 4 + sl,
                forall|d: int| from <= d < f * 4 ==> (#[trigger] self.chains@[d]).len() == 0,
            decreases 14 - f,
        {
            reveal(Tlsf::heads_ok);
            if test_bit(self.fl_bitmap, f as u32) {
                let mut t: usize = 0;
                while t < SL_COUNT
                    invariant
                        self.heads_ok(),
                        fl < f < 14,
                        sl < 4,
                        t <= 4,
                        from == fl * 4 + sl,
                        self.sl_bitmaps@[f as int] != 0,
                        forall|d: int|
                            from <= d < f * 4 + t ==> (#[trigger] self.chains@[d]).len() == 0,
                    decreases 4 - t,
                {
                    reveal(Tlsf::heads_ok);
                    let ghost c = f * 4 + t;
                    if test_bit(self.sl_bitmaps[f], t as u32) {
                        assert(self.chains@[c].len() > 0);
                        return Some(self.lists[f * SL_COUNT + t]);
                    }
                    t += 1;
                }
                proof {
                    let x = self.sl_bitmaps@[f as int];
                    lemma_zero_bits(x);
                    assert forall|j: int| 0 <= j < 32 implies !#[trigger] bit(x, j) by {
                        if j < 4 {
                            assert(self.chains@[f * 4 + j].len() == 0);
                        }
                    }
                    assert(false);
                }
            } else {
                proof {
                    let x = self.sl_bitmaps@[f as int];
                    lemma_zero_bits(x);
                    assert forall|d: int| from <= d < (f + 1) * 4 implies (
                    #[trigger] self.chains@[d]).len() == 0 by {
                        if d >= f * 4 {
                            let j = d - f * 4;
                            assert(d == f * 4 + j);
                            assert(!bit(x, j));
                        }
                    }
                }
            }
            f += 1;
        }
        None
    }
}

// ---------------------------------------------------------------------------
// Blocks
// ---------------------------------------------------------------------------

/// One block is unaffected by words that are not its own.
proof fn lemma_piece_frame(
    m: Map<int, Piece>,
    before: Seq<u32>,
    after: Seq<u32>,
    start: int,
    end: int,
    a: int,
)
    requires
        piece_ok(m, before, start, end, a),
        word(after, start, a) == word(before, start, a),
        word(after, start, a + 4) == word(before, start, a + 4),
        m[a].used ==> word(after, start, m[a].payload - 4) == word(
            before,
            start,
            m[a].payload - 4,
        ),
    ensures
        piece_ok(m, after, start, end, a),
{
    reveal(piece_ok);
}

/// What a block keeps to by itself.
proof fn lemma_piece(m: Map<int, Piece>, mem: Seq<u32>, start: int, end: int, a: int)
    requires
        piece_ok(m, mem, start, end, a),
    ensures
        start <= a,
        a % 8 == 0,
        m[a].size % 8 == 0,
        m[a].size >= 16,
        a + m[a].size <= end,
        word(mem, start, a) == flags(m[a]),
        word(mem, start, a + 4) == m[a].prev_size,
        a == start ==> m[a].prev_size == 0 && m[a].prev_used,
        m[a].used ==> a + 16 <= m[a].payload < a + m[a].size && m[a].payload % 8 == 0 && word(
            mem,
            start,
            m[a].payload - 4,
        ) == a,
        !m[a].used ==> m[a].prev_used && m[a].payload == 0,
{
    reveal(piece_ok);
}

/// Links of free blocks are no part of any header.
#[verifier::spinoff_prover]
proof fn lemma_links_keep_phys(
    m: Map<int, Piece>,
    before: Seq<u32>,
    after: Seq<u32>,
    l: Map<int, int>,
    start: int,
    end: int,
)
    requires
        phys_ok(m, before, start, end),
        links_only(before, after, l, start, end),
        forall|x: int| #[trigger] l.dom().contains(x) ==> m.dom().contains(x) && !m[x].used,
    ensures
        phys_ok(m, after, start, end),
{
    assert forall|x: int| #[trigger] l.dom().contains(x) implies m[x].size >= 16 by {
        assert(m.dom().contains(x));
        lemma_piece(m, before, start, end, x);
    }
    assert forall|a: int| #[trigger] m.dom().contains(a) implies piece_ok(
        m,
        after,
        start,
        end,
        a,
    ) by {
        assert(piece_ok(m, before, start, end, a));
        lemma_piece(m, before, start, end, a);
        lemma_no_link(m, l, a, a);
        lemma_no_link(m, l, a, a + 4);
        assert(spot(start, end, a) && spot(start, end, a + 4));
        if m[a].used {
            let x = m[a].payload - 4;
            lemma_no_link(m, l, a, x);
            assert(spot(start, end, x));
        }
        lemma_piece_frame(m, before, after, start, end, a);
    }
}

proof fn lemma_no_link(m: Map<int, Piece>, l: Map<int, int>, a: int, x: int)
    requires
        apart(m),
        m.dom().contains(a),
        m[a].size >= 16,
        forall|y: int| #[trigger] l.dom().contains(y) ==> m.dom().contains(y) && !m[y].used
            && m[y].size >= 16,
        x == a || x == a + 4 || (m[a].used && a + 12 <= x < a + m[a].size),
    ensures
        !l.dom().contains(x - 8),
        !l.dom().contains(x - 12),
{
    if l.dom().contains(x - 8) {
        let y = x - 8;
        assert(m.dom().contains(y));
        assert(m.dom().contains(a));
    }
    if l.dom().contains(x - 12) {
        let y = x - 12;
        assert(m.dom().contains(y));
        assert(m.dom().contains(a));
    }
}

impl Tlsf {
    /// Words that belong to no free block do not matter to the lists.
    proof fn lemma_lists_frame(self, l: Map<int, int>, before: Seq<u32>, after: Seq<u32>)
        requires
            self.lists_ok(l, before),
            after.len() == before.len(),
            forall|x: int|
                #[trigger] l.dom().contains(x) ==> word(after, self.arena_start as int, x) == word(
                    before,
                    self.arena_start as int,
                    x,
                ) && word(after, self.arena_start as int, x + 8) == word(
                    before,
                    self.arena_start as int,
                    x + 8,
                ) && word(after, self.arena_start as int, x + 12) == word(
                    before,
                    self.arena_start as int,
                    x + 12,
                ),
        ensures
            self.lists_ok(l, after),
    {
        let start = self.arena_start as int;
        let end = self.arena_end as int;
        let chains = self.chains@;
        reveal(chains_ok);
        assert forall|c: int, i: int|
            #![trigger chains[c][i]]
            0 <= c < 56 && 0 <= i < chains[c].len() implies l.dom().contains(chains[c][i])
            && class_of(l[chains[c][i]]) == c && linked(after, start, chains[c], i) by {
            assert(l.dom().contains(chains[c][i]));
            lemma_linked_same(before, after, start, chains[c], i);
        }
        assert forall|a: int| #[trigger] l.dom().contains(a) implies free_ok(
            after,
            start,
            end,
            a,
            l[a],
        ) by {
            assert(free_ok(before, start, end, a, l[a]));
        }
    }

    /// The arena and the allocator agree.
    pub closed spec fn inv(self, mem: Seq<u32>) -> bool {
        if self.initialized {
            let m = self.blocks@;
            let start = self.arena_start as int;
            let end = self.arena_end as int;
            &&& phys_ok(m, mem, start, end)
            &&& self.lists_ok(free_of(m), mem)
            &&& self.free_bytes == free_from(m, start, end)
        } else {
            &&& self.blocks@ == Map::<int, Piece>::empty()
            &&& self.heads_ok()
            &&& self.chains@ == Seq::new(56, |c: int| Seq::<int>::empty())
            &&& self.free_bytes == 0
            &&& self.arena_start == 0
            &&& self.arena_end == 0
        }
    }

    /// An allocator without an arena.
    pub fn new() -> (r: Self)
        ensures
            !r.ready(),
            forall|mem: Seq<u32>| #[trigger] r.inv(mem),
            r.map() == Map::<int, Piece>::empty(),
    {
        reveal(Tlsf::heads_ok);
        let r = Tlsf {
            lists: [0u32; LIST_COUNT],
            fl_bitmap: 0,
            sl_bitmaps: [0u32; FL_COUNT],
            free_bytes: 0,
            arena_start: 0,
            arena_end: 0,
            initialized: false,
            blocks: Ghost(Map::empty()),
            chains: Ghost(Seq::new(56, |c: int| Seq::<int>::empty())),
        };
        proof {
            lemma_zero_bits(0);
        }
        r
    }

    /// Whether the allocator has been given an arena.
    pub fn initialized(&self) -> (r: bool)
        ensures
            r == self.ready(),
    {
        self.initialized
    }

    /// Take charge of an arena: the words `mem`, at the addresses from `start`
    /// to `end`.
    ///
    /// An arena shorter than the smallest block leaves an empty heap, from which
    /// nothing can be allocated. A second arena is ignored.
    pub fn init(&mut self, mem: &mut [u32], start: u32, end: u32)
        requires
            old(self).inv(old(mem)@),
            !old(self).ready() ==> bounds_ok(old(mem)@, start as int, end as int),
        ensures
            final(self).inv(final(mem)@),
            final(self).ready(),
            old(self).ready() ==> *final(self) == *old(self) && final(mem)@ == old(mem)@,
            !old(self).ready() ==> {
                &&& final(self).start() == start
                &&& final(self).end() == end
                &&& final(self).map() == (if end - start >= 16 {
                    map![start as int => Piece {
                        size: end - start,
                        used: false,
                        prev_used: true,
                        prev_size: 0,
                        payload: 0,
                    }]
                } else {
                    Map::empty()
                })
            },
    {
        if self.initialized {
            return;
        }
        self.arena_start = start;
        self.arena_end = end;
        self.initialized = true;
        let total: u32 = end - start;
        let ghost none = Map::<int, int>::empty();
        proof {
            reveal(Tlsf::heads_ok);
            reveal(chains_ok);
        }
        if total >= MIN_BLOCK {
            write_word(mem, start, start, total + 2);
            write_word(mem, start, start + 4, 0);
            let ghost m = map![start as int => Piece {
                size: total as int,
                used: false,
                prev_used: true,
                prev_size: 0,
                payload: 0,
            }];
            let ghost before = mem@;
            self.list_insert(mem, start, Ghost(none), Ghost(total as int));
            self.free_bytes = total;
            self.blocks = Ghost(m);
            proof {
                let l = none.insert(start as int, total as int);
                assert(free_of(m) =~= l);
                reveal(piece_ok);
                assert(phys_ok(m, before, start as int, end as int));
                lemma_links_keep_phys(m, before, mem@, l, start as int, end as int);
                assert(free_from(m, end as int, end as int) == 0);
            }
        } else {
            proof {
                assert(free_of(Map::empty()) =~= none);
            }
        }
    }
}

/// Equal blocks have equal free bytes.
proof fn lemma_free_same(m1: Map<int, Piece>, m2: Map<int, Piece>, a: int, end: int)
    requires
        forall|x: int|
            #![trigger m1.dom().contains(x)]
            #![trigger m2.dom().contains(x)]
            x >= a ==> m1.dom().contains(x) == m2.dom().contains(x) && m1[x].size == m2[x].size
                && m1[x].used == m2[x].used,
    ensures
        free_from(m1, a, end) == free_from(m2, a, end),
    decreases end - a,
{
    assert(m1.dom().contains(a) == m2.dom().contains(a));
    if a < end && m1.dom().contains(a) && m1[a].size > 0 && a + m1[a].size <= end {
        lemma_free_same(m1, m2, a + m1[a].size, end);
    }
}

proof fn lemma_free_bound(m: Map<int, Piece>, a: int, end: int)
    requires
        a <= end,
    ensures
        0 <= free_from(m, a, end) <= end - a,
    decreases end - a,
{
    if a < end && m.dom().contains(a) && m[a].size > 0 && a + m[a].size <= end {
        lemma_free_bound(m, a + m[a].size, end);
    }
}

/// A difference from `k` on is a difference as a whole.
proof fn lemma_free_diff(
    m1: Map<int, Piece>,
    m2: Map<int, Piece>,
    mem: Seq<u32>,
    start: int,
    x: int,
    k: int,
    end: int,
    d: int,
)
    requires
        phys_ok(m1, mem, start, end),
        m1.dom().contains(x),
        m1.dom().contains(k),
        x <= k,
        forall|y: int|
            y < k && #[trigger] m1.dom().contains(y) ==> m2.dom().contains(y) && m2[y].size
                == m1[y].size && m2[y].used == m1[y].used,
        free_from(m2, k, end) == free_from(m1, k, end) + d,
    ensures
        free_from(m2, x, end) == free_from(m1, x, end) + d,
    decreases k - x,
{
    if x < k {
        assert(piece_ok(m1, mem, start, end, x));
        lemma_piece(m1, mem, start, end, x);
        lemma_neighbours(m1, mem, start, end, x);
        assert(piece_ok(m1, mem, start, end, k));
        lemma_piece(m1, mem, start, end, k);
        assert(x + m1[x].size <= k);
        lemma_free_diff(m1, m2, mem, start, x + m1[x].size, k, end, d);
    }
}

/// What a block says of the blocks beside it.
proof fn lemma_neighbours(m: Map<int, Piece>, mem: Seq<u32>, start: int, end: int, a: int)
    requires
        piece_ok(m, mem, start, end, a),
    ensures
        a != start ==> m[a].prev_size >= 16 && m.dom().contains(a - m[a].prev_size) && m[a
            - m[a].prev_size].size == m[a].prev_size && m[a - m[a].prev_size].used
            == m[a].prev_used,
        a + m[a].size < end ==> m.dom().contains(a + m[a].size) && m[a + m[a].size].prev_size
            == m[a].size && m[a + m[a].size].prev_used == m[a].used,
{
    reveal(piece_ok);
}

/// The blocks after the front of free block `a` was taken, the rest staying a
/// free block.
pub open spec fn split_map(
    m: Map<int, Piece>,
    a: int,
    size: int,
    payload: int,
) -> Map<int, Piece> {
    let p = m[a];
    let rest = p.size - size;
    let after = a + p.size;
    let m1 = m.insert(a, Piece { size, used: true, payload, ..p }).insert(
        a + size,
        Piece { size: rest, used: false, prev_used: true, prev_size: size, payload: 0 },
    );
    if m.dom().contains(after) {
        m1.insert(after, Piece { prev_size: rest, ..m[after] })
    } else {
        m1
    }
}

/// The blocks after free block `a` was taken as a whole.
pub open spec fn take_map(m: Map<int, Piece>, a: int, payload: int) -> Map<int, Piece> {
    let p = m[a];
    let after = a + p.size;
    let m1 = m.insert(a, Piece { used: true, payload, ..p });
    if m.dom().contains(after) {
        m1.insert(after, Piece { prev_used: true, ..m[after] })
    } else {
        m1
    }
}

/// The words after a split.
spec fn split_words(
    before: Seq<u32>,
    after: Seq<u32>,
    m: Map<int, Piece>,
    start: int,
    end: int,
    a: int,
    size: int,
    payload: int,
) -> bool {
    let rest = m[a].size - size;
    let n = a + size;
    &&& after.len() == before.len()
    &&& forall|x: int|
        spot(start, end, x) ==> #[trigger] word(after, start, x) == (if x == n {
            rest + 2
        } else if x == n + 4 {
            size
        } else if x == a {
            size + 3
        } else if n + rest < end && x == n + rest + 4 {
            rest
        } else if x == payload - 4 {
            a
        } else {
            word(before, start, x)
        })
}

/// One block of the arena after a split.
#[verifier::spinoff_prover]
#[verifier::rlimit(60)]
proof fn lemma_split_piece(
    m: Map<int, Piece>,
    before: Seq<u32>,
    after: Seq<u32>,
    start: int,
    end: int,
    a: int,
    size: int,
    payload: int,
    b: int,
)
    requires
        apart(m),
        m.dom().contains(a),
        !m[a].used,
        piece_ok(m, before, start, end, a),
        m.dom().contains(b) ==> piece_ok(m, before, start, end, b),
        m.dom().contains(a + m[a].size) ==> piece_ok(m, before, start, end, a + m[a].size),
        split_map(m, a, size, payload).dom().contains(b),
        split_words(before, after, m, start, end, a, size, payload),
        start % 8 == 0,
        size % 8 == 0,
        16 <= size,
        size + 16 <= m[a].size,
        a + 16 <= payload < a + size,
        payload % 8 == 0,
        m.dom().contains(a + m[a].size) ==> m[a + m[a].size].size >= 16,
        forall|x: int| #[trigger] m.dom().contains(x) ==> m[x].size >= 16 && start <= x && x % 8 == 0
            && x + m[x].size <= end,
    ensures
        piece_ok(split_map(m, a, size, payload), after, start, end, b),
{
    reveal(piece_ok);
    let m2 = split_map(m, a, size, payload);
    let n = a + size;
    let rest = m[a].size - size;
    let last = a + m[a].size;
    assert(spot(start, end, a) && spot(start, end, a + 4) && spot(start, end, n) && spot(
        start,
        end,
        n + 4,
    ));
    assert(spot(start, end, payload - 4));
    if m.dom().contains(n) {
        assert(m.dom().contains(a));
        assert(false);
    }
    if b != a && b != n && b != last {
        assert(m.dom().contains(b));
        assert(spot(start, end, b) && spot(start, end, b + 4));
        if m[b].used {
            assert(spot(start, end, m[b].payload - 4));
        }
    }
    if b == last && b != a && b != n {
        assert(spot(start, end, b) && spot(start, end, b + 4));
        if m[b].used {
            assert(spot(start, end, m[b].payload - 4));
        }
    }
}

/// The blocks by themselves keep to the bounds.
spec fn sizes_ok(m: Map<int, Piece>, start: int, end: int) -> bool {
    forall|x: int| #[trigger] m.dom().contains(x) ==> m[x].size >= 16 && start <= x && x % 8 == 0
        && x + m[x].size <= end && m[x].size % 8 == 0
}

proof fn lemma_sizes(m: Map<int, Piece>, mem: Seq<u32>, start: int, end: int)
    requires
        phys_ok(m, mem, start, end),
    ensures
        sizes_ok(m, start, end),
{
    assert forall|x: int| #[trigger] m.dom().contains(x) implies m[x].size >= 16 && start <= x && x
        % 8 == 0 && x + m[x].size <= end && m[x].size % 8 == 0 by {
        lemma_piece(m, mem, start, end, x);
    }
}

/// The arena after a split.
#[verifier::spinoff_prover]
proof fn lemma_split_phys(
    m: Map<int, Piece>,
    before: Seq<u32>,
    after: Seq<u32>,
    start: int,
    end: int,
    a: int,
    size: int,
    payload: int,
)
    requires
        phys_ok(m, before, start, end),
        m.dom().contains(a),
        !m[a].used,
        split_words(before, after, m, start, end, a, size, payload),
        size % 8 == 0,
        16 <= size,
        size + 16 <= m[a].size,
        a + 16 <= payload < a + size,
        payload % 8 == 0,
    ensures
        phys_ok(split_map(m, a, size, payload), after, start, end),
        free_of(split_map(m, a, size, payload)) == free_of(m).remove(a).insert(
            a + size,
            m[a].size - size,
        ),
        free_from(split_map(m, a, size, payload), start, end) == free_from(m, start, end) - size,
{
    let m2 = split_map(m, a, size, payload);
    let last = a + m[a].size;
    lemma_sizes(m, before, start, end);
    assert(piece_ok(m, before, start, end, a));
    lemma_neighbours(m, before, start, end, a);
    assert(m.dom().contains(last) ==> piece_ok(m, before, start, end, last));
    assert forall|b: int| #[trigger] m2.dom().contains(b) implies piece_ok(
        m2,
        after,
        start,
        end,
        b,
    ) by {
        lemma_split_piece(m, before, after, start, end, a, size, payload, b);
    }
    assert(apart(m2)) by {
        assert forall|x: int, y: int|
            #![trigger m2.dom().contains(x), m2.dom().contains(y)]
            m2.dom().contains(x) && m2.dom().contains(y) && x < y implies x + m2[x].size <= y by {
            if x != a + size {
                assert(m.dom().contains(x));
            }
            if y != a + size {
                assert(m.dom().contains(y));
            }
            assert(m.dom().contains(a));
        }
    }
    assert(!m.dom().contains(a + size)) by {
        if m.dom().contains(a + size) {
            assert(m.dom().contains(a));
        }
    }
    assert(free_of(m2) =~= free_of(m).remove(a).insert(a + size, m[a].size - size)) by {
        if m.dom().contains(last) {
            assert(m2[last].used == m[last].used);
        }
    }
    assert(free_from(m2, last, end) == free_from(m, last, end)) by {
        assert forall|x: int|
            #![trigger m2.dom().contains(x)]
            #![trigger m.dom().contains(x)]
            x >= last implies m2.dom().contains(x) == m.dom().contains(x) && m2[x].size == m[x].size
            && m2[x].used == m[x].used by {}
        lemma_free_same(m2, m, last, end);
    }
    assert(free_from(m2, a + size, end) == m[a].size - size + free_from(m2, last, end));
    assert(free_from(m2, a, end) == free_from(m2, a + size, end));
    assert(free_from(m, a, end) == m[a].size + free_from(m, last, end));
    assert(m.dom().contains(start)) by {
        if end - start < 16 {
            assert(m[a].size >= 16);
        }
    }
    lemma_free_diff(m, m2, before, start, start, a, end, -size);
}

/// The words after a free block was taken as a whole.
spec fn take_words(
    before: Seq<u32>,
    after: Seq<u32>,
    m: Map<int, Piece>,
    start: int,
    end: int,
    a: int,
    payload: int,
) -> bool {
    let last = a + m[a].size;
    &&& after.len() == before.len()
    &&& forall|x: int|
        spot(start, end, x) ==> #[trigger] word(after, start, x) == (if x == a {
            m[a].size + 3
        } else if last < end && x == last {
            word(before, start, x) + 2
        } else if x == payload - 4 {
            a
        } else {
            word(before, start, x)
        })
}

/// One block of the arena after a free block was taken as a whole.
#[verifier::spinoff_prover]
#[verifier::rlimit(60)]
proof fn lemma_take_piece(
    m: Map<int, Piece>,
    before: Seq<u32>,
    after: Seq<u32>,
    start: int,
    end: int,
    a: int,
    payload: int,
    b: int,
)
    requires
        apart(m),
        m.dom().contains(a),
        !m[a].used,
        piece_ok(m, before, start, end, a),
        piece_ok(m, before, start, end, b),
        m.dom().contains(b),
        m.dom().contains(a + m[a].size) ==> piece_ok(m, before, start, end, a + m[a].size),
        take_words(before, after, m, start, end, a, payload),
        start % 8 == 0,
        a + 16 <= payload < a + m[a].size,
        payload % 8 == 0,
        sizes_ok(m, start, end),
    ensures
        piece_ok(take_map(m, a, payload), after, start, end, b),
{
    reveal(piece_ok);
    let last = a + m[a].size;
    assert(spot(start, end, a) && spot(start, end, a + 4));
    assert(spot(start, end, payload - 4));
    assert(spot(start, end, b) && spot(start, end, b + 4));
    if m[b].used {
        assert(spot(start, end, m[b].payload - 4));
    }
}

/// The arena after a free block was taken as a whole.
#[verifier::spinoff_prover]
proof fn lemma_take_phys(
    m: Map<int, Piece>,
    before: Seq<u32>,
    after: Seq<u32>,
    start: int,
    end: int,
    a: int,
    payload: int,
)
    requires
        phys_ok(m, before, start, end),
        m.dom().contains(a),
        !m[a].used,
        take_words(before, after, m, start, end, a, payload),
        a + 16 <= payload < a + m[a].size,
        payload % 8 == 0,
    ensures
        phys_ok(take_map(m, a, payload), after, start, end),
        free_of(take_map(m, a, payload)) == free_of(m).remove(a),
        free_from(take_map(m, a, payload), start, end) == free_from(m, start, end) - m[a].size,
{
    let m2 = take_map(m, a, payload);
    let last = a + m[a].size;
    lemma_sizes(m, before, start, end);
    assert(piece_ok(m, before, start, end, a));
    assert(m.dom().contains(last) ==> piece_ok(m, before, start, end, last));
    assert forall|b: int| #[trigger] m2.dom().contains(b) implies piece_ok(
        m2,
        after,
        start,
        end,
        b,
    ) by {
        assert(m.dom().contains(b));
        assert(piece_ok(m, before, start, end, b));
        lemma_take_piece(m, before, after, start, end, a, payload, b);
    }
    assert(apart(m2)) by {
        assert forall|x: int, y: int|
            #![trigger m2.dom().contains(x), m2.dom().contains(y)]
            m2.dom().contains(x) && m2.dom().contains(y) && x < y implies x + m2[x].size <= y by {
            assert(m.dom().contains(x) && m.dom().contains(y));
        }
    }
    assert(free_of(m2) =~= free_of(m).remove(a));
    assert(free_from(m2, last, end) == free_from(m, last, end)) by {
        assert forall|x: int|
            #![trigger m2.dom().contains(x)]
            #![trigger m.dom().contains(x)]
            x >= last implies m2.dom().contains(x) == m.dom().contains(x) && m2[x].size == m[x].size
            && m2[x].used == m[x].used by {}
        lemma_free_same(m2, m, last, end);
    }
    assert(free_from(m2, a, end) == free_from(m2, last, end));
    assert(free_from(m, a, end) == m[a].size + free_from(m, last, end));
    assert(m.dom().contains(start)) by {
        if end - start < 16 {
            assert(m[a].size >= 16);
        }
    }
    lemma_free_diff(m, m2, before, start, start, a, end, -m[a].size);
}

// ---------------------------------------------------------------------------
// Allocating
// ---------------------------------------------------------------------------

/// An upper bound of what a layout takes of any block.
pub open spec fn need_of(layout: Layout) -> int {
    let need = align_up(larger(layout.align as int, 8) + 8 + larger(layout.size as int, 1), 8);
    if need < 16 {
        16
    } else {
        need
    }
}

/// The first list of which every block is large enough; the number of lists if
/// there is none.
pub open spec fn fit_class(need: int) -> int {
    if exists|c: int| 0 <= c < 56 && #[trigger] first_fitting(need, c / 4, c % 4, 4, 14) {
        choose|c: int| 0 <= c < 56 && #[trigger] first_fitting(need, c / 4, c % 4, 4, 14)
    } else {
        56
    }
}

/// The first block of the first list, from list `from` on, that has any.
pub open spec fn first_of(lists: Seq<Seq<int>>, from: int) -> Option<int>
    decreases 56 - from,
{
    if from >= 56 {
        None
    } else if lists[from].len() > 0 {
        Some(lists[from][0])
    } else {
        first_of(lists, from + 1)
    }
}

/// The blocks after `layout` was placed in free block `a`.
pub open spec fn placed_map(m: Map<int, Piece>, a: int, layout: Layout) -> Map<int, Piece> {
    let p = placement(a, layout, 8, 4, 0, 8).unwrap();
    if m[a].size - p.1 >= 16 {
        split_map(m, a, p.1, p.0)
    } else {
        take_map(m, a, p.0)
    }
}

proof fn lemma_first_of(lists: Seq<Seq<int>>, from: int, c: int)
    requires
        0 <= from <= c <= 56,
        forall|d: int| from <= d < c ==> (#[trigger] lists[d]).len() == 0,
        c < 56 ==> lists[c].len() > 0,
    ensures
        first_of(lists, from) == (if c < 56 {
            Some(lists[c][0])
        } else {
            None
        }),
    decreases c - from,
{
    if from < c {
        assert(lists[from].len() == 0);
        lemma_first_of(lists, from + 1, c);
    }
}

proof fn lemma_fit_class(need: int, c: int)
    requires
        0 <= c < 56,
        first_fitting(need, c / 4, c % 4, 4, 14),
    ensures
        fit_class(need) == c,
{
    let d = fit_class(need);
    assert(0 <= d < 56 && first_fitting(need, d / 4, d % 4, 4, 14));
    if class_le((c / 4, c % 4), (d / 4, d % 4)) {
        assert(class_min(c / 4, c % 4, 4) >= need);
    } else {
        assert(class_min(d / 4, d % 4, 4) >= need);
    }
}

proof fn lemma_no_fit_class(need: int)
    requires
        forall|a: int, b: int|
            #![trigger class_min(a, b, 4)]
            0 <= a < 14 && 0 <= b < 4 ==> class_min(a, b, 4) < need,
    ensures
        fit_class(need) == 56,
{
    assert forall|c: int| 0 <= c < 56 implies !#[trigger] first_fitting(
        need,
        c / 4,
        c % 4,
        4,
        14,
    ) by {
        assert(class_min(c / 4, c % 4, 4) < need);
    }
}

proof fn lemma_eight()
    ensures
        is_pow2(8),
{
    reveal_with_fuel(is_pow2, 5);
}

/// The payload is at most `big + 8` behind the start of the block: the next
/// multiple of `big` behind `a + 8` is a multiple of eight, too.
proof fn lemma_payload_bound(a: int, big: int)
    requires
        a > 0,
        a % 8 == 0,
        big >= 8,
        is_pow2(big),
    ensures
        align_up(a + 12, big) % 8 == 0,
        a + 16 <= align_up(a + 12, big) <= a + 8 + big,
        big % 8 == 0,
{
    lemma_eight();
    lemma_pow2_divides(8, big);
    let payload = align_up(a + 12, big);
    let bound = align_up(a + 9, big);
    law_align_up_is_least(a + 12, big);
    law_align_up_is_least(a + 9, big);
    lemma_divides_trans(payload, big, 8);
    lemma_divides_trans(bound, big, 8);
    assert(bound >= a + 16);
    assert(bound % big == 0);
}

/// Whatever its address, a block of the needed size has room for the layout.
#[verifier::spinoff_prover]
proof fn lemma_need_covers(a: int, layout: Layout, size: int, end: int)
    requires
        layout.ok(),
        a > 0,
        a % 8 == 0,
        need_of(layout) <= size,
        a + size <= end <= u32::MAX,
        end % 8 == 0,
    ensures
        placement(a, layout, 8, 4, 0, 8) is Some,
        ({
            let p = placement(a, layout, 8, 4, 0, 8).unwrap();
            &&& p.1 <= size
            &&& p.1 % 8 == 0
            &&& 16 <= p.1
            &&& p.0 % 8 == 0
            &&& a + 16 <= p.0 < a + p.1
        }),
{
    lemma_eight();
    let big = larger(layout.align as int, 8);
    let want = larger(layout.size as int, 1);
    lemma_payload_bound(a, big);
    let payload = align_up(a + 12, big);
    let raw = payload + want;
    assert(checked_up(a + 12, big) == Some(payload)) by {
        assert(big + 9 <= need_of(layout));
    }
    lemma_placed_size(a, payload - a, big, want, size);
    assert(checked_up(raw, 8) == Some(align_up(raw, 8)));
}

proof fn lemma_placed_size(a: int, offset: int, big: int, want: int, size: int)
    requires
        a > 0,
        a % 8 == 0,
        16 <= offset <= 8 + big,
        want >= 1,
        align_up(big + 8 + want, 8) <= size,
    ensures
        align_up(a + offset + want, 8) - a <= size,
        (align_up(a + offset + want, 8) - a) % 8 == 0,
        align_up(a + offset + want, 8) >= a + offset + want,
        align_up(a + offset + want, 8) < a + offset + want + 8,
        offset + want <= size,
{
}

/// An upper bound of what a layout takes of any block.
fn minimum_need(layout: Layout) -> (r: Option<usize>)
    requires
        layout.ok(),
    ensures
        r is Some,
        (if r->0 < 16 {
            16
        } else {
            r->0 as int
        }) == need_of(layout),
{
    proof {
        lemma_eight();
    }
    let align: usize = if layout.align >= BLOCK_ALIGN {
        layout.align
    } else {
        BLOCK_ALIGN
    };
    let size: usize = if layout.size >= 1 {
        layout.size
    } else {
        1
    };
    let offset: usize = match align.checked_add(BLOCK_ALIGN) {
        Some(offset) => offset,
        None => return None,
    };
    let end: usize = match offset.checked_add(size) {
        Some(end) => end,
        None => return None,
    };
    checked_align_up(end, BLOCK_ALIGN)
}

/// Every block of a list that fits is large enough.
proof fn lemma_list_fits(need: int, from: int, c: int, size: int)
    requires
        0 <= from <= c < 56,
        first_fitting(need, from / 4, from % 4, 4, 14),
        0 <= class_of(size) < 56,
        class_of(size) == c,
        in_class(size, c / 4, c % 4, 4),
    ensures
        size >= need,
{
    law_class_min_is_monotone((from / 4, from % 4), (c / 4, c % 4), 4);
}

impl Tlsf {
    /// The block that an allocation takes.
    pub open spec fn choice(self, layout: Layout) -> Option<int> {
        if self.ready() {
            first_of(self.free_lists(), fit_class(need_of(layout)))
        } else {
            None
        }
    }

    /// The first block of the first list of which every block has `size`.
    fn find_block(&self, size: usize, Ghost(mem): Ghost<Seq<u32>>) -> (r: Option<u32>)
        requires
            self.initialized,
            self.inv(mem),
            16 <= size,
        ensures
            match r {
                Some(block) => {
                    &&& first_of(self.chains@, fit_class(size as int)) == Some(block as int)
                    &&& self.blocks@.dom().contains(block as int)
                    &&& !self.blocks@[block as int].used
                    &&& self.blocks@[block as int].size >= size
                },
                None => first_of(self.chains@, fit_class(size as int)) is None,
            },
    {
        let ghost l = free_of(self.blocks@);
        let ghost chains = self.chains@;
        let ghost start = self.arena_start as int;
        proof {
            lemma2_to64();
            assert(chains.len() == 56) by {
                reveal(chains_ok);
            }
            assert forall|c: int| 0 <= c < 56 && (#[trigger] chains[c]).len() > 0 implies chains[c][0]
                != 0 by {
                lemma_chain_block(chains, l, mem, start, c, 0);
                assert(free_ok(mem, start, self.arena_end as int, chains[c][0], l[chains[c][0]]));
            }
        }
        let (fl, sl) = match tlsf_search_index(size, FL_MIN_LOG2, FL_COUNT) {
            Some(class) => class,
            None => {
                proof {
                    lemma_no_fit_class(size as int);
                }
                return None;
            },
        };
        let ghost from = fl * 4 + sl;
        proof {
            assert(from / 4 == fl && from % 4 == sl);
            lemma_fit_class(size as int, from);
        }
        let found = self.first_block(fl, sl);
        proof {
            match found {
                Some(block) => {
                    let c = choose|c: int|
                        #![trigger chains[c]]
                        from <= c < 56 && chains[c].len() > 0 && chains[c][0] == block && forall|
                            d: int,
                        |
                            from <= d < c ==> (#[trigger] chains[d]).len() == 0;
                    lemma_first_of(chains, from, c);
                    lemma_chain_block(chains, l, mem, start, c, 0);
                    let s = l[block as int];
                    assert(free_ok(mem, start, self.arena_end as int, block as int, s));
                    lemma_class_exists(s);
                    lemma_list_fits(size as int, from, c, s);
                },
                None => {
                    lemma_first_of(chains, from, 56);
                },
            }
        }
        found
    }
}

/// Every size of a block has a class.
proof fn lemma_class_exists(size: int)
    requires
        16 <= size < ARENA_LIMIT,
    ensures
        0 <= class_of(size) < 56,
        in_class(size, class_of(size) / 4, class_of(size) % 4, 4),
{
    lemma2_to64();
    let c = lemma_class_search(size, 0);
    assert(in_class(size, c / 4, c % 4, 4));
    lemma_class_of(size, c);
}

/// The class of a size, searched from class `c` on.
proof fn lemma_class_search(size: int, c: int) -> (r: int)
    requires
        0 <= c < 56,
        size < ARENA_LIMIT,
        class_min(c / 4, c % 4, 4) <= size,
    ensures
        0 <= r < 56,
        in_class(size, r / 4, r % 4, 4),
    decreases 56 - c,
{
    lemma2_to64();
    if size < class_min(c / 4, c % 4 + 1, 4) {
        c
    } else {
        if c % 4 < 3 {
            assert((c + 1) / 4 == c / 4 && (c + 1) % 4 == c % 4 + 1);
        } else {
            assert((c + 1) / 4 == c / 4 + 1 && (c + 1) % 4 == 0);
            vstd::arithmetic::power2::lemma_pow2_unfold((c / 4 + 3) as nat);
            assert(class_min(c / 4, 4, 4) == pow2((c / 4 + 2) as nat) * 8);
            assert(class_min(c / 4 + 1, 0, 4) == pow2((c / 4 + 3) as nat) * 4);
        }
        if c == 55 {
            assert(class_min(13, 4, 4) == pow2(15) * 8);
            assert(false);
            c
        } else {
            lemma_class_search(size, c + 1)
        }
    }
}

/// The payloads of all blocks in use, and the owner words before them, are
/// untouched.
pub open spec fn payloads_kept(
    m: Map<int, Piece>,
    before: Seq<u32>,
    after: Seq<u32>,
    start: int,
    end: int,
) -> bool {
    &&& after.len() == before.len()
    &&& forall|b: int, x: int|
        #![trigger m.dom().contains(b), word(after, start, x)]
        m.dom().contains(b) && m[b].used && spot(start, end, x) && m[b].payload - 4 <= x < b
            + m[b].size ==> word(after, start, x) == word(before, start, x)
}

proof fn lemma_links_keep_payloads(
    m: Map<int, Piece>,
    before: Seq<u32>,
    after: Seq<u32>,
    l: Map<int, int>,
    start: int,
    end: int,
)
    requires
        apart(m),
        sizes_ok(m, start, end),
        forall|b: int| #[trigger] m.dom().contains(b) && m[b].used ==> b + 16 <= m[b].payload,
        links_only(before, after, l, start, end),
        forall|x: int| #[trigger] l.dom().contains(x) ==> m.dom().contains(x) && !m[x].used,
    ensures
        payloads_kept(m, before, after, start, end),
{
    assert forall|b: int, x: int|
        #![trigger m.dom().contains(b), word(after, start, x)]
        m.dom().contains(b) && m[b].used && spot(start, end, x) && m[b].payload - 4 <= x < b
            + m[b].size implies word(after, start, x) == word(before, start, x) by {
        lemma_no_link(m, l, b, x);
    }
}

proof fn lemma_payload_places(m: Map<int, Piece>, mem: Seq<u32>, start: int, end: int)
    requires
        phys_ok(m, mem, start, end),
    ensures
        forall|b: int| #[trigger] m.dom().contains(b) && m[b].used ==> b + 16 <= m[b].payload,
{
    assert forall|b: int| #[trigger] m.dom().contains(b) && m[b].used implies b + 16
        <= m[b].payload by {
        lemma_piece(m, mem, start, end, b);
    }
}

/// Write the headers of a split.
#[verifier::spinoff_prover]
fn write_split(
    mem: &mut [u32],
    start: u32,
    end: u32,
    block: u32,
    size: u32,
    taken: u32,
    payload: u32,
    Ghost(m): Ghost<Map<int, Piece>>,
)
    requires
        bounds_ok(old(mem)@, start as int, end as int),
        m[block as int].size == size,
        seat(start as int, end as int, block as int),
        block + size <= end,
        size % 8 == 0,
        taken % 8 == 0,
        16 <= taken,
        taken + 16 <= size,
        block + 16 <= payload < block + taken,
        payload % 8 == 0,
    ensures
        split_words(
            old(mem)@,
            final(mem)@,
            m,
            start as int,
            end as int,
            block as int,
            taken as int,
            payload as int,
        ),
{
    let rest: u32 = size - taken;
    let second: u32 = block + taken;
    write_word(mem, start, payload - 4, block);
    let after: u32 = block + size;
    if after < end {
        write_word(mem, start, after + 4, rest);
    }
    write_word(mem, start, block, taken + 3);
    write_word(mem, start, second + 4, taken);
    write_word(mem, start, second, rest + 2);
}

/// Write the headers when a block is taken as a whole.
#[verifier::spinoff_prover]
fn write_take(
    mem: &mut [u32],
    start: u32,
    end: u32,
    block: u32,
    size: u32,
    payload: u32,
    Ghost(m): Ghost<Map<int, Piece>>,
)
    requires
        bounds_ok(old(mem)@, start as int, end as int),
        m[block as int].size == size,
        seat(start as int, end as int, block as int),
        block + size <= end,
        size % 8 == 0,
        block + 16 <= payload < block + size,
        payload % 8 == 0,
        block + size < end ==> word(old(mem)@, start as int, block + size) <= u32::MAX - 2,
    ensures
        take_words(
            old(mem)@,
            final(mem)@,
            m,
            start as int,
            end as int,
            block as int,
            payload as int,
        ),
{
    write_word(mem, start, payload - 4, block);
    let after: u32 = block + size;
    if after < end {
        let first: u32 = read_word(mem, start, after);
        write_word(mem, start, after, first + 2);
    }
    write_word(mem, start, block, size + 3);
}

/// Headers of a free block and of its neighbour are in no payload.
#[verifier::spinoff_prover]
proof fn lemma_split_keeps_payloads(
    m: Map<int, Piece>,
    before: Seq<u32>,
    after: Seq<u32>,
    start: int,
    end: int,
    a: int,
    size: int,
    payload: int,
)
    requires
        apart(m),
        sizes_ok(m, start, end),
        forall|b: int| #[trigger] m.dom().contains(b) && m[b].used ==> b + 16 <= m[b].payload,
        m.dom().contains(a),
        !m[a].used,
        a + 16 <= payload < a + size,
        size + 16 <= m[a].size,
        a + m[a].size < end ==> m.dom().contains(a + m[a].size),
        split_words(before, after, m, start, end, a, size, payload),
    ensures
        payloads_kept(m, before, after, start, end),
{
    assert forall|b: int, x: int|
        #![trigger m.dom().contains(b), word(after, start, x)]
        m.dom().contains(b) && m[b].used && spot(start, end, x) && m[b].payload - 4 <= x < b
            + m[b].size implies word(after, start, x) == word(before, start, x) by {
        assert(m.dom().contains(a));
        if a + m[a].size < end {
            assert(m.dom().contains(a + m[a].size));
        }
    }
}

#[verifier::spinoff_prover]
proof fn lemma_take_keeps_payloads(
    m: Map<int, Piece>,
    before: Seq<u32>,
    after: Seq<u32>,
    start: int,
    end: int,
    a: int,
    payload: int,
)
    requires
        apart(m),
        sizes_ok(m, start, end),
        forall|b: int| #[trigger] m.dom().contains(b) && m[b].used ==> b + 16 <= m[b].payload,
        m.dom().contains(a),
        !m[a].used,
        a + 16 <= payload < a + m[a].size,
        a + m[a].size < end ==> m.dom().contains(a + m[a].size),
        take_words(before, after, m, start, end, a, payload),
    ensures
        payloads_kept(m, before, after, start, end),
{
    assert forall|b: int, x: int|
        #![trigger m.dom().contains(b), word(after, start, x)]
        m.dom().contains(b) && m[b].used && spot(start, end, x) && m[b].payload - 4 <= x < b
            + m[b].size implies word(after, start, x) == word(before, start, x) by {
        assert(m.dom().contains(a));
        if a + m[a].size < end {
            assert(m.dom().contains(a + m[a].size));
        }
    }
}

impl Tlsf {
    /// Take over the blocks that the lists and the arena now show.
    fn settle(&mut self, free_bytes: u32, Ghost(m): Ghost<Map<int, Piece>>, Ghost(mem): Ghost<
        Seq<u32>,
    >)
        requires
            old(self).initialized,
            phys_ok(m, mem, old(self).arena_start as int, old(self).arena_end as int),
            old(self).lists_ok(free_of(m), mem),
            free_bytes == free_from(m, old(self).arena_start as int, old(self).arena_end as int),
        ensures
            final(self).inv(mem),
            final(self).initialized,
            final(self).arena_start == old(self).arena_start,
            final(self).arena_end == old(self).arena_end,
            final(self).blocks@ == m,
            final(self).chains == old(self).chains,
    {
        reveal(Tlsf::heads_ok);
        self.free_bytes = free_bytes;
        self.blocks = Ghost(m);
    }

    /// Allocate `layout`, if there is room.
    ///
    /// The block is the first of the first list of which every block is large
    /// enough. What it has to spare stays a free block.
    #[verifier::spinoff_prover]
    #[verifier::rlimit(60)]
    pub fn allocate(&mut self, mem: &mut [u32], layout: Layout) -> (r: Option<u32>)
        requires
            old(self).inv(old(mem)@),
            layout.ok(),
        ensures
            final(self).inv(final(mem)@),
            final(self).ready() == old(self).ready(),
            final(self).start() == old(self).start(),
            final(self).end() == old(self).end(),
            match r {
                None => {
                    &&& old(self).choice(layout) is None
                    &&& *final(self) == *old(self)
                    &&& final(mem)@ == old(mem)@
                },
                Some(payload) => {
                    let a = old(self).choice(layout)->0;
                    &&& old(self).choice(layout) is Some
                    &&& old(self).map().dom().contains(a)
                    &&& !old(self).map()[a].used
                    &&& placement(a, layout, 8, 4, 0, 8) is Some
                    &&& payload == placement(a, layout, 8, 4, 0, 8).unwrap().0
                    &&& placement(a, layout, 8, 4, 0, 8).unwrap().1 <= old(self).map()[a].size
                    &&& final(self).map() == placed_map(old(self).map(), a, layout)
                    &&& payloads_kept(
                        old(self).map(),
                        old(mem)@,
                        final(mem)@,
                        old(self).start(),
                        old(self).end(),
                    )
                },
            },
    {
        if !self.initialized {
            return None;
        }
        let ghost before = mem@;
        let ghost m = self.blocks@;
        let ghost l = free_of(m);
        let start: u32 = self.arena_start;
        let end: u32 = self.arena_end;
        let need: usize = match minimum_need(layout) {
            Some(need) => if need < MIN_BLOCK as usize {
                MIN_BLOCK as usize
            } else {
                need
            },
            None => return None,
        };
        let block: u32 = match self.find_block(need, Ghost(before)) {
            Some(block) => block,
            None => return None,
        };
        let ghost a = block as int;
        proof {
            assert(piece_ok(m, before, start as int, end as int, a));
            lemma_piece(m, before, start as int, end as int, a);
            lemma_neighbours(m, before, start as int, end as int, a);
            lemma_sizes(m, before, start as int, end as int);
            lemma_payload_places(m, before, start as int, end as int);
            lemma_need_covers(a, layout, m[a].size, end as int);
            lemma_free_bound(m, start as int, end as int);
        }
        let first: u32 = read_word(mem, start, block);
        let size: u32 = first - first % 4;
        assert(size == m[a].size);
        let plan = match allocation_plan(
            block as usize,
            size as usize,
            layout,
            HEADER,
            PREFIX,
            0,
            BLOCK_ALIGN,
        ) {
            Some(plan) => plan,
            None => {
                assert(false);
                return None;
            },
        };
        let payload: u32 = plan.payload as u32;
        let taken: u32 = plan.block_size as u32;
        self.list_remove(mem, block, Ghost(l));
        let ghost l1 = l.remove(a);
        let ghost mem1 = mem@;
        proof {
            lemma_links_keep_phys(m, before, mem1, l, start as int, end as int);
            lemma_links_keep_payloads(m, before, mem1, l, start as int, end as int);
        }
        if size - taken >= MIN_BLOCK {
            write_split(mem, start, end, block, size, taken, payload, Ghost(m));
            let ghost mem2 = mem@;
            let ghost m2 = split_map(m, a, taken as int, payload as int);
            proof {
                lemma_split_phys(
                    m,
                    mem1,
                    mem2,
                    start as int,
                    end as int,
                    a,
                    taken as int,
                    payload as int,
                );
                lemma_split_keeps_payloads(
                    m,
                    mem1,
                    mem2,
                    start as int,
                    end as int,
                    a,
                    taken as int,
                    payload as int,
                );
                self.lemma_split_lists(
                    m,
                    mem1,
                    mem2,
                    a,
                    taken as int,
                    payload as int,
                );
            }
            self.list_insert(mem, block + taken, Ghost(l1), Ghost(size - taken));
            proof {
                let l2 = l1.insert(a + taken, size - taken);
                lemma_sizes(m2, mem2, start as int, end as int);
                lemma_payload_places(m2, mem2, start as int, end as int);
                lemma_links_keep_phys(m2, mem2, mem@, l2, start as int, end as int);
                lemma_links_keep_payloads(m2, mem2, mem@, l2, start as int, end as int);
                lemma_payloads_through(m, m2, before, mem1, mem2, mem@, start as int, end as int);
                lemma_free_bound(m2, start as int, end as int);
            }
            self.settle(self.free_bytes - taken, Ghost(m2), Ghost(mem@));
        } else {
            proof {
                if a + size < end {
                    assert(piece_ok(m, mem1, start as int, end as int, a + size));
                    lemma_piece(m, mem1, start as int, end as int, a + size);
                }
            }
            write_take(mem, start, end, block, size, payload, Ghost(m));
            let ghost m2 = take_map(m, a, payload as int);
            proof {
                lemma_take_phys(
                    m,
                    mem1,
                    mem@,
                    start as int,
                    end as int,
                    a,
                    payload as int,
                );
                lemma_take_keeps_payloads(
                    m,
                    mem1,
                    mem@,
                    start as int,
                    end as int,
                    a,
                    payload as int,
                );
                self.lemma_take_lists(m, mem1, mem@, a, payload as int);
                lemma_free_bound(m2, start as int, end as int);
            }
            self.settle(self.free_bytes - size, Ghost(m2), Ghost(mem@));
        }
        Some(payload)
    }

    /// The lists after the words of a split.
    #[verifier::spinoff_prover]
    #[verifier::rlimit(40)]
    proof fn lemma_split_lists(
        self,
        m: Map<int, Piece>,
        before: Seq<u32>,
        after: Seq<u32>,
        a: int,
        size: int,
        payload: int,
    )
        requires
            self.lists_ok(free_of(m).remove(a), before),
            phys_ok(m, before, self.arena_start as int, self.arena_end as int),
            m.dom().contains(a),
            !m[a].used,
            size % 8 == 0,
            16 <= size,
            size + 16 <= m[a].size,
            a + 16 <= payload < a + size,
            payload % 8 == 0,
            split_words(
                before,
                after,
                m,
                self.arena_start as int,
                self.arena_end as int,
                a,
                size,
                payload,
            ),
        ensures
            self.lists_ok(free_of(m).remove(a), after),
            !free_of(m).remove(a).dom().contains(a + size),
            spread(free_of(m).remove(a).insert(a + size, m[a].size - size)),
            free_ok(
                after,
                self.arena_start as int,
                self.arena_end as int,
                a + size,
                m[a].size - size,
            ),
    {
        let start = self.arena_start as int;
        let end = self.arena_end as int;
        let l = free_of(m).remove(a);
        let n = a + size;
        lemma_sizes(m, before, start, end);
        assert(piece_ok(m, before, start, end, a));
        lemma_neighbours(m, before, start, end, a);
        assert forall|x: int| #[trigger] l.dom().contains(x) implies word(after, start, x) == word(
            before,
            start,
            x,
        ) && word(after, start, x + 8) == word(before, start, x + 8) && word(after, start, x + 12)
            == word(before, start, x + 12) by {
            assert(m.dom().contains(x) && m.dom().contains(a));
            assert(spot(start, end, x) && spot(start, end, x + 8) && spot(start, end, x + 12));
            if a + m[a].size < end {
                assert(m.dom().contains(a + m[a].size));
            }
        }
        self.lemma_lists_frame(l, before, after);
        if l.dom().contains(n) {
            assert(m.dom().contains(n) && m.dom().contains(a));
        }
        let l2 = l.insert(n, m[a].size - size);
        assert forall|x: int, y: int|
            #![trigger l2.dom().contains(x), l2.dom().contains(y)]
            l2.dom().contains(x) && l2.dom().contains(y) && x < y implies x + 16 <= y by {
            assert(x != n ==> m.dom().contains(x));
            assert(y != n ==> m.dom().contains(y));
            assert(m.dom().contains(a));
        }
        assert(spot(start, end, n));
    }

    /// The lists after the words of taking a block as a whole.
    #[verifier::spinoff_prover]
    #[verifier::rlimit(40)]
    proof fn lemma_take_lists(
        self,
        m: Map<int, Piece>,
        before: Seq<u32>,
        after: Seq<u32>,
        a: int,
        payload: int,
    )
        requires
            self.lists_ok(free_of(m).remove(a), before),
            phys_ok(m, before, self.arena_start as int, self.arena_end as int),
            m.dom().contains(a),
            !m[a].used,
            a + 16 <= payload < a + m[a].size,
            payload % 8 == 0,
            take_words(
                before,
                after,
                m,
                self.arena_start as int,
                self.arena_end as int,
                a,
                payload,
            ),
        ensures
            self.lists_ok(free_of(m).remove(a), after),
    {
        let start = self.arena_start as int;
        let end = self.arena_end as int;
        let l = free_of(m).remove(a);
        let last = a + m[a].size;
        lemma_sizes(m, before, start, end);
        assert(piece_ok(m, before, start, end, a));
        lemma_neighbours(m, before, start, end, a);
        if last < end {
            assert(piece_ok(m, before, start, end, last));
            lemma_piece(m, before, start, end, last);
        }
        assert forall|x: int| #[trigger] l.dom().contains(x) implies word(after, start, x) == word(
            before,
            start,
            x,
        ) && word(after, start, x + 8) == word(before, start, x + 8) && word(after, start, x + 12)
            == word(before, start, x + 12) by {
            assert(m.dom().contains(x) && m.dom().contains(a));
            assert(spot(start, end, x) && spot(start, end, x + 8) && spot(start, end, x + 12));
            if last < end {
                assert(m.dom().contains(last));
                assert(m[last].used);
            }
        }
        self.lemma_lists_frame(l, before, after);
    }
}

/// Payloads that were untouched by each step are untouched by all of them.
proof fn lemma_payloads_through(
    m: Map<int, Piece>,
    m2: Map<int, Piece>,
    mem0: Seq<u32>,
    mem1: Seq<u32>,
    mem2: Seq<u32>,
    mem3: Seq<u32>,
    start: int,
    end: int,
)
    requires
        payloads_kept(m, mem0, mem1, start, end),
        payloads_kept(m, mem1, mem2, start, end),
        payloads_kept(m2, mem2, mem3, start, end),
        forall|b: int|
            #[trigger] m.dom().contains(b) && m[b].used ==> m2.dom().contains(b) && m2[b].used
                && m2[b].payload == m[b].payload && m2[b].size == m[b].size,
    ensures
        payloads_kept(m, mem0, mem3, start, end),
{
    assert forall|b: int, x: int|
        #![trigger m.dom().contains(b), word(mem3, start, x)]
        m.dom().contains(b) && m[b].used && spot(start, end, x) && m[b].payload - 4 <= x < b
            + m[b].size implies word(mem3, start, x) == word(mem0, start, x) by {
        assert(m2.dom().contains(b));
        assert(word(mem3, start, x) == word(mem2, start, x));
        assert(word(mem2, start, x) == word(mem1, start, x));
        assert(word(mem1, start, x) == word(mem0, start, x));
    }
}

// ---------------------------------------------------------------------------
// Freeing
// ---------------------------------------------------------------------------

/// Where the free block starts that comes of freeing `a`.
pub open spec fn merge_start(m: Map<int, Piece>, a: int) -> int {
    if m[a].prev_used {
        a
    } else {
        a - m[a].prev_size
    }
}

/// Where the free block ends that comes of freeing `a`.
pub open spec fn merge_end(m: Map<int, Piece>, a: int) -> int {
    let n = a + m[a].size;
    if m.dom().contains(n) && !m[n].used {
        n + m[n].size
    } else {
        n
    }
}

/// The blocks after block `a` was freed and merged with its free neighbours.
pub open spec fn merged_map(m: Map<int, Piece>, a: int) -> Map<int, Piece> {
    let s = merge_start(m, a);
    let n = a + m[a].size;
    let e = merge_end(m, a);
    let m1 = if s != a {
        m.remove(a)
    } else {
        m
    };
    let m2 = if e != n {
        m1.remove(n)
    } else {
        m1
    };
    let m3 = m2.insert(
        s,
        Piece {
            size: e - s,
            used: false,
            prev_used: true,
            prev_size: m[s].prev_size,
            payload: 0,
        },
    );
    if m.dom().contains(e) {
        m3.insert(e, Piece { prev_size: e - s, prev_used: false, ..m[e] })
    } else {
        m3
    }
}

/// The words after a block was freed.
spec fn merge_words(
    before: Seq<u32>,
    after: Seq<u32>,
    m: Map<int, Piece>,
    start: int,
    end: int,
    s: int,
    e: int,
) -> bool {
    &&& after.len() == before.len()
    &&& forall|x: int|
        spot(start, end, x) ==> #[trigger] word(after, start, x) == (if x == s {
            e - s + 2
        } else if e < end && x == e {
            flags(Piece { prev_used: false, ..m[e] })
        } else if e < end && x == e + 4 {
            e - s
        } else {
            word(before, start, x)
        })
}

/// What freeing a block needs to know of the blocks around it.
spec fn merge_facts(m: Map<int, Piece>, mem: Seq<u32>, start: int, end: int, a: int) -> bool {
    let s = merge_start(m, a);
    let n = a + m[a].size;
    let e = merge_end(m, a);
    &&& m.dom().contains(a)
    &&& m[a].used
    &&& piece_ok(m, mem, start, end, a)
    &&& m.dom().contains(s)
    &&& piece_ok(m, mem, start, end, s)
    &&& s != a ==> !m[s].used && s + m[s].size == a
    &&& m[s].prev_used
    &&& n < end ==> m.dom().contains(n) && piece_ok(m, mem, start, end, n)
    &&& e < end ==> m.dom().contains(e) && piece_ok(m, mem, start, end, e) && m[e].used
    &&& e == end ==> !m.dom().contains(e)
    &&& n == end ==> !m.dom().contains(n)
    &&& e <= end
    &&& n <= e
    &&& s <= a
}

proof fn lemma_merge_facts(m: Map<int, Piece>, mem: Seq<u32>, start: int, end: int, a: int)
    requires
        phys_ok(m, mem, start, end),
        m.dom().contains(a),
        m[a].used,
    ensures
        merge_facts(m, mem, start, end, a),
{
    let s = merge_start(m, a);
    let n = a + m[a].size;
    let e = merge_end(m, a);
    lemma_sizes(m, mem, start, end);
    assert(piece_ok(m, mem, start, end, a));
    lemma_piece(m, mem, start, end, a);
    lemma_neighbours(m, mem, start, end, a);
    assert(m.dom().contains(s));
    assert(piece_ok(m, mem, start, end, s));
    lemma_piece(m, mem, start, end, s);
    if n < end {
        assert(m.dom().contains(n));
        assert(piece_ok(m, mem, start, end, n));
        lemma_piece(m, mem, start, end, n);
        lemma_neighbours(m, mem, start, end, n);
    } else if m.dom().contains(n) {
        assert(m[n].size >= 16);
    }
    if e < end {
        assert(m.dom().contains(e));
        assert(piece_ok(m, mem, start, end, e));
        lemma_piece(m, mem, start, end, e);
    } else if m.dom().contains(e) {
        assert(m[e].size >= 16);
    }
}

/// One block of the arena after a block was freed.
#[verifier::spinoff_prover]
#[verifier::rlimit(80)]
proof fn lemma_merge_piece(
    m: Map<int, Piece>,
    before: Seq<u32>,
    after: Seq<u32>,
    start: int,
    end: int,
    a: int,
    b: int,
)
    requires
        apart(m),
        sizes_ok(m, start, end),
        merge_facts(m, before, start, end, a),
        m.dom().contains(b),
        piece_ok(m, before, start, end, b),
        merged_map(m, a).dom().contains(b),
        merge_words(before, after, m, start, end, merge_start(m, a), merge_end(m, a)),
        start % 8 == 0,
    ensures
        piece_ok(merged_map(m, a), after, start, end, b),
{
    reveal(piece_ok);
    let s = merge_start(m, a);
    let n = a + m[a].size;
    let e = merge_end(m, a);
    assert(spot(start, end, b) && spot(start, end, b + 4));
    assert(m.dom().contains(a) && m.dom().contains(s));
    if m[b].used {
        assert(spot(start, end, m[b].payload - 4));
    }
    if e < end {
        assert(m.dom().contains(e));
    }
    if n < end {
        assert(m.dom().contains(n));
    }
}

/// The arena after a block was freed.
#[verifier::spinoff_prover]
#[verifier::rlimit(40)]
proof fn lemma_merge_phys(
    m: Map<int, Piece>,
    before: Seq<u32>,
    after: Seq<u32>,
    start: int,
    end: int,
    a: int,
)
    requires
        phys_ok(m, before, start, end),
        m.dom().contains(a),
        m[a].used,
        merge_words(before, after, m, start, end, merge_start(m, a), merge_end(m, a)),
    ensures
        phys_ok(merged_map(m, a), after, start, end),
        free_from(merged_map(m, a), start, end) == free_from(m, start, end) + m[a].size,
{
    let m2 = merged_map(m, a);
    let s = merge_start(m, a);
    let n = a + m[a].size;
    let e = merge_end(m, a);
    lemma_sizes(m, before, start, end);
    lemma_merge_facts(m, before, start, end, a);
    assert forall|b: int| #[trigger] m2.dom().contains(b) implies piece_ok(
        m2,
        after,
        start,
        end,
        b,
    ) by {
        assert(m.dom().contains(b));
        assert(piece_ok(m, before, start, end, b));
        lemma_merge_piece(m, before, after, start, end, a, b);
    }
    assert(apart(m2)) by {
        assert forall|x: int, y: int|
            #![trigger m2.dom().contains(x), m2.dom().contains(y)]
            m2.dom().contains(x) && m2.dom().contains(y) && x < y implies x + m2[x].size <= y by {
            assert(m.dom().contains(x) && m.dom().contains(y));
            assert(m.dom().contains(a));
            if e != n {
                assert(m.dom().contains(n));
            }
        }
    }
    assert(free_from(m2, e, end) == free_from(m, e, end)) by {
        assert forall|x: int|
            #![trigger m2.dom().contains(x)]
            #![trigger m.dom().contains(x)]
            x >= e implies m2.dom().contains(x) == m.dom().contains(x) && m2[x].size == m[x].size
            && m2[x].used == m[x].used by {}
        lemma_free_same(m2, m, e, end);
    }
    assert(free_from(m2, s, end) == e - s + free_from(m2, e, end));
    assert(free_from(m, a, end) == free_from(m, n, end));
    if e != n {
        assert(free_from(m, n, end) == m[n].size + free_from(m, e, end));
    }
    if s != a {
        assert(free_from(m, s, end) == m[s].size + free_from(m, a, end));
    }
    assert(m.dom().contains(start)) by {
        if end - start < 16 {
            assert(m[a].size >= 16);
        }
    }
    assert forall|y: int| y < s && #[trigger] m.dom().contains(y) implies m2.dom().contains(y)
        && m2[y].size == m[y].size && m2[y].used == m[y].used by {
        assert(m.dom().contains(a));
    }
    lemma_free_diff(m, m2, before, start, start, s, end, m[a].size);
}

/// The free blocks around a block that is being freed.
pub open spec fn others_free(m: Map<int, Piece>, a: int) -> Map<int, int> {
    let s = merge_start(m, a);
    let n = a + m[a].size;
    let l1 = if s != a {
        free_of(m).remove(s)
    } else {
        free_of(m)
    };
    if merge_end(m, a) != n {
        l1.remove(n)
    } else {
        l1
    }
}

/// The free blocks after a block was freed.
#[verifier::spinoff_prover]
#[verifier::rlimit(40)]
proof fn lemma_merge_free(m: Map<int, Piece>, mem: Seq<u32>, start: int, end: int, a: int)
    requires
        phys_ok(m, mem, start, end),
        m.dom().contains(a),
        m[a].used,
    ensures
        free_of(merged_map(m, a)) == others_free(m, a).insert(
            merge_start(m, a),
            merge_end(m, a) - merge_start(m, a),
        ),
        !others_free(m, a).dom().contains(merge_start(m, a)),
        spread(
            others_free(m, a).insert(
                merge_start(m, a),
                merge_end(m, a) - merge_start(m, a),
            ),
        ),
{
    let s = merge_start(m, a);
    let n = a + m[a].size;
    let e = merge_end(m, a);
    let m2 = merged_map(m, a);
    let l2 = others_free(m, a).insert(s, e - s);
    lemma_sizes(m, mem, start, end);
    lemma_merge_facts(m, mem, start, end, a);
    assert forall|x: int| free_of(m2).dom().contains(x) == l2.dom().contains(x) by {
        if m.dom().contains(e) {
            assert(m2[e].used);
        }
    }
    assert forall|x: int| #[trigger] l2.dom().contains(x) implies free_of(m2)[x] == l2[x] by {}
    assert(free_of(m2) =~= l2);
    assert forall|x: int, y: int|
        #![trigger l2.dom().contains(x), l2.dom().contains(y)]
        l2.dom().contains(x) && l2.dom().contains(y) && x < y implies x + 16 <= y by {
        assert(m.dom().contains(x) && m.dom().contains(y));
    }
}

impl Tlsf {
    /// The lists after the words of a merge.
    #[verifier::spinoff_prover]
    #[verifier::rlimit(40)]
    proof fn lemma_merge_lists(
        self,
        m: Map<int, Piece>,
        before: Seq<u32>,
        after: Seq<u32>,
        a: int,
    )
        requires
            self.lists_ok(others_free(m, a), before),
            phys_ok(m, before, self.arena_start as int, self.arena_end as int),
            m.dom().contains(a),
            m[a].used,
            merge_words(
                before,
                after,
                m,
                self.arena_start as int,
                self.arena_end as int,
                merge_start(m, a),
                merge_end(m, a),
            ),
        ensures
            self.lists_ok(others_free(m, a), after),
            free_ok(
                after,
                self.arena_start as int,
                self.arena_end as int,
                merge_start(m, a),
                merge_end(m, a) - merge_start(m, a),
            ),
    {
        let start = self.arena_start as int;
        let end = self.arena_end as int;
        let s = merge_start(m, a);
        let n = a + m[a].size;
        let e = merge_end(m, a);
        let l = others_free(m, a);
        lemma_sizes(m, before, start, end);
        lemma_merge_facts(m, before, start, end, a);
        assert forall|x: int| #[trigger] l.dom().contains(x) implies word(after, start, x) == word(
            before,
            start,
            x,
        ) && word(after, start, x + 8) == word(before, start, x + 8) && word(after, start, x + 12)
            == word(before, start, x + 12) by {
            assert(m.dom().contains(x) && !m[x].used);
            assert(m.dom().contains(a) && m.dom().contains(s));
            assert(spot(start, end, x) && spot(start, end, x + 8) && spot(start, end, x + 12));
            if e < end {
                assert(m.dom().contains(e));
            }
        }
        self.lemma_lists_frame(l, before, after);
        assert(spot(start, end, s));
    }
}

/// Headers of free blocks and of their neighbours are in no payload.
#[verifier::spinoff_prover]
#[verifier::rlimit(40)]
proof fn lemma_merge_keeps_payloads(
    m: Map<int, Piece>,
    before: Seq<u32>,
    after: Seq<u32>,
    start: int,
    end: int,
    a: int,
)
    requires
        phys_ok(m, before, start, end),
        m.dom().contains(a),
        m[a].used,
        merge_words(before, after, m, start, end, merge_start(m, a), merge_end(m, a)),
    ensures
        payloads_kept(m.remove(a), before, after, start, end),
{
    let s = merge_start(m, a);
    let e = merge_end(m, a);
    let m1 = m.remove(a);
    lemma_sizes(m, before, start, end);
    lemma_payload_places(m, before, start, end);
    lemma_merge_facts(m, before, start, end, a);
    assert forall|b: int, x: int|
        #![trigger m1.dom().contains(b), word(after, start, x)]
        m1.dom().contains(b) && m1[b].used && spot(start, end, x) && m1[b].payload - 4 <= x < b
            + m1[b].size implies word(after, start, x) == word(before, start, x) by {
        assert(m.dom().contains(b) && m.dom().contains(a) && m.dom().contains(s));
        if e < end {
            assert(m.dom().contains(e));
        }
    }
}

/// Write the headers of a merge.
#[verifier::spinoff_prover]
fn write_merge(
    mem: &mut [u32],
    start: u32,
    end: u32,
    block: u32,
    after: u32,
    Ghost(m): Ghost<Map<int, Piece>>,
)
    requires
        bounds_ok(old(mem)@, start as int, end as int),
        seat(start as int, end as int, block as int),
        block + 16 <= after <= end,
        after % 8 == 0,
        after < end ==> after + 16 <= end && word(old(mem)@, start as int, after as int) == flags(
            m[after as int],
        ) && m[after as int].size % 8 == 0 && m[after as int].size >= 0,
    ensures
        merge_words(
            old(mem)@,
            final(mem)@,
            m,
            start as int,
            end as int,
            block as int,
            after as int,
        ),
{
    let size: u32 = after - block;
    if after < end {
        let first: u32 = read_word(mem, start, after);
        let cleared: u32 = if (first / 2) % 2 == 1 {
            first - 2
        } else {
            first
        };
        write_word(mem, start, after, cleared);
        write_word(mem, start, after + 4, size);
    }
    write_word(mem, start, block, size + 2);
}

impl Tlsf {
    /// The block that a payload belongs to.
    pub open spec fn owner(self, payload: int) -> int {
        choose|a: int|
            #[trigger] self.map().dom().contains(a) && self.map()[a].used && self.map()[a].payload
                == payload
    }

    /// The payload was handed out and not freed since.
    pub open spec fn live(self, payload: int) -> bool {
        self.ready() && exists|a: int|
            #[trigger] self.map().dom().contains(a) && self.map()[a].used && self.map()[a].payload
                == payload
    }

    /// Free a payload that [`Tlsf::allocate`] handed out.
    ///
    /// The block is merged with the free blocks beside it.
    #[verifier::spinoff_prover]
    #[verifier::rlimit(80)]
    pub fn dealloc(&mut self, mem: &mut [u32], payload: u32)
        requires
            old(self).inv(old(mem)@),
            old(self).live(payload as int),
        ensures
            final(self).inv(final(mem)@),
            final(self).ready(),
            final(self).start() == old(self).start(),
            final(self).end() == old(self).end(),
            final(self).map() == merged_map(old(self).map(), old(self).owner(payload as int)),
            payloads_kept(
                old(self).map().remove(old(self).owner(payload as int)),
                old(mem)@,
                final(mem)@,
                old(self).start(),
                old(self).end(),
            ),
    {
        let ghost before = mem@;
        let ghost m = self.blocks@;
        let ghost a = self.owner(payload as int);
        let ghost gs = self.arena_start as int;
        let ghost ge = self.arena_end as int;
        let start: u32 = self.arena_start;
        let end: u32 = self.arena_end;
        proof {
            assert(m.dom().contains(a) && m[a].used && m[a].payload == payload);
            assert(piece_ok(m, before, gs, ge, a));
            lemma_piece(m, before, gs, ge, a);
            lemma_sizes(m, before, gs, ge);
            lemma_payload_places(m, before, gs, ge);
            lemma_merge_facts(m, before, gs, ge, a);
            lemma_merge_free(m, before, gs, ge, a);
            lemma_free_bound(m, gs, ge);
        }
        let owner: u32 = read_word(mem, start, payload - 4);
        assert(owner == a);
        let first: u32 = read_word(mem, start, owner);
        let size: u32 = first - first % 4;
        let mut block: u32 = owner;
        let ghost mut l = free_of(m);
        let ghost mut l0 = free_of(m);
        if (first / 2) % 2 == 0 {
            let prev_size: u32 = read_word(mem, start, owner + 4);
            block = owner - prev_size;
            self.list_remove(mem, block, Ghost(l));
            proof {
                lemma_links_keep_phys(m, before, mem@, l, gs, ge);
                lemma_links_keep_payloads(m, before, mem@, l, gs, ge);
                l = l.remove(block as int);
            }
        }
        let ghost mem1 = mem@;
        assert(block == merge_start(m, a));
        assert(payloads_kept(m, before, mem1, gs, ge));
        let next: u32 = owner + size;
        let mut after: u32 = next;
        if next < end {
            proof {
                lemma_merge_facts(m, mem1, gs, ge, a);
                lemma_piece(m, mem1, gs, ge, next as int);
            }
            let next_first: u32 = read_word(mem, start, next);
            if next_first % 2 == 0 {
                let next_size: u32 = next_first - next_first % 4;
                after = next + next_size;
                self.list_remove(mem, next, Ghost(l));
                proof {
                    lemma_links_keep_phys(m, mem1, mem@, l, gs, ge);
                    lemma_links_keep_payloads(m, mem1, mem@, l, gs, ge);
                    l = l.remove(next as int);
                }
            }
        }
        let ghost mem2 = mem@;
        assert(after == merge_end(m, a));
        assert(l == others_free(m, a));
        proof {
            lemma_merge_facts(m, mem2, gs, ge, a);
            lemma_piece(m, mem2, gs, ge, a);
            lemma_piece(m, mem2, gs, ge, block as int);
            if after < end {
                lemma_piece(m, mem2, gs, ge, after as int);
            }
        }
        write_merge(mem, start, end, block, after, Ghost(m));
        let ghost mem3 = mem@;
        let ghost m2 = merged_map(m, a);
        proof {
            lemma_merge_phys(m, mem2, mem3, gs, ge, a);
            lemma_merge_keeps_payloads(m, mem2, mem3, gs, ge, a);
            self.lemma_merge_lists(m, mem2, mem3, a);
        }
        self.list_insert(mem, block, Ghost(l), Ghost(after - block));
        proof {
            let l2 = l.insert(block as int, after - block);
            lemma_links_keep_phys(m2, mem3, mem@, l2, gs, ge);
            lemma_sizes(m2, mem3, gs, ge);
            lemma_payload_places(m2, mem3, gs, ge);
            lemma_links_keep_payloads(m2, mem3, mem@, l2, gs, ge);
            lemma_free_bound(m2, gs, ge);
            lemma_freed_payloads(m, m2, a, before, mem1, mem2, mem3, mem@, gs, ge);
        }
        self.settle(self.free_bytes + size, Ghost(m2), Ghost(mem@));
    }

    /// Bytes in use, metadata among them; zero without an arena.
    pub fn used(&self) -> (r: u32)
        requires
            exists|mem: Seq<u32>| #[trigger] self.inv(mem),
        ensures
            r == (if self.ready() {
                self.end() - self.start() - free_from(self.map(), self.start(), self.end())
            } else {
                0
            }),
    {
        if !self.initialized {
            return 0;
        }
        proof {
            lemma_free_bound(self.blocks@, self.arena_start as int, self.arena_end as int);
        }
        self.arena_end - self.arena_start - self.free_bytes
    }
}

/// Payloads of other blocks are untouched by freeing `a`.
#[verifier::spinoff_prover]
proof fn lemma_freed_payloads(
    m: Map<int, Piece>,
    m2: Map<int, Piece>,
    a: int,
    mem0: Seq<u32>,
    mem1: Seq<u32>,
    mem2: Seq<u32>,
    mem3: Seq<u32>,
    mem4: Seq<u32>,
    start: int,
    end: int,
)
    requires
        payloads_kept(m, mem0, mem1, start, end),
        payloads_kept(m, mem1, mem2, start, end),
        payloads_kept(m.remove(a), mem2, mem3, start, end),
        payloads_kept(m2, mem3, mem4, start, end),
        apart(m),
        m.dom().contains(a),
        m[a].used,
        m[a].size >= 16,
        m2 == merged_map(m, a),
        !m[a].prev_used ==> m.dom().contains(merge_start(m, a)) && !m[merge_start(m, a)].used,
        merge_end(m, a) != a + m[a].size ==> !m[a + m[a].size].used,
    ensures
        payloads_kept(m.remove(a), mem0, mem4, start, end),
{
    let m1 = m.remove(a);
    assert forall|b: int, x: int|
        #![trigger m1.dom().contains(b), word(mem4, start, x)]
        m1.dom().contains(b) && m1[b].used && spot(start, end, x) && m1[b].payload - 4 <= x < b
            + m1[b].size implies word(mem4, start, x) == word(mem0, start, x) by {
        assert(m.dom().contains(b));
        assert(m2.dom().contains(b) && m2[b].used && m2[b].payload == m[b].payload && m2[b].size
            == m[b].size);
        assert(word(mem4, start, x) == word(mem3, start, x));
        assert(word(mem3, start, x) == word(mem2, start, x));
        assert(word(mem2, start, x) == word(mem1, start, x));
        assert(word(mem1, start, x) == word(mem0, start, x));
    }
}

/// `size` is that of the largest free block, zero if there is none.
pub open spec fn is_largest(m: Map<int, Piece>, size: int) -> bool {
    &&& forall|a: int| #[trigger] m.dom().contains(a) && !m[a].used ==> m[a].size <= size
    &&& size == 0 || exists|a: int|
        #[trigger] m.dom().contains(a) && !m[a].used && m[a].size == size
}

/// `size` is the largest in the first lists from `from` on, up to `to`.
spec fn largest_in(
    chains: Seq<Seq<int>>,
    l: Map<int, int>,
    from: int,
    to: int,
    size: int,
) -> bool {
    &&& forall|c: int, i: int|
        #![trigger chains[c][i]]
        from <= c < to && 0 <= i < chains[c].len() ==> l[chains[c][i]] <= size
    &&& size == 0 || exists|a: int| #[trigger] l.dom().contains(a) && l[a] == size
}

impl Tlsf {
    /// The size of the block at position `i` of a list, and the block behind it.
    #[verifier::spinoff_prover]
    fn block_at(
        &self,
        mem: &[u32],
        block: u32,
        Ghost(l): Ghost<Map<int, int>>,
        Ghost(c): Ghost<int>,
        Ghost(i): Ghost<int>,
    ) -> (r: (u32, u32))
        requires
            self.lists_ok(l, mem@),
            0 <= c < 56,
            0 <= i < self.chains@[c].len(),
            block == self.chains@[c][i],
        ensures
            l.dom().contains(block as int),
            r.0 == l[block as int],
            r.0 >= 16,
            r.1 == (if i + 1 < self.chains@[c].len() {
                self.chains@[c][i + 1]
            } else {
                0
            }),
    {
        proof {
            let start = self.arena_start as int;
            lemma_chain_block(self.chains@, l, mem@, start, c, i);
            lemma_links(mem@, start, self.chains@[c], i);
            assert(free_ok(mem@, start, self.arena_end as int, block as int, l[block as int]));
        }
        let first: u32 = read_word(mem, self.arena_start, block);
        let next: u32 = read_word(mem, self.arena_start, block + 8);
        (first - first % 4, next)
    }

    /// The largest block of list `index`, or `so_far` if that is larger.
    #[verifier::spinoff_prover]
    #[verifier::rlimit(40)]
    fn largest_of(
        &self,
        mem: &[u32],
        index: usize,
        so_far: u32,
        Ghost(l): Ghost<Map<int, int>>,
        Ghost(from): Ghost<int>,
    ) -> (r: u32)
        requires
            self.lists_ok(l, mem@),
            from <= index < 56,
            largest_in(self.chains@, l, from, index as int, so_far as int),
        ensures
            largest_in(self.chains@, l, from, index + 1, r as int),
            so_far <= r,
            self.chains@[index as int].len() > 0 ==> r > 0,
    {
        let ghost start = self.arena_start as int;
        let ghost end = self.arena_end as int;
        let ghost chains = self.chains@;
        let ghost chain = chains[index as int];
        let mut largest: u32 = so_far;
        let mut block: u32 = self.head(index);
        let ghost mut i: int = 0;
        let ghost mut best: int = choose|a: int| #[trigger] l.dom().contains(a) && l[a] == so_far;
        proof {
            if chain.len() > 0 {
                lemma_chain_block(chains, l, mem@, start, index as int, 0);
            }
        }
        while block != 0
            invariant
                self.lists_ok(l, mem@),
                start == self.arena_start,
                end == self.arena_end,
                chains == self.chains@,
                0 <= index < 56,
                chain == chains[index as int],
                0 <= i <= chain.len(),
                block == (if i < chain.len() {
                    chain[i]
                } else {
                    0
                }),
                so_far <= largest,
                i > 0 ==> largest > 0,
                forall|j: int| 0 <= j < i ==> l[#[trigger] chain[j]] <= largest,
                largest == 0 || (l.dom().contains(best) && l[best] == largest),
            decreases chain.len() - i,
        {
            let (size, next) = self.block_at(mem, block, Ghost(l), Ghost(index as int), Ghost(i));
            if size > largest {
                largest = size;
                proof {
                    best = chain[i];
                }
            }
            block = next;
            proof {
                i = i + 1;
            }
        }
        proof {
            if i < chain.len() {
                lemma_chain_block(chains, l, mem@, start, index as int, i);
                assert(free_ok(mem@, start, end, chain[i], l[chain[i]]));
            }
            assert forall|c: int, j: int|
                #![trigger chains[c][j]]
                from <= c < index + 1 && 0 <= j < chains[c].len() implies l[chains[c][j]]
                <= largest by {
                if c == index {
                    assert(chain[j] == chains[c][j]);
                }
            }
        }
        largest
    }

    /// The largest free block, in bytes.
    ///
    /// Only the lists of the highest power of two that has any are walked: no
    /// other list holds a larger block.
    #[verifier::spinoff_prover]
    #[verifier::rlimit(40)]
    pub fn largest_free_block(&self, mem: &[u32]) -> (r: u32)
        requires
            self.inv(mem@),
        ensures
            is_largest(self.map(), r as int),
    {
        if !self.initialized {
            return 0;
        }
        let ghost m = self.blocks@;
        let ghost l = free_of(m);
        let ghost chains = self.chains@;
        let ghost start = self.arena_start as int;
        let mut fl: usize = FL_COUNT;
        while fl > 0
            invariant
                self.initialized,
                self.inv(mem@),
                m == self.blocks@,
                l == free_of(m),
                chains == self.chains@,
                start == self.arena_start,
                fl <= 14,
                forall|c: int| fl * 4 <= c < 56 ==> (#[trigger] chains[c]).len() == 0,
            decreases fl,
        {
            fl = fl - 1;
            if self.class_in_use(fl) {
                let mut largest: u32 = 0;
                let mut sl: usize = 0;
                let ghost from = fl * 4;
                while sl < SL_COUNT
                    invariant
                        self.initialized,
                        self.inv(mem@),
                        l == free_of(self.blocks@),
                        chains == self.chains@,
                        fl < 14,
                        sl <= 4,
                        from == fl * 4,
                        largest_in(chains, l, from, from + sl, largest as int),
                        forall|c: int|
                            from <= c < from + sl && (#[trigger] chains[c]).len() > 0 ==> largest
                                > 0,
                    decreases 4 - sl,
                {
                    largest = self.largest_of(
                        mem,
                        fl * SL_COUNT + sl,
                        largest,
                        Ghost(l),
                        Ghost(from),
                    );
                    sl += 1;
                }
                proof {
                    assert forall|a: int| #[trigger] m.dom().contains(a)
                        && !m[a].used implies m[a].size <= largest by {
                        assert(l.dom().contains(a));
                        let c = class_of(l[a]);
                        let n = lemma_chain_position(chains, l, mem@, start, a);
                        assert(chains[c].len() > 0);
                        if c >= from {
                            assert(chains[c][n] == a);
                        } else {
                            let top = choose|t: int|
                                from <= t < from + 4 && (#[trigger] chains[t]).len() > 0;
                            lemma_chain_block(chains, l, mem@, start, top, 0);
                            let b = chains[top][0];
                            assert(free_ok(mem@, start, self.arena_end as int, b, l[b]));
                            assert(free_ok(mem@, start, self.arena_end as int, a, l[a]));
                            lemma_class_exists(l[a]);
                            lemma_class_exists(l[b]);
                            assert(l[b] <= largest);
                            if l[a] > l[b] {
                                law_insert_index_is_monotone(
                                    l[b],
                                    (top / 4, top % 4),
                                    l[a],
                                    (c / 4, c % 4),
                                    4,
                                );
                            }
                        }
                    }
                    if largest != 0 {
                        let a = choose|a: int| #[trigger] l.dom().contains(a) && l[a] == largest;
                        assert(m.dom().contains(a) && !m[a].used && m[a].size == largest);
                    }
                }
                return largest;
            }
        }
        proof {
            assert forall|a: int| #[trigger] m.dom().contains(a) && !m[a].used implies m[a].size
                <= 0 by {
                assert(l.dom().contains(a));
                let n = lemma_chain_position(chains, l, mem@, start, a);
                assert(chains[class_of(l[a])].len() == 0);
            }
        }
        0
    }

    /// Whether any list of a power of two has blocks.
    fn class_in_use(&self, fl: usize) -> (r: bool)
        requires
            self.heads_ok(),
            fl < 14,
        ensures
            r ==> exists|c: int|
                fl * 4 <= c < fl * 4 + 4 && (#[trigger] self.chains@[c]).len() > 0,
            !r ==> forall|c: int|
                fl * 4 <= c < fl * 4 + 4 ==> (#[trigger] self.chains@[c]).len() == 0,
    {
        reveal(Tlsf::heads_ok);
        let r: bool = test_bit(self.fl_bitmap, fl as u32);
        proof {
            let x = self.sl_bitmaps@[fl as int];
            lemma_zero_bits(x);
            if r {
                let j = choose|j: int| 0 <= j < 32 && #[trigger] bit(x, j);
                assert(j < 4);
                assert(self.chains@[fl * 4 + j].len() > 0);
            } else {
                assert forall|c: int| fl * 4 <= c < fl * 4 + 4 implies (
                #[trigger] self.chains@[c]).len() == 0 by {
                    let j = c - fl * 4;
                    assert(!bit(x, j));
                    assert(c == fl * 4 + j);
                }
            }
        }
        r
    }
}

// ---------------------------------------------------------------------------
// Laws
// ---------------------------------------------------------------------------

/// When nothing is in use any more, the arena is one free block again.
pub proof fn law_freed_arena_is_one_block(t: Tlsf, mem: Seq<u32>)
    requires
        t.inv(mem),
        t.ready(),
        t.end() - t.start() >= 16,
        forall|a: int| #[trigger] t.map().dom().contains(a) ==> !t.map()[a].used,
    ensures
        t.map().dom() == set![t.start()],
        t.map()[t.start()].size == t.end() - t.start(),
        free_from(t.map(), t.start(), t.end()) == t.end() - t.start(),
        is_largest(t.map(), t.end() - t.start()),
{
    let m = t.map();
    let start = t.start();
    let end = t.end();
    assert(m.dom().contains(start));
    assert(piece_ok(m, mem, start, end, start));
    lemma_piece(m, mem, start, end, start);
    lemma_neighbours(m, mem, start, end, start);
    let n = start + m[start].size;
    if n < end {
        assert(m.dom().contains(n));
        assert(piece_ok(m, mem, start, end, n));
        lemma_piece(m, mem, start, end, n);
        assert(false);
    }
    lemma_sizes(m, mem, start, end);
    assert forall|a: int| m.dom().contains(a) implies a == start by {
        assert(m.dom().contains(start));
    }
    assert(m.dom() =~= set![start]);
    assert(free_from(m, end, end) == 0);
}

/// An allocation lies inside a block of its own, and shares no byte with any other.
pub proof fn law_allocations_are_disjoint(t: Tlsf, mem: Seq<u32>, a: int, b: int)
    requires
        t.inv(mem),
        t.map().dom().contains(a),
        t.map().dom().contains(b),
        t.map()[a].used,
        t.map()[b].used,
        a < b,
    ensures
        t.start() < t.map()[a].payload,
        t.map()[a].payload < a + t.map()[a].size,
        a + t.map()[a].size <= b,
        b < t.map()[b].payload,
        b + t.map()[b].size <= t.end(),
{
    let m = t.map();
    assert(piece_ok(m, mem, t.start(), t.end(), a));
    lemma_piece(m, mem, t.start(), t.end(), a);
    assert(piece_ok(m, mem, t.start(), t.end(), b));
    lemma_piece(m, mem, t.start(), t.end(), b);
}

/// Only words of payloads differ.
#[verifier::opaque]
spec fn only_payloads(
    m: Map<int, Piece>,
    before: Seq<u32>,
    after: Seq<u32>,
    start: int,
    end: int,
) -> bool {
    forall|x: int|
        spot(start, end, x) && #[trigger] word(after, start, x) != word(before, start, x)
            ==> exists|b: int|
            #[trigger] m.dom().contains(b) && m[b].used && m[b].payload <= x < b + m[b].size
}

/// A word that belongs to no payload is as it was.
proof fn lemma_no_payload(
    m: Map<int, Piece>,
    before: Seq<u32>,
    after: Seq<u32>,
    start: int,
    end: int,
    a: int,
    x: int,
)
    requires
        apart(m),
        only_payloads(m, before, after, start, end),
        forall|b: int|
            #[trigger] m.dom().contains(b) && m[b].used ==> b < m[b].payload,
        m.dom().contains(a),
        a <= x < a + m[a].size,
        !m[a].used || x < m[a].payload,
        spot(start, end, x),
    ensures
        word(after, start, x) == word(before, start, x),
{
    reveal(only_payloads);
    if word(after, start, x) != word(before, start, x) {
        let b = choose|b: int|
            #[trigger] m.dom().contains(b) && m[b].used && m[b].payload <= x < b + m[b].size;
        assert(m.dom().contains(a) && m.dom().contains(b));
    }
}

/// What a search through the lists finds.
proof fn lemma_first_found(lists: Seq<Seq<int>>, from: int) -> (r: int)
    requires
        0 <= from <= 56,
    ensures
        from <= r <= 56,
        forall|d: int| from <= d < r ==> (#[trigger] lists[d]).len() == 0,
        match first_of(lists, from) {
            Some(a) => r < 56 && lists[r].len() > 0 && lists[r][0] == a,
            None => r == 56,
        },
    decreases 56 - from,
{
    if from >= 56 || lists[from].len() > 0 {
        from
    } else {
        lemma_first_found(lists, from + 1)
    }
}

/// An allocation takes a free block that is large enough, of the smallest class of
/// which every block is. It fails only if there is no free block of such a class.
pub proof fn law_allocations_take_the_nearest_class(t: Tlsf, mem: Seq<u32>, layout: Layout)
    requires
        t.inv(mem),
        t.ready(),
        layout.ok(),
    ensures
        match t.choice(layout) {
            Some(a) => {
                &&& t.map().dom().contains(a)
                &&& !t.map()[a].used
                &&& t.map()[a].size >= need_of(layout)
                &&& class_of(t.map()[a].size) >= fit_class(need_of(layout))
                &&& forall|b: int|
                    #[trigger] t.map().dom().contains(b) && !t.map()[b].used && class_of(
                        t.map()[b].size,
                    ) >= fit_class(need_of(layout)) ==> class_of(t.map()[a].size) <= class_of(
                        t.map()[b].size,
                    )
            },
            None => forall|b: int|
                #[trigger] t.map().dom().contains(b) && !t.map()[b].used ==> class_of(
                    t.map()[b].size,
                ) < fit_class(need_of(layout)),
        },
{
    let l = free_of(t.map());
    let chains = t.free_lists();
    let need = need_of(layout);
    let from = fit_class(need);
    let c = lemma_first_found(chains, from);
    assert forall|b: int| #[trigger] t.map().dom().contains(b) && !t.map()[b].used implies 0
        <= class_of(t.map()[b].size) < 56 && chains[class_of(t.map()[b].size)].len() > 0 by {
        assert(l.dom().contains(b) && l[b] == t.map()[b].size);
        reveal(chains_ok);
    }
    if c < 56 {
        lemma_chain_block(chains, l, mem, t.start(), c, 0);
        let a = chains[c][0];
        assert(free_ok(mem, t.start(), t.end(), a, l[a]));
        lemma_class_exists(l[a]);
        lemma_list_fits(need, from, c, l[a]);
    }
}

/// The first class that fits, searched from class `c` on.
proof fn lemma_fit_search(need: int, c: int) -> (r: int)
    requires
        0 <= c < 56,
        need <= class_min(13, 3, 4),
        forall|a: int, b: int|
            #![trigger class_min(a, b, 4)]
            0 <= a && 0 <= b < 4 && class_le((a, b), (c / 4, c % 4)) && (a, b) != (c / 4, c % 4)
                ==> class_min(a, b, 4) < need,
    ensures
        c <= r < 56,
        first_fitting(need, r / 4, r % 4, 4, 14),
    decreases 56 - c,
{
    if class_min(c / 4, c % 4, 4) >= need {
        c
    } else {
        assert(c != 55);
        let d = c + 1;
        assert forall|a: int, b: int|
            #![trigger class_min(a, b, 4)]
            0 <= a && 0 <= b < 4 && class_le((a, b), (d / 4, d % 4)) && (a, b) != (d / 4, d % 4)
                implies class_min(a, b, 4) < need by {
            if (a, b) != (c / 4, c % 4) {
                assert(class_le((a, b), (c / 4, c % 4)));
            }
        }
        lemma_fit_search(need, d)
    }
}

/// Success is owed: as long as there is a free block a quarter larger than needed, an
/// allocation does not fail.
pub proof fn law_allocations_succeed_where_there_is_room(
    t: Tlsf,
    mem: Seq<u32>,
    layout: Layout,
    b: int,
)
    requires
        t.inv(mem),
        t.ready(),
        layout.ok(),
        t.map().dom().contains(b),
        !t.map()[b].used,
        4 * t.map()[b].size >= 5 * need_of(layout),
    ensures
        t.choice(layout) is Some,
{
    lemma2_to64();
    law_allocations_take_the_nearest_class(t, mem, layout);
    let need = need_of(layout);
    let size = t.map()[b].size;
    let l = free_of(t.map());
    assert(l.dom().contains(b) && l[b] == size);
    assert(free_ok(mem, t.start(), t.end(), b, l[b]));
    lemma_class_exists(size);
    let k = class_of(size);
    assert(need <= class_min(13, 3, 4));
    assert forall|a: int, b: int|
        #![trigger class_min(a, b, 4)]
        0 <= a && 0 <= b < 4 && class_le((a, b), (0, 0)) && (a, b) != (0int, 0int)
            implies class_min(a, b, 4) < need by {}
    let c = lemma_fit_search(need, 0);
    lemma_fit_class(need, c);
    if k < c {
        let e = c - 1;
        assert(class_min(e / 4, e % 4, 4) < need) by {
            assert(class_le((e / 4, e % 4), (c / 4, c % 4)));
        }
        law_class_min_is_monotone((k / 4, k % 4 + 1), (e / 4, e % 4 + 1), 4);
        lemma_class_width(e / 4, e % 4);
        assert(false);
    }
}

/// A class is no wider than a quarter of its smallest block.
proof fn lemma_class_width(fl: int, sl: int)
    requires
        0 <= fl < 14,
        0 <= sl < 4,
    ensures
        4 * (class_min(fl, sl + 1, 4) - class_min(fl, sl, 4)) <= class_min(fl, sl, 4),
{
    let p = pow2((fl + 4 - 2) as nat) as int;
    assert(p * (4 + sl + 1) - p * (4 + sl) == p && 4 * p <= p * (4 + sl)) by (nonlinear_arith)
        requires
            p >= 0,
            sl >= 0,
    ;
}

/// What the owners of payloads write into them does not affect the allocator.
#[verifier::spinoff_prover]
#[verifier::rlimit(40)]
pub proof fn law_payloads_belong_to_their_owners(t: Tlsf, before: Seq<u32>, after: Seq<u32>)
    requires
        t.inv(before),
        t.ready(),
        after.len() == before.len(),
        forall|x: int|
            spot(t.start(), t.end(), x) && #[trigger] word(after, t.start(), x) != word(
                before,
                t.start(),
                x,
            ) ==> exists|b: int|
                #[trigger] t.map().dom().contains(b) && t.map()[b].used && t.map()[b].payload <= x
                    < b + t.map()[b].size,
    ensures
        t.inv(after),
{
    let m = t.map();
    let start = t.start();
    let end = t.end();
    assert(only_payloads(m, before, after, start, end)) by {
        reveal(only_payloads);
    }
    lemma_pieces_stay(m, before, after, start, end);
    let l = free_of(m);
    assert forall|x: int| #[trigger] l.dom().contains(x) implies word(after, start, x) == word(
        before,
        start,
        x,
    ) && word(after, start, x + 8) == word(before, start, x + 8) && word(after, start, x + 12)
        == word(before, start, x + 12) by {
        assert(m.dom().contains(x) && !m[x].used);
        lemma_free_stays(m, before, after, start, end, x);
    }
    t.lemma_lists_frame(l, before, after);
}

/// The words of the blocks themselves are as they were.
proof fn lemma_pieces_stay(
    m: Map<int, Piece>,
    before: Seq<u32>,
    after: Seq<u32>,
    start: int,
    end: int,
)
    requires
        phys_ok(m, before, start, end),
        after.len() == before.len(),
        only_payloads(m, before, after, start, end),
    ensures
        phys_ok(m, after, start, end),
{
    lemma_sizes(m, before, start, end);
    lemma_payload_places(m, before, start, end);
    assert forall|a: int| #[trigger] m.dom().contains(a) implies piece_ok(
        m,
        after,
        start,
        end,
        a,
    ) by {
        assert(piece_ok(m, before, start, end, a));
        lemma_piece(m, before, start, end, a);
        lemma_no_payload(m, before, after, start, end, a, a);
        lemma_no_payload(m, before, after, start, end, a, a + 4);
        if m[a].used {
            lemma_no_payload(m, before, after, start, end, a, m[a].payload - 4);
        }
        lemma_piece_frame(m, before, after, start, end, a);
    }
}

/// The words of a free block are as they were.
proof fn lemma_free_stays(
    m: Map<int, Piece>,
    before: Seq<u32>,
    after: Seq<u32>,
    start: int,
    end: int,
    a: int,
)
    requires
        phys_ok(m, before, start, end),
        only_payloads(m, before, after, start, end),
        m.dom().contains(a),
        !m[a].used,
    ensures
        word(after, start, a) == word(before, start, a),
        word(after, start, a + 8) == word(before, start, a + 8),
        word(after, start, a + 12) == word(before, start, a + 12),
{
    lemma_payload_places(m, before, start, end);
    assert(piece_ok(m, before, start, end, a));
    lemma_piece(m, before, start, end, a);
    lemma_no_payload(m, before, after, start, end, a, a);
    lemma_no_payload(m, before, after, start, end, a, a + 8);
    lemma_no_payload(m, before, after, start, end, a, a + 12);
}

/// Freeing an allocation right away restores the blocks as they were.
#[verifier::spinoff_prover]
pub proof fn law_free_undoes_allocation(t: Tlsf, mem: Seq<u32>, a: int, layout: Layout)
    requires
        t.inv(mem),
        t.ready(),
        layout.ok(),
        t.map().dom().contains(a),
        !t.map()[a].used,
        need_of(layout) <= t.map()[a].size,
    ensures
        merged_map(placed_map(t.map(), a, layout), a) == t.map(),
{
    let m = t.map();
    let start = t.start();
    let end = t.end();
    let last = a + m[a].size;
    lemma_sizes(m, mem, start, end);
    assert(piece_ok(m, mem, start, end, a));
    lemma_piece(m, mem, start, end, a);
    lemma_neighbours(m, mem, start, end, a);
    lemma_need_covers(a, layout, m[a].size, end);
    let p = placement(a, layout, 8, 4, 0, 8).unwrap();
    let m2 = placed_map(m, a, layout);
    if m.dom().contains(last) {
        assert(piece_ok(m, mem, start, end, last));
        lemma_piece(m, mem, start, end, last);
        assert(last < end);
    }
    if m.dom().contains(a + p.1) {
        assert(m.dom().contains(a));
    }
    assert(merged_map(m2, a) =~= m);
}

/// An allocation can be used: it is aligned as asked for, all its bytes lie in one block,
/// behind the metadata of the block, and that block is marked as used. It takes fewer
/// than 16 bytes more of the free block than it must, and every allocation that existed
/// before keeps its block.
pub proof fn law_allocations_are_usable(t: Tlsf, mem: Seq<u32>, layout: Layout, b: int)
    requires
        t.inv(mem),
        t.ready(),
        layout.ok(),
        t.choice(layout) is Some,
        t.map().dom().contains(b),
        t.map()[b].used,
    ensures
        ({
            let a = t.choice(layout)->0;
            let payload = placement(a, layout, 8, 4, 0, 8).unwrap().0;
            let taken = placement(a, layout, 8, 4, 0, 8).unwrap().1;
            let after = placed_map(t.map(), a, layout);
            &&& payload % layout.align as int == 0
            &&& payload % 8 == 0
            &&& after.dom().contains(a)
            &&& after[a].used
            &&& after[a].payload == payload
            &&& a + 16 <= payload
            &&& payload + layout.size <= a + after[a].size
            &&& after[a].size <= t.map()[a].size
            &&& taken <= after[a].size < taken + 16
            &&& after.dom().contains(b)
            &&& after[b].used
            &&& after[b].payload == t.map()[b].payload
            &&& after[b].size == t.map()[b].size
            &&& b != a
        }),
{
    let m = t.map();
    let start = t.start();
    let end = t.end();
    law_allocations_take_the_nearest_class(t, mem, layout);
    let a = t.choice(layout)->0;
    lemma_sizes(m, mem, start, end);
    assert(piece_ok(m, mem, start, end, a));
    lemma_piece(m, mem, start, end, a);
    assert(piece_ok(m, mem, start, end, b));
    lemma_piece(m, mem, start, end, b);
    lemma_need_covers(a, layout, m[a].size, end);
    crate::heap_layout::law_placement_is_sound(a, layout, 8, 4, 0, 8);
    let p = placement(a, layout, 8, 4, 0, 8).unwrap();
    assert(b != a);
    assert(m[a].size - p.1 >= 16 ==> b != a + p.1) by {
        if b == a + p.1 && m[a].size - p.1 >= 16 {
            assert(m.dom().contains(a) && m.dom().contains(b));
        }
    }
}

/// Freeing an allocation frees no other: every other one keeps its block and its payload,
/// and what was freed is part of a free block, together with the free blocks beside it.
pub proof fn law_freeing_spares_the_others(t: Tlsf, mem: Seq<u32>, a: int, b: int)
    requires
        t.inv(mem),
        t.ready(),
        t.map().dom().contains(a),
        t.map()[a].used,
        t.map().dom().contains(b),
        t.map()[b].used,
        b != a,
    ensures
        ({
            let after = merged_map(t.map(), a);
            let s = merge_start(t.map(), a);
            &&& after.dom().contains(b)
            &&& after[b].used
            &&& after[b].payload == t.map()[b].payload
            &&& after[b].size == t.map()[b].size
            &&& after.dom().contains(s)
            &&& !after[s].used
            &&& s <= a
            &&& a + t.map()[a].size <= s + after[s].size
        }),
{
    let m = t.map();
    let start = t.start();
    let end = t.end();
    assert(piece_ok(m, mem, start, end, a));
    lemma_piece(m, mem, start, end, a);
    lemma_neighbours(m, mem, start, end, a);
    assert(piece_ok(m, mem, start, end, b));
    lemma_piece(m, mem, start, end, b);
    let n = a + m[a].size;
    if m.dom().contains(n) {
        assert(piece_ok(m, mem, start, end, n));
        lemma_piece(m, mem, start, end, n);
    }
}

} // verus!
