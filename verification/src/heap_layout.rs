//! Pure allocation-layout planning of the allocator.

use vstd::arithmetic::div_mod::{lemma_fundamental_div_mod, lemma_fundamental_div_mod_converse, lemma_mod_bound};
use vstd::arithmetic::power2::{is_pow2, lemma2_to64, lemma_pow2_adds, lemma_pow2_pos, lemma_pow2_strictly_increases, lemma_pow2_unfold, pow2};
use vstd::bits::{lemma_usize_pow2_no_overflow, lemma_usize_shl_is_mul, lemma_usize_shr_is_div};
use vstd::prelude::*;

verus! {

/// Size and alignment of one allocation. The alignment is a power of two.
#[derive(Clone, Copy, Debug, PartialEq, Eq, Structural)]
pub struct Layout {
    pub size: usize,
    pub align: usize,
}

impl Layout {
    pub open spec fn ok(self) -> bool {
        is_pow2(self.align as int) && self.size + self.align <= isize::MAX + 1
    }

    /// A layout, if the alignment is a power of two and the size, rounded up to
    /// it, is not too large to exist.
    pub fn from_size_align(size: usize, align: usize) -> (r: Option<Layout>)
        ensures
            r == (if (Layout { size, align }).ok() {
                Some(Layout { size, align })
            } else {
                None
            }),
    {
        let limit: usize = isize::MAX as usize + 1;
        if !is_power_of_two(align) || align > limit || size > limit - align {
            return None;
        }
        Some(Layout { size, align })
    }
}

/// Placement of one allocation inside an allocator block.
#[derive(Clone, Copy, Debug, PartialEq, Eq, Structural)]
pub struct AllocationPlan {
    /// Aligned address returned to the caller.
    pub payload: usize,
    /// Bytes consumed from the start of the block, including allocator metadata.
    pub block_size: usize,
}

/// Whether `x` is a power of two.
pub(crate) fn is_power_of_two(x: usize) -> (r: bool)
    ensures
        r == is_pow2(x as int),
{
    if x == 0 {
        reveal(is_pow2);
        return false;
    }
    let mut v: usize = x;
    while v > 1 && v % 2 == 0
        invariant
            1 <= v <= x,
            is_pow2(x as int) == is_pow2(v as int),
        decreases v,
    {
        reveal(is_pow2);
        v = v / 2;
    }
    reveal(is_pow2);
    v == 1
}

/// The least multiple of `align` that is not less than `value`.
pub open spec fn align_up(value: int, align: int) -> int {
    (value + align - 1) / align * align
}

/// As `align_up`, for what the machine can compute.
pub open spec fn checked_up(value: int, align: int) -> Option<int> {
    if is_pow2(align) && value + align - 1 <= usize::MAX {
        Some(align_up(value, align))
    } else {
        None
    }
}

/// What rounding up means.
pub proof fn law_align_up_is_least(value: int, align: int)
    requires
        value >= 0,
        align > 0,
    ensures
        align_up(value, align) % align == 0,
        value <= align_up(value, align) < value + align,
        forall|m: int| #[trigger] (m % align) == 0 && m >= value ==> m >= align_up(value, align),
{
    let n = value + align - 1;
    let q = n / align;
    lemma_fundamental_div_mod(n, align);
    lemma_mod_bound(n, align);
    vstd::arithmetic::mul::lemma_mul_is_commutative(align, q);
    vstd::arithmetic::div_mod::lemma_mod_multiples_basic(q, align);
    assert forall|m: int| #[trigger] (m % align) == 0 && m >= value implies m >= align_up(
        value,
        align,
    ) by {
        let k = m / align;
        lemma_fundamental_div_mod(m, align);
        assert(k * align == m && k >= q) by (nonlinear_arith)
            requires
                m == align * k + 0,
                m >= value,
                value + align - 1 == align * q + n % align,
                n % align >= 0,
                n == value + align - 1,
                align > 0,
        ;
        assert(k * align >= q * align) by (nonlinear_arith)
            requires
                k >= q,
                align > 0,
        ;
    }
}

/// Align `value` upwards without wrapping.
pub fn checked_align_up(value: usize, align: usize) -> (r: Option<usize>)
    ensures
        match checked_up(value as int, align as int) {
            Some(v) => r is Some && r->0 == v,
            None => r is None,
        },
{
    if !is_power_of_two(align) {
        return None;
    }
    proof {
        reveal(is_pow2);
    }
    match value.checked_add(align - 1) {
        Some(sum) => {
            proof {
                law_align_up_is_least(value as int, align as int);
                lemma_fundamental_div_mod(sum as int, align as int);
                vstd::arithmetic::mul::lemma_mul_is_commutative(
                    align as int,
                    sum as int / align as int,
                );
            }
            Some(sum - sum % align)
        },
        None => None,
    }
}

pub open spec fn larger(a: int, b: int) -> int {
    if a >= b {
        a
    } else {
        b
    }
}

/// Where an allocation goes in a block: the payload, and how many bytes of the
/// block it takes.
pub open spec fn placement(
    block: int,
    layout: Layout,
    header: int,
    prefix: int,
    footer: int,
    block_align: int,
) -> Option<(int, int)> {
    if !is_pow2(block_align) || block % block_align != 0 {
        None
    } else {
        let least = block + header + prefix;
        match checked_up(least, larger(layout.align as int, block_align)) {
            None => None,
            Some(payload) => {
                let end = payload + larger(layout.size as int, 1) + footer;
                match checked_up(end, block_align) {
                    None => None,
                    Some(block_end) => Some((payload, block_end - block)),
                }
            },
        }
    }
}

/// Plan an allocation within a free block.
///
/// The prefix is immediately before the returned payload and records the owning
/// block. The final block size is rounded up so the next block remains aligned.
pub fn allocation_plan(
    block: usize,
    available: usize,
    layout: Layout,
    header_size: usize,
    prefix_size: usize,
    footer_size: usize,
    block_align: usize,
) -> (r: Option<AllocationPlan>)
    ensures
        match placement(
            block as int,
            layout,
            header_size as int,
            prefix_size as int,
            footer_size as int,
            block_align as int,
        ) {
            Some(p) => if p.1 <= available {
                r is Some && r->0.payload == p.0 && r->0.block_size == p.1
            } else {
                r is None
            },
            None => r is None,
        },
{
    if !is_power_of_two(block_align) {
        return None;
    }
    proof {
        reveal(is_pow2);
    }
    if block % block_align != 0 {
        return None;
    }
    let payload_align: usize = if layout.align >= block_align {
        layout.align
    } else {
        block_align
    };
    let size: usize = if layout.size >= 1 {
        layout.size
    } else {
        1
    };
    let ghost least = block + header_size + prefix_size;
    proof {
        if is_pow2(payload_align as int) {
            law_align_up_is_least(least, payload_align as int);
            law_align_up_is_least(
                align_up(least, payload_align as int) + size + footer_size,
                block_align as int,
            );
        }
    }
    let after_header: usize = match block.checked_add(header_size) {
        Some(sum) => sum,
        None => return None,
    };
    let payload_min: usize = match after_header.checked_add(prefix_size) {
        Some(sum) => sum,
        None => return None,
    };
    let payload: usize = match checked_align_up(payload_min, payload_align) {
        Some(payload) => payload,
        None => return None,
    };
    let payload_end: usize = match payload.checked_add(size) {
        Some(sum) => sum,
        None => return None,
    };
    let raw_end: usize = match payload_end.checked_add(footer_size) {
        Some(sum) => sum,
        None => return None,
    };
    let block_end: usize = match checked_align_up(raw_end, block_align) {
        Some(end) => end,
        None => return None,
    };
    let block_size: usize = block_end - block;
    if block_size <= available {
        Some(AllocationPlan { payload, block_size })
    } else {
        None
    }
}

/// A planned payload is aligned, lies behind the metadata and inside the block,
/// and the block keeps its alignment.
pub proof fn law_placement_is_sound(
    block: int,
    layout: Layout,
    header: int,
    prefix: int,
    footer: int,
    block_align: int,
)
    requires
        block >= 0,
        header >= 0,
        prefix >= 0,
        footer >= 0,
        layout.ok(),
        placement(block, layout, header, prefix, footer, block_align) is Some,
    ensures
        ({
            let p = placement(block, layout, header, prefix, footer, block_align).unwrap();
            &&& p.0 % layout.align as int == 0
            &&& p.0 % block_align == 0
            &&& p.0 >= block + header + prefix
            &&& p.0 + layout.size + footer <= block + p.1
            &&& p.1 % block_align == 0
            &&& p.1 > header + prefix + footer
        }),
{
    reveal(is_pow2);
    let align = layout.align as int;
    let big = larger(align, block_align);
    let least = block + header + prefix;
    law_align_up_is_least(least, big);
    let payload = align_up(least, big);
    lemma_pow2_divides(align, big);
    lemma_pow2_divides(block_align, big);
    lemma_divides_trans(payload, big, align);
    lemma_divides_trans(payload, big, block_align);
    let end = payload + larger(layout.size as int, 1) + footer;
    law_align_up_is_least(end, block_align);
    let block_end = align_up(end, block_align);
    lemma_difference_divides(block_end, block, block_align);
}

/// The smaller of two powers of two divides the larger.
pub proof fn lemma_pow2_divides(a: int, b: int)
    requires
        is_pow2(a),
        is_pow2(b),
        a <= b,
    ensures
        b % a == 0,
        a > 0,
    decreases b,
{
    reveal(is_pow2);
    if a == 1 {
    } else {
        lemma_pow2_divides(a / 2, b / 2);
        let k = (b / 2) / (a / 2);
        lemma_fundamental_div_mod(b / 2, a / 2);
        assert(b == a * k) by (nonlinear_arith)
            requires
                b / 2 == (a / 2) * k + 0,
                b == 2 * (b / 2),
                a == 2 * (a / 2),
        ;
        lemma_fundamental_div_mod_converse(b, a, k, 0);
    }
}

pub proof fn lemma_divides_trans(n: int, b: int, a: int)
    requires
        a > 0,
        b > 0,
        n % b == 0,
        b % a == 0,
    ensures
        n % a == 0,
{
    let q = n / b;
    let k = b / a;
    lemma_fundamental_div_mod(n, b);
    lemma_fundamental_div_mod(b, a);
    assert(n == a * (k * q)) by (nonlinear_arith)
        requires
            n == b * q + 0,
            b == a * k + 0,
    ;
    lemma_fundamental_div_mod_converse(n, a, k * q, 0);
}

pub proof fn lemma_difference_divides(a: int, b: int, d: int)
    requires
        d > 0,
        a % d == 0,
        b % d == 0,
    ensures
        (a - b) % d == 0,
        (a + b) % d == 0,
{
    let x = a / d;
    let y = b / d;
    lemma_fundamental_div_mod(a, d);
    lemma_fundamental_div_mod(b, d);
    assert(a - b == d * (x - y) && a + b == d * (x + y)) by (nonlinear_arith)
        requires
            a == d * x + 0,
            b == d * y + 0,
    ;
    lemma_fundamental_div_mod_converse(a - b, d, x - y, 0);
    lemma_fundamental_div_mod_converse(a + b, d, x + y, 0);
}

// ---------------------------------------------------------------------------
// Size classes
// ---------------------------------------------------------------------------

/// Number of subclasses of each power of two.
pub const TLSF_SL_COUNT: usize = 4;

/// log2(TLSF_SL_COUNT)
pub const TLSF_SL_SHIFT: usize = 2;

/// The smallest block of size class `(fl, sl)`.
pub open spec fn class_min(fl: int, sl: int, fl_min_log2: int) -> int {
    pow2((fl + fl_min_log2 - 2) as nat) * (4 + sl)
}

/// A block of this size belongs in class `(fl, sl)`.
pub open spec fn in_class(size: int, fl: int, sl: int, fl_min_log2: int) -> bool {
    &&& fl >= 0
    &&& 0 <= sl < 4
    &&& class_min(fl, sl, fl_min_log2) <= size < class_min(fl, sl + 1, fl_min_log2)
}

/// Class `a` comes before class `b` or is the same.
pub open spec fn class_le(a: (int, int), b: (int, int)) -> bool {
    a.0 < b.0 || (a.0 == b.0 && a.1 <= b.1)
}

/// Floor of the binary logarithm (`x > 0`).
pub fn log2_floor(x: usize) -> (r: usize)
    requires
        x > 0,
    ensures
        pow2(r as nat) <= x < pow2((r + 1) as nat),
        r < usize::BITS,
{
    let mut v: usize = x;
    let mut r: usize = 0;
    proof {
        lemma2_to64();
    }
    while v > 1
        invariant
            1 <= v,
            v * pow2(r as nat) <= x < (v + 1) * pow2(r as nat),
            r < usize::BITS,
            x <= usize::MAX,
        decreases v,
    {
        let half: usize = v / 2;
        proof {
            let p = pow2(r as nat) as int;
            lemma_pow2_pos(r as nat);
            lemma_pow2_unfold((r + 1) as nat);
            assert(half * (2 * p) <= x < (half + 1) * (2 * p)) by (nonlinear_arith)
                requires
                    v * p <= x < (v + 1) * p,
                    half == v / 2,
                    p > 0,
            ;
            assert(2 * p <= x) by (nonlinear_arith)
                requires
                    half * (2 * p) <= x,
                    half >= 1,
                    p > 0,
            ;
            lemma_small_log((r + 1) as nat, x);
        }
        v = half;
        r += 1;
    }
    proof {
        lemma_pow2_unfold((r + 1) as nat);
    }
    r
}

/// A power of two that fits has an exponent below the width.
proof fn lemma_small_log(k: nat, x: usize)
    requires
        pow2(k) <= x,
    ensures
        k < usize::BITS,
{
    if k >= usize::BITS {
        lemma2_to64();
        vstd::arithmetic::power2::lemma2_to64_rest();
        if usize::BITS == 32 {
            if k > 32 {
                lemma_pow2_strictly_increases(32, k);
            }
        } else {
            if k > 64 {
                lemma_pow2_strictly_increases(64, k);
            }
        }
    }
}

/// The smallest block of a size class.
pub fn tlsf_class_min(fl: usize, sl: usize, fl_min_log2: usize) -> (r: usize)
    requires
        2 <= fl + fl_min_log2 < usize::BITS,
        class_min(fl as int, sl as int, fl_min_log2 as int) <= usize::MAX,
    ensures
        r == class_min(fl as int, sl as int, fl_min_log2 as int),
{
    let k: usize = fl + fl_min_log2;
    proof {
        let p = pow2((k - 2) as nat) as int;
        lemma_usize_pow2_no_overflow(k as nat);
        lemma_pow2_pos((k - 2) as nat);
        lemma_pow2_adds((k - 2) as nat, 2);
        lemma2_to64();
        assert(p * (4 + sl) == p * 4 + sl * p) by (nonlinear_arith);
        assert(1 * pow2(k as nat) == pow2(k as nat));
        lemma_usize_shl_is_mul(1, k);
        lemma_usize_shl_is_mul(sl, (k - 2) as usize);
    }
    (1usize << k) + (sl << (k - TLSF_SL_SHIFT))
}

/// The class of a block (rounding down).
///
/// The caller ensures that `size` is at least `2^fl_min_log2`.
pub fn tlsf_insert_index(size: usize, fl_min_log2: usize) -> (r: (usize, usize))
    requires
        2 <= fl_min_log2 < usize::BITS,
        pow2(fl_min_log2 as nat) <= size,
    ensures
        in_class(size as int, r.0 as int, r.1 as int, fl_min_log2 as int),
        2 <= r.0 + fl_min_log2 < usize::BITS,
{
    proof {
        lemma_pow2_pos(fl_min_log2 as nat);
    }
    let k: usize = log2_floor(size);
    proof {
        if k < fl_min_log2 {
            if k + 1 < fl_min_log2 {
                lemma_pow2_strictly_increases((k + 1) as nat, fl_min_log2 as nat);
            }
        }
    }
    let fl: usize = k - fl_min_log2;
    let shifted: usize = size >> (fl + fl_min_log2 - TLSF_SL_SHIFT);
    let sl: usize = shifted % TLSF_SL_COUNT;
    proof {
        let p = pow2((k - 2) as nat) as int;
        let q = shifted as int;
        lemma_usize_shr_is_div(size, (k - 2) as usize);
        lemma_pow2_pos((k - 2) as nat);
        lemma_pow2_adds((k - 2) as nat, 2);
        lemma_pow2_adds((k - 2) as nat, 3);
        lemma2_to64();
        lemma_fundamental_div_mod(size as int, p);
        lemma_mod_bound(size as int, p);
        assert(4 <= q < 8 && p * q <= size < p * (q + 1)) by (nonlinear_arith)
            requires
                size == p * q + size as int % p,
                0 <= size as int % p < p,
                p * 4 <= size < p * 8,
                p > 0,
        ;
        assert(sl == q - 4);
    }
    (fl, sl)
}

/// The classes are in the order of their smallest blocks.
pub proof fn law_class_min_is_monotone(a: (int, int), b: (int, int), fl_min_log2: int)
    requires
        fl_min_log2 >= 2,
        0 <= a.0,
        0 <= a.1 <= 4,
        0 <= b.0,
        0 <= b.1 <= 4,
        class_le(a, b),
    ensures
        class_min(a.0, a.1, fl_min_log2) <= class_min(b.0, b.1, fl_min_log2),
        a != b && a.1 < 4 ==> class_min(a.0, a.1, fl_min_log2) < class_min(b.0, b.1, fl_min_log2),
{
    let p = pow2((a.0 + fl_min_log2 - 2) as nat) as int;
    let q = pow2((b.0 + fl_min_log2 - 2) as nat) as int;
    let x = a.1;
    let y = b.1;
    lemma_pow2_pos((a.0 + fl_min_log2 - 2) as nat);
    if a.0 == b.0 {
        assert(p * (4 + x) <= p * (4 + y)) by (nonlinear_arith)
            requires
                p > 0,
                x <= y,
        ;
        if x < y {
            assert(p * (4 + x) < p * (4 + y)) by (nonlinear_arith)
                requires
                    p > 0,
                    x < y,
            ;
        }
    } else {
        lemma_pow2_unfold((a.0 + 1 + fl_min_log2 - 2) as nat);
        if a.0 + 1 < b.0 {
            lemma_pow2_strictly_increases(
                (a.0 + 1 + fl_min_log2 - 2) as nat,
                (b.0 + fl_min_log2 - 2) as nat,
            );
        }
        assert(p * (4 + x) <= q * (4 + y)) by (nonlinear_arith)
            requires
                2 * p <= q,
                x <= 4,
                y >= 0,
                p > 0,
        ;
        if x < 4 {
            assert(p * (4 + x) < q * (4 + y)) by (nonlinear_arith)
                requires
                    2 * p <= q,
                    x < 4,
                    y >= 0,
                    p > 0,
            ;
        }
    }
}

/// A larger block is in the same class or in a later one.
pub proof fn law_insert_index_is_monotone(
    size: int,
    a: (int, int),
    larger_size: int,
    b: (int, int),
    fl_min_log2: int,
)
    requires
        fl_min_log2 >= 2,
        size <= larger_size,
        in_class(size, a.0, a.1, fl_min_log2),
        in_class(larger_size, b.0, b.1, fl_min_log2),
    ensures
        class_le(a, b),
{
    if !class_le(a, b) {
        if b.1 < 3 {
            law_class_min_is_monotone((b.0, b.1 + 1), a, fl_min_log2);
        } else {
            law_class_min_is_monotone((b.0, 4), (b.0 + 1, 0), fl_min_log2);
            law_class_min_is_monotone((b.0 + 1, 0), a, fl_min_log2);
        }
        assert(false);
    }
}

/// The first class of which every block is large enough.
pub open spec fn first_fitting(size: int, fl: int, sl: int, fl_min_log2: int, fl_count: int) -> bool {
    &&& 0 <= fl < fl_count
    &&& 0 <= sl < 4
    &&& class_min(fl, sl, fl_min_log2) >= size
    &&& forall|a: int, b: int|
        #![trigger class_min(a, b, fl_min_log2)]
        0 <= a && 0 <= b < 4 && class_le((a, b), (fl, sl)) && (a, b) != (fl, sl) ==> class_min(
            a,
            b,
            fl_min_log2,
        ) < size
}

/// The class to look in for a block of at least `size` (rounding up): any block
/// of it is large enough. `None` if there is no such class.
pub fn tlsf_search_index(size: usize, fl_min_log2: usize, fl_count: usize) -> (r: Option<
    (usize, usize),
>)
    requires
        2 <= fl_min_log2 < usize::BITS,
        pow2(fl_min_log2 as nat) <= size,
    ensures
        match r {
            Some(class) => first_fitting(
                size as int,
                class.0 as int,
                class.1 as int,
                fl_min_log2 as int,
                fl_count as int,
            ),
            None => forall|a: int, b: int|
                #![trigger class_min(a, b, fl_min_log2 as int)]
                0 <= a < fl_count && 0 <= b < 4 ==> class_min(a, b, fl_min_log2 as int) < size,
        },
{
    let (fl, sl) = tlsf_insert_index(size, fl_min_log2);
    let ghost m = fl_min_log2 as int;
    let ghost here = (fl as int, sl as int);
    proof {
        assert forall|a: int, b: int|
            #![trigger class_min(a, b, m)]
            0 <= a && 0 <= b < 4 && class_le((a, b), here) && (a, b) != here implies class_min(
            a,
            b,
            m,
        ) < size by {
            law_class_min_is_monotone((a, b), here, m);
        }
    }
    if fl >= fl_count {
        return None;
    }
    let least: usize = tlsf_class_min(fl, sl, fl_min_log2);
    if size <= least {
        return Some((fl, sl));
    }
    if sl + 1 < TLSF_SL_COUNT {
        proof {
            law_class_min_is_monotone((fl as int, sl + 1), (fl as int, sl + 1), m);
        }
        Some((fl, sl + 1))
    } else if fl + 1 < fl_count {
        proof {
            law_class_min_is_monotone((fl as int, 4), (fl + 1, 0), m);
            assert forall|a: int, b: int|
                #![trigger class_min(a, b, m)]
                0 <= a && 0 <= b < 4 && class_le((a, b), (fl + 1, 0)) && (a, b) != (
                    fl + 1,
                    0int,
                ) implies class_min(a, b, m) < size by {
                if (a, b) != here {
                    assert(class_le((a, b), here));
                }
            }
        }
        Some((fl + 1, 0))
    } else {
        None
    }
}

} // verus!
