//! Hardware-independent classical CAN bit-timing calculation.
//!
//! HC32F460's `S_SEG_1` includes the synchronization segment, so one bit is
//! `time_seg1 + time_seg2` time quanta. The hardware also gives a programmed
//! prescaler of one a special, two-TQ-earlier sample point. This calculator
//! deliberately starts at an actual prescaler of two so the ordinary timing
//! formulas remain valid.

use vstd::arithmetic::div_mod::{lemma_fundamental_div_mod, lemma_fundamental_div_mod_converse, lemma_mod_bound};
use vstd::prelude::*;

verus! {

/// ISO 11898-1 classical CAN limit documented for HC32F460.
pub const MAX_CLASSIC_BITRATE: u32 = 1_000_000;

/// One valid HC32F460 classical CAN nominal bit timing.
///
/// All fields are actual time-quanta values, not the biased values stored in
/// the SBT register. Values returned by [`calculate`] satisfy the constraints of
/// that register.
#[derive(Clone, Copy, Debug, PartialEq, Eq, Structural)]
pub struct BitTiming {
    /// CAN communication-clock divider (`2..=256`).
    pub prescaler: u32,
    /// Synchronization segment, propagation segment, and phase segment 1
    /// combined (`2..=65`).
    pub time_seg1: u32,
    /// Phase segment 2 (`1..=8`).
    pub time_seg2: u32,
    /// Synchronization jump width (`1..=8`).
    pub sjw: u32,
}

/// The distance between two numbers.
pub open spec fn dist(a: int, b: int) -> int {
    if a < b {
        b - a
    } else {
        a - b
    }
}

impl BitTiming {
    /// Time quanta in one bit.
    pub open spec fn tq(self) -> int {
        self.time_seg1 + self.time_seg2
    }

    /// Clock cycles in one bit.
    pub open spec fn cycles(self) -> int {
        self.prescaler * self.tq()
    }

    /// How far the clock is from the target, in cycles: the bitrate error times
    /// `cycles`.
    pub open spec fn rate_gap(self, clock: int, bitrate: int) -> int {
        dist(clock, bitrate * self.cycles())
    }

    /// How far the sample point is from the target: the error in permille times
    /// `tq`.
    pub open spec fn sample_gap(self, permille: int) -> int {
        dist(self.time_seg1 * 1000, permille * self.tq())
    }

    /// The fields are within what the register can hold.
    pub open spec fn in_range(self) -> bool {
        &&& 1 <= self.prescaler <= 256
        &&& 2 <= self.time_seg1 <= 65
        &&& 1 <= self.time_seg2 <= 8
        &&& 1 <= self.sjw <= 8
    }

    /// Number of time quanta in one nominal bit.
    pub fn total_time_quanta(&self) -> (r: u32)
        requires
            self.time_seg1 + self.time_seg2 <= u32::MAX,
        ensures
            r == self.tq(),
    {
        self.time_seg1 + self.time_seg2
    }

    /// Actual nominal bitrate, rounded down to an integer number of bits/s.
    pub fn actual_bitrate(&self, clock_hz: u32) -> (r: u32)
        ensures
            r == (if self.cycles() == 0 {
                0
            } else {
                clock_hz as int / self.cycles()
            }),
    {
        let total_tq: u64 = self.time_seg1 as u64 + self.time_seg2 as u64;
        assert(self.cycles() >= 0) by (nonlinear_arith)
            requires
                self.cycles() == self.prescaler * total_tq,
        ;
        let divisor: u64 = match (self.prescaler as u64).checked_mul(total_tq) {
            Some(value) => value,
            None => {
                proof {
                    lemma_fundamental_div_mod_converse(
                        clock_hz as int,
                        self.cycles(),
                        0,
                        clock_hz as int,
                    );
                }
                return 0;
            },
        };
        if divisor == 0 {
            return 0;
        }
        proof {
            vstd::arithmetic::div_mod::lemma_div_is_ordered_by_denominator(
                clock_hz as int,
                1,
                divisor as int,
            );
        }
        (clock_hz as u64 / divisor) as u32
    }

    /// Actual sample point in permille, rounded to the nearest permille.
    pub fn sample_point_permille(&self) -> (r: u32)
        ensures
            r == (if self.tq() == 0 {
                0
            } else {
                (self.time_seg1 * 1000 + self.tq() / 2) / self.tq()
            }),
    {
        let total_tq: u64 = self.time_seg1 as u64 + self.time_seg2 as u64;
        if total_tq == 0 {
            return 0;
        }
        let scaled: u64 = self.time_seg1 as u64 * 1_000 + total_tq / 2;
        proof {
            let q = scaled as int / total_tq as int;
            lemma_fundamental_div_mod(scaled as int, total_tq as int);
            lemma_mod_bound(scaled as int, total_tq as int);
            assert(q <= 1000) by (nonlinear_arith)
                requires
                    scaled == total_tq * q + scaled as int % total_tq as int,
                    scaled as int % total_tq as int >= 0,
                    scaled <= total_tq * 1000 + total_tq / 2,
                    total_tq > 0,
            ;
        }
        (scaled / total_tq) as u32
    }

    /// Absolute bitrate error in parts per million, rounded to the nearest ppm.
    ///
    /// Invalid zero inputs and arithmetic overflow return `u32::MAX`.
    pub fn error_ppm(&self, clock_hz: u32, target_bitrate: u32) -> (r: u32)
        ensures
            r == (if target_bitrate * self.cycles() == 0 || target_bitrate * self.cycles()
                > u64::MAX / 10 {
                u32::MAX as int
            } else {
                let target = target_bitrate * self.cycles();
                let ppm = (2_000_000 * self.rate_gap(clock_hz as int, target_bitrate as int)
                    + target) / (2 * target);
                if ppm > u32::MAX {
                    u32::MAX as int
                } else {
                    ppm
                }
            }),
    {
        let total_tq: u64 = self.time_seg1 as u64 + self.time_seg2 as u64;
        let ghost cycles = self.cycles();
        let ghost target = target_bitrate * cycles;
        assert(cycles >= 0) by (nonlinear_arith)
            requires
                cycles == self.prescaler * total_tq,
        ;
        if target_bitrate == 0 {
            assert(target == 0) by (nonlinear_arith)
                requires
                    target == target_bitrate * cycles,
                    target_bitrate == 0,
            ;
            return u32::MAX;
        }
        assert(target >= cycles) by (nonlinear_arith)
            requires
                target == target_bitrate * cycles,
                target_bitrate >= 1,
                cycles >= 0,
        ;
        let divisor: u64 = match (self.prescaler as u64).checked_mul(total_tq) {
            Some(value) => value,
            None => return u32::MAX,
        };
        let target_cycles: u64 = match (target_bitrate as u64).checked_mul(divisor) {
            Some(value) => value,
            None => return u32::MAX,
        };
        if target_cycles == 0 || target_cycles > u64::MAX / 10 {
            return u32::MAX;
        }
        let difference: u64 = abs_diff(clock_hz as u64, target_cycles);
        proof {
            lemma_whole_bound(difference as int, target_cycles as int);
        }
        let (floor_ppm, remainder) = ppm_floor_and_remainder(difference, target_cycles);
        let half_up: bool = remainder >= target_cycles - target_cycles / 2;
        proof {
            let n = 2_000_000 * difference + target;
            let q = floor_ppm as int + if half_up {
                1int
            } else {
                0
            };
            let rest = 2 * remainder + target - if half_up {
                2 * target
            } else {
                0
            };
            assert(n == q * (2 * target) + rest) by (nonlinear_arith)
                requires
                    n == 2_000_000 * difference + target,
                    floor_ppm * target + remainder == difference * 1_000_000,
                    half_up ==> q == floor_ppm + 1 && rest == 2 * remainder - target,
                    !half_up ==> q == floor_ppm && rest == 2 * remainder + target,
            ;
            lemma_fundamental_div_mod_converse(n, 2 * target, q, rest);
        }
        let rounded: u64 = if half_up {
            floor_ppm + 1
        } else {
            floor_ppm
        };
        if rounded > u32::MAX as u64 {
            u32::MAX
        } else {
            rounded as u32
        }
    }

    /// Encode this timing for the HC32F460 CAN SBT register.
    pub fn register_value(&self) -> (r: u32)
        requires
            self.prescaler >= 1,
            self.sjw >= 1,
            self.time_seg2 >= 1,
            self.time_seg1 >= 2,
        ensures
            r == ((self.prescaler - 1) as u32) << 24 | ((self.sjw - 1) as u32) << 16 | ((
            self.time_seg2 - 1) as u32) << 8 | ((self.time_seg1 - 2) as u32),
            self.in_range() ==> r == (self.prescaler - 1) * 0x100_0000 + (self.sjw - 1) * 0x1_0000
                + (self.time_seg2 - 1) * 0x100 + (self.time_seg1 - 2),
    {
        let a: u32 = self.prescaler - 1;
        let b: u32 = self.sjw - 1;
        let c: u32 = self.time_seg2 - 1;
        let d: u32 = self.time_seg1 - 2;
        assert(a <= 255 && b <= 7 && c <= 7 && d <= 63 ==> (a << 24 | b << 16 | c << 8 | d) == a
            * 0x100_0000 + b * 0x1_0000 + c * 0x100 + d) by (bit_vector);
        (a << 24) | (b << 16) | (c << 8) | d
    }
}

/// What the caller asks for makes sense.
pub open spec fn inputs_ok(
    clock: u32,
    bitrate: u32,
    permille: u32,
    sjw: u32,
) -> bool {
    &&& clock != 0
    &&& 1 <= bitrate <= MAX_CLASSIC_BITRATE
    &&& 1 <= permille <= 999
    &&& 1 <= sjw <= 8
}

/// A timing that the hardware can run and whose bitrate error is within the
/// limit.
pub open spec fn acceptable(
    clock: u32,
    bitrate: u32,
    sjw: u32,
    max_ppm: u32,
    t: BitTiming,
) -> bool {
    &&& t.sjw == sjw
    &&& 2 <= t.prescaler <= 256
    &&& sjw <= t.time_seg2 <= 8
    &&& t.time_seg2 < t.time_seg1 <= 65
    &&& clock <= MAX_CLASSIC_BITRATE * t.cycles()
    &&& t.rate_gap(clock as int, bitrate as int) * 1_000_000 <= max_ppm * (bitrate * t.cycles())
}

/// `an / ad` is less than `bn / bd`.
pub open spec fn less(an: int, ad: int, bn: int, bd: int) -> bool {
    an * bd < bn * ad
}

/// Timing `a` is better than `b`: by the bitrate error, then by the sample
/// point error, then by the number of time quanta.
pub open spec fn better(clock: u32, bitrate: u32, permille: u32, a: BitTiming, b: BitTiming) -> bool {
    let ar = a.rate_gap(clock as int, bitrate as int);
    let br = b.rate_gap(clock as int, bitrate as int);
    let sa = a.sample_gap(permille as int);
    let sb = b.sample_gap(permille as int);
    if less(ar, a.cycles(), br, b.cycles()) {
        true
    } else if less(br, b.cycles(), ar, a.cycles()) {
        false
    } else if less(sa, a.tq(), sb, b.tq()) {
        true
    } else if less(sb, b.tq(), sa, a.tq()) {
        false
    } else {
        a.tq() > b.tq()
    }
}

/// Timing `a` comes before `b`: smaller prescaler, then smaller second segment,
/// then smaller first segment.
pub open spec fn before(a: BitTiming, b: BitTiming) -> bool {
    a.prescaler < b.prescaler || (a.prescaler == b.prescaler && (a.time_seg2 < b.time_seg2 || (
    a.time_seg2 == b.time_seg2 && a.time_seg1 < b.time_seg1)))
}

/// `best` wins against `t`: it is better, or as good and earlier.
pub open spec fn wins(clock: u32, bitrate: u32, permille: u32, best: BitTiming, t: BitTiming) -> bool {
    if before(t, best) {
        better(clock, bitrate, permille, best, t)
    } else {
        !better(clock, bitrate, permille, t, best)
    }
}

proof fn lemma_less_trans(an: int, ad: int, bn: int, bd: int, cn: int, cd: int)
    requires
        ad > 0,
        bd > 0,
        cd > 0,
        an >= 0,
        bn >= 0,
        cn >= 0,
    ensures
        less(an, ad, bn, bd) && !less(cn, cd, bn, bd) ==> less(an, ad, cn, cd),
        !less(bn, bd, an, ad) && less(bn, bd, cn, cd) ==> less(an, ad, cn, cd),
{
    if less(an, ad, bn, bd) && !less(cn, cd, bn, bd) {
        assert(an * cd < cn * ad) by (nonlinear_arith)
            requires
                an * bd < bn * ad,
                bn * cd <= cn * bd,
                ad > 0,
                bd > 0,
                cd > 0,
        {
            assert((an * bd) * cd < (bn * ad) * cd);
            assert((bn * cd) * ad <= (cn * bd) * ad);
            assert((an * cd) * bd == (an * bd) * cd);
            assert((bn * ad) * cd == (bn * cd) * ad);
            assert((cn * bd) * ad == (cn * ad) * bd);
            assert((an * cd) * bd < (cn * ad) * bd);
        }
    }
    if !less(bn, bd, an, ad) && less(bn, bd, cn, cd) {
        assert(an * cd < cn * ad) by (nonlinear_arith)
            requires
                an * bd <= bn * ad,
                bn * cd < cn * bd,
                ad > 0,
                bd > 0,
                cd > 0,
        {
            assert((an * bd) * cd <= (bn * ad) * cd);
            assert((bn * cd) * ad < (cn * bd) * ad);
            assert((an * cd) * bd == (an * bd) * cd);
            assert((bn * ad) * cd == (bn * cd) * ad);
            assert((cn * bd) * ad == (cn * ad) * bd);
            assert((an * cd) * bd < (cn * ad) * bd);
        }
    }
}

/// "Better" orders the timings: what beats a timing beats everything that does
/// not beat that one.
pub proof fn law_better_orders_timings(
    clock: u32,
    bitrate: u32,
    permille: u32,
    a: BitTiming,
    b: BitTiming,
    c: BitTiming,
)
    requires
        a.prescaler > 0,
        b.prescaler > 0,
        c.prescaler > 0,
        a.time_seg1 > 0,
        b.time_seg1 > 0,
        c.time_seg1 > 0,
    ensures
        better(clock, bitrate, permille, a, b) && !better(clock, bitrate, permille, c, b)
            ==> better(clock, bitrate, permille, a, c),
        !better(clock, bitrate, permille, b, a) && better(clock, bitrate, permille, b, c)
            ==> better(clock, bitrate, permille, a, c),
        better(clock, bitrate, permille, a, b) ==> !better(clock, bitrate, permille, b, a),
        !better(clock, bitrate, permille, a, a),
{
    let k = clock as int;
    let r = bitrate as int;
    let p = permille as int;
    lemma_cycles_positive(a);
    lemma_cycles_positive(b);
    lemma_cycles_positive(c);
    let (ar, br, cr) = (a.rate_gap(k, r), b.rate_gap(k, r), c.rate_gap(k, r));
    let (sa, sb, sc) = (a.sample_gap(p), b.sample_gap(p), c.sample_gap(p));
    lemma_less_trans(ar, a.cycles(), br, b.cycles(), cr, c.cycles());
    lemma_less_trans(cr, c.cycles(), br, b.cycles(), ar, a.cycles());
    lemma_less_trans(cr, c.cycles(), ar, a.cycles(), br, b.cycles());
    lemma_less_trans(br, b.cycles(), ar, a.cycles(), cr, c.cycles());
    lemma_less_trans(br, b.cycles(), cr, c.cycles(), ar, a.cycles());
    lemma_less_trans(ar, a.cycles(), cr, c.cycles(), br, b.cycles());
    lemma_less_trans(sa, a.tq(), sb, b.tq(), sc, c.tq());
    lemma_less_trans(sc, c.tq(), sb, b.tq(), sa, a.tq());
    lemma_less_trans(sc, c.tq(), sa, a.tq(), sb, b.tq());
    lemma_less_trans(sb, b.tq(), sa, a.tq(), sc, c.tq());
    lemma_less_trans(sb, b.tq(), sc, c.tq(), sa, a.tq());
    lemma_less_trans(sa, a.tq(), sc, c.tq(), sb, b.tq());
}

proof fn lemma_cycles_positive(t: BitTiming)
    requires
        t.prescaler > 0,
        t.time_seg1 > 0,
    ensures
        t.cycles() > 0,
        t.tq() > 0,
{
    assert(t.cycles() > 0) by (nonlinear_arith)
        requires
            t.cycles() == t.prescaler * t.tq(),
            t.prescaler > 0,
            t.tq() > 0,
    ;
}

fn abs_diff(lhs: u64, rhs: u64) -> (r: u64)
    ensures
        r == dist(lhs as int, rhs as int),
{
    if lhs < rhs {
        rhs - lhs
    } else {
        lhs - rhs
    }
}

proof fn lemma_whole_bound(n: int, d: int)
    requires
        0 <= n <= u32::MAX || 0 <= n <= d,
        d > 0,
    ensures
        n / d <= u32::MAX,
{
    if n <= u32::MAX {
        vstd::arithmetic::div_mod::lemma_div_is_ordered_by_denominator(n, 1, d);
    } else {
        vstd::arithmetic::div_mod::lemma_div_is_ordered(n, d, d);
        vstd::arithmetic::div_mod::lemma_div_by_self(d);
    }
}

/// `numerator * 1_000_000 / denominator` without constructing the potentially
/// overflowing product. The returned remainder belongs to that scaled division.
fn ppm_floor_and_remainder(numerator: u64, denominator: u64) -> (r: (u64, u64))
    requires
        0 < denominator <= u64::MAX / 10,
        numerator as int / denominator as int <= u32::MAX,
    ensures
        r.0 * denominator + r.1 == numerator * 1_000_000,
        r.1 < denominator,
        r.0 < 0x1_0000_0000 * 1_000_000,
{
    let whole: u64 = numerator / denominator;
    let first: u64 = numerator % denominator;
    let mut remainder: u64 = first;
    let mut fraction: u64 = 0;
    let mut digit: u32 = 0;
    let ghost mut power: int = 1;
    let ghost d = denominator as int;
    proof {
        lemma_fundamental_div_mod(numerator as int, d);
    }
    assert(fraction * d + remainder == first * power) by (nonlinear_arith)
        requires
            fraction == 0,
            remainder == first,
            power == 1,
    ;
    while digit < 6
        invariant
            d == denominator,
            0 < denominator <= u64::MAX / 10,
            digit <= 6,
            remainder < denominator,
            first < denominator,
            fraction < power,
            1 <= power <= 1_000_000,
            digit == 0 ==> power == 1,
            digit == 1 ==> power == 10,
            digit == 2 ==> power == 100,
            digit == 3 ==> power == 1_000,
            digit == 4 ==> power == 10_000,
            digit == 5 ==> power == 100_000,
            digit == 6 ==> power == 1_000_000,
            fraction * d + remainder == first * power,
        decreases 6 - digit,
    {
        let scaled: u64 = remainder * 10;
        let quotient: u64 = scaled / denominator;
        proof {
            lemma_fundamental_div_mod(scaled as int, d);
            lemma_mod_bound(scaled as int, d);
            assert(quotient < 10) by (nonlinear_arith)
                requires
                    scaled == d * quotient + scaled as int % d,
                    scaled as int % d >= 0,
                    scaled < 10 * d,
                    d > 0,
            ;
            let rest = scaled as int % d;
            assert((fraction * 10 + quotient) * d + rest == first * (power * 10)) by (
            nonlinear_arith)
                requires
                    fraction * d + remainder == first * power,
                    scaled == remainder * 10,
                    scaled == d * quotient + rest,
            ;
            power = power * 10;
        }
        fraction = fraction * 10 + quotient;
        remainder = scaled % denominator;
        digit += 1;
    }
    proof {
        assert((whole * 1_000_000 + fraction) * d + remainder == numerator * 1_000_000) by (
        nonlinear_arith)
            requires
                numerator == d * whole + first,
                fraction * d + remainder == first * 1_000_000,
        ;
    }
    (whole * 1_000_000 + fraction, remainder)
}

/// Whether the error is at most `limit_ppm`.
fn within_error_limit(difference: u64, target_cycles: u64, limit_ppm: u32) -> (r: bool)
    requires
        0 < target_cycles <= u64::MAX / 10,
        difference as int / target_cycles as int <= u32::MAX,
    ensures
        r == (difference * 1_000_000 <= limit_ppm * target_cycles),
{
    let (floor_ppm, remainder) = ppm_floor_and_remainder(difference, target_cycles);
    let limit: u64 = limit_ppm as u64;
    proof {
        let t = target_cycles as int;
        assert(floor_ppm < limit ==> floor_ppm * t + remainder <= limit * t) by (nonlinear_arith)
            requires
                remainder < t,
                t > 0,
        ;
        assert(floor_ppm > limit ==> floor_ppm * t + remainder > limit * t) by (nonlinear_arith)
            requires
                t > 0,
                remainder >= 0,
        ;
        assert(floor_ppm == limit ==> floor_ppm * t == limit * t);
    }
    floor_ppm < limit || (floor_ppm == limit && remainder == 0)
}

/// The best timing so far, with its errors.
#[derive(Clone, Copy)]
struct Best {
    timing: BitTiming,
    rate_gap: u64,
    cycles: u64,
    sample_gap: u64,
    tq: u64,
}

impl Best {
    spec fn ok(self, clock: u32, bitrate: u32, permille: u32) -> bool {
        &&& self.rate_gap == self.timing.rate_gap(clock as int, bitrate as int)
        &&& self.cycles == self.timing.cycles()
        &&& self.sample_gap == self.timing.sample_gap(permille as int)
        &&& self.tq == self.timing.tq()
    }
}

/// The search has passed `t` when it stands at these values.
spec fn passed(prescaler: int, seg2: int, seg1: int, t: BitTiming) -> bool {
    t.prescaler < prescaler || (t.prescaler == prescaler && (t.time_seg2 < seg2 || (t.time_seg2
        == seg2 && t.time_seg1 < seg1)))
}

/// `best` is the best of all timings that the search has passed.
spec fn leads(
    best: Option<Best>,
    clock: u32,
    bitrate: u32,
    permille: u32,
    sjw: u32,
    max_ppm: u32,
    prescaler: int,
    seg2: int,
    seg1: int,
) -> bool {
    match best {
        None => forall|t: BitTiming|
            #[trigger] acceptable(clock, bitrate, sjw, max_ppm, t) ==> !passed(
                prescaler,
                seg2,
                seg1,
                t,
            ),
        Some(b) => {
            &&& b.ok(clock, bitrate, permille)
            &&& acceptable(clock, bitrate, sjw, max_ppm, b.timing)
            &&& passed(prescaler, seg2, seg1, b.timing)
            &&& forall|t: BitTiming|
                #[trigger] acceptable(clock, bitrate, sjw, max_ppm, t) && passed(
                    prescaler,
                    seg2,
                    seg1,
                    t,
                ) ==> wins(clock, bitrate, permille, b.timing, t)
        },
    }
}

/// The sizes of the numbers in the search.
proof fn lemma_sizes(t: BitTiming, clock: u32, bitrate: u32, permille: u32)
    requires
        1 <= t.prescaler <= 256,
        1 <= t.time_seg1 <= 65,
        t.time_seg2 <= 8,
        bitrate <= MAX_CLASSIC_BITRATE,
        permille <= 999,
    ensures
        1 <= t.tq() <= 73,
        1 <= t.cycles() <= 18_688,
        0 <= bitrate * t.cycles() <= 18_688_000_000,
        0 <= t.rate_gap(clock as int, bitrate as int) <= 18_688_000_000,
        0 <= t.sample_gap(permille as int) <= 73_000,
        0 <= permille * t.tq() <= 73_000,
{
    assert(1 <= t.cycles() <= 18_688) by (nonlinear_arith)
        requires
            t.cycles() == t.prescaler * t.tq(),
            1 <= t.prescaler <= 256,
            1 <= t.tq() <= 73,
    ;
    let c = t.cycles();
    assert(0 <= bitrate * c <= 1_000_000 * 18_688) by (nonlinear_arith)
        requires
            0 <= bitrate <= 1_000_000,
            1 <= c <= 18_688,
    ;
    let q = t.tq();
    assert(0 <= permille * q <= 1000 * 73) by (nonlinear_arith)
        requires
            0 <= permille <= 999,
            1 <= q <= 73,
    ;
}

/// Whether `a` is better than `b`.
fn is_better(
    a: &Best,
    b: &Best,
    Ghost(clock): Ghost<u32>,
    Ghost(bitrate): Ghost<u32>,
    Ghost(permille): Ghost<u32>,
) -> (r: bool)
    requires
        a.ok(clock, bitrate, permille),
        b.ok(clock, bitrate, permille),
        a.cycles <= 18_688,
        b.cycles <= 18_688,
        a.rate_gap <= 18_688_000_000,
        b.rate_gap <= 18_688_000_000,
        a.sample_gap <= 73_000,
        b.sample_gap <= 73_000,
        a.tq <= 73,
        b.tq <= 73,
    ensures
        r == better(clock, bitrate, permille, a.timing, b.timing),
{
    proof {
        lemma_small_product(a.rate_gap, b.cycles);
        lemma_small_product(b.rate_gap, a.cycles);
        lemma_small_product(a.sample_gap, b.tq);
        lemma_small_product(b.sample_gap, a.tq);
    }
    let candidate_rate: u64 = a.rate_gap * b.cycles;
    let incumbent_rate: u64 = b.rate_gap * a.cycles;
    if candidate_rate != incumbent_rate {
        candidate_rate < incumbent_rate
    } else {
        let candidate_sample: u64 = a.sample_gap * b.tq;
        let incumbent_sample: u64 = b.sample_gap * a.tq;
        if candidate_sample != incumbent_sample {
            candidate_sample < incumbent_sample
        } else {
            a.tq > b.tq
        }
    }
}

proof fn lemma_small_product(a: u64, b: u64)
    requires
        a <= 18_688_000_000,
        b <= 18_688,
    ensures
        a * b <= u64::MAX,
{
    assert(a * b <= 18_688_000_000 * 18_688) by (nonlinear_arith)
        requires
            a <= 18_688_000_000,
            b <= 18_688,
    ;
}

/// Take one timing into account.
#[verifier::rlimit(30)]
fn consider(
    best: Option<Best>,
    clock_hz: u32,
    target_bitrate: u32,
    target_sample_point_permille: u32,
    sjw: u32,
    max_error_ppm: u32,
    timing: BitTiming,
) -> (next: Option<Best>)
    requires
        inputs_ok(clock_hz, target_bitrate, target_sample_point_permille, sjw),
        timing.sjw == sjw,
        2 <= timing.prescaler <= 256,
        sjw <= timing.time_seg2 <= 8,
        timing.time_seg2 < timing.time_seg1 <= 65,
        leads(
            best,
            clock_hz,
            target_bitrate,
            target_sample_point_permille,
            sjw,
            max_error_ppm,
            timing.prescaler as int,
            timing.time_seg2 as int,
            timing.time_seg1 as int,
        ),
    ensures
        leads(
            next,
            clock_hz,
            target_bitrate,
            target_sample_point_permille,
            sjw,
            max_error_ppm,
            timing.prescaler as int,
            timing.time_seg2 as int,
            timing.time_seg1 + 1,
        ),
{
    let ghost clock = clock_hz;
    let ghost bitrate = target_bitrate;
    let ghost permille = target_sample_point_permille;
    proof {
        lemma_sizes(timing, clock, bitrate, permille);
        assert forall|t: BitTiming|
            #[trigger] acceptable(clock, bitrate, sjw, max_error_ppm, t) && passed(
                timing.prescaler as int,
                timing.time_seg2 as int,
                timing.time_seg1 + 1,
                t,
            ) implies t == timing || passed(
            timing.prescaler as int,
            timing.time_seg2 as int,
            timing.time_seg1 as int,
            t,
        ) by {}
    }
    let tq: u64 = (timing.time_seg1 + timing.time_seg2) as u64;
    assert(timing.prescaler * tq == timing.cycles());
    let cycles: u64 = timing.prescaler as u64 * tq;
    let target_cycles: u64 = target_bitrate as u64 * cycles;
    let rate_gap: u64 = abs_diff(clock_hz as u64, target_cycles);
    if clock_hz as u64 > 1_000_000 * cycles {
        return best;
    }
    proof {
        assert(target_cycles > 0) by (nonlinear_arith)
            requires
                target_cycles == target_bitrate * cycles,
                target_bitrate >= 1,
                cycles >= 1,
        ;
        lemma_whole_bound(rate_gap as int, target_cycles as int);
    }
    if !within_error_limit(rate_gap, target_cycles, max_error_ppm) {
        return best;
    }
    let desired: u64 = target_sample_point_permille as u64 * tq;
    let actual: u64 = timing.time_seg1 as u64 * 1_000;
    let sample_gap: u64 = abs_diff(actual, desired);
    let found = Best { timing, rate_gap, cycles, sample_gap, tq };
    match best {
        None => {
            proof {
                law_better_orders_timings(clock, bitrate, permille, timing, timing, timing);
            }
            Some(found)
        },
        Some(incumbent) => {
            proof {
                lemma_sizes(incumbent.timing, clock, bitrate, permille);
                assert forall|t: BitTiming|
                    #[trigger] acceptable(clock, bitrate, sjw, max_error_ppm, t) && passed(
                        timing.prescaler as int,
                        timing.time_seg2 as int,
                        timing.time_seg1 as int,
                        t,
                    ) && better(clock, bitrate, permille, timing, incumbent.timing) implies better(
                    clock,
                    bitrate,
                    permille,
                    timing,
                    t,
                ) by {
                    law_better_orders_timings(
                        clock,
                        bitrate,
                        permille,
                        timing,
                        incumbent.timing,
                        t,
                    );
                    law_better_orders_timings(
                        clock,
                        bitrate,
                        permille,
                        incumbent.timing,
                        t,
                        incumbent.timing,
                    );
                }
                law_better_orders_timings(clock, bitrate, permille, timing, timing, timing);
            }
            if is_better(
                &found,
                &incumbent,
                Ghost(clock),
                Ghost(bitrate),
                Ghost(permille),
            ) {
                Some(found)
            } else {
                best
            }
        },
    }
}

/// Find the best HC32F460 classical CAN nominal bit timing.
///
/// `sample_point_permille` must be in `1..=999`, and `sjw` must be in
/// `1..=8`. Candidates are ordered by exact bitrate error, then exact sample
/// point error, then by the larger number of time quanta. `max_error_ppm` is
/// applied to the exact (unrounded) bitrate error.
pub fn calculate(
    clock_hz: u32,
    target_bitrate: u32,
    target_sample_point_permille: u32,
    sjw: u32,
    max_error_ppm: u32,
) -> (r: Option<BitTiming>)
    ensures
        match r {
            None => !inputs_ok(clock_hz, target_bitrate, target_sample_point_permille, sjw)
                || forall|t: BitTiming|
                !#[trigger] acceptable(clock_hz, target_bitrate, sjw, max_error_ppm, t),
            Some(best) => {
                &&& inputs_ok(clock_hz, target_bitrate, target_sample_point_permille, sjw)
                &&& acceptable(clock_hz, target_bitrate, sjw, max_error_ppm, best)
                &&& forall|t: BitTiming|
                    #[trigger] acceptable(clock_hz, target_bitrate, sjw, max_error_ppm, t)
                        ==> wins(clock_hz, target_bitrate, target_sample_point_permille, best, t)
            },
        },
{
    if clock_hz == 0 || target_bitrate == 0 || target_bitrate > MAX_CLASSIC_BITRATE
        || target_sample_point_permille == 0 || target_sample_point_permille >= 1_000 || sjw == 0
        || sjw > 8 {
        return None;
    }
    let mut best: Option<Best> = None;
    let mut prescaler: u32 = 2;
    while prescaler <= 256
        invariant
            2 <= prescaler <= 257,
            inputs_ok(clock_hz, target_bitrate, target_sample_point_permille, sjw),
            leads(
                best,
                clock_hz,
                target_bitrate,
                target_sample_point_permille,
                sjw,
                max_error_ppm,
                prescaler as int,
                sjw as int,
                sjw + 1,
            ),
        decreases 257 - prescaler,
    {
        let mut time_seg2: u32 = sjw;
        while time_seg2 <= 8
            invariant
                2 <= prescaler <= 256,
                sjw <= time_seg2 <= 9,
                inputs_ok(clock_hz, target_bitrate, target_sample_point_permille, sjw),
                leads(
                    best,
                    clock_hz,
                    target_bitrate,
                    target_sample_point_permille,
                    sjw,
                    max_error_ppm,
                    prescaler as int,
                    time_seg2 as int,
                    time_seg2 + 1,
                ),
            decreases 9 - time_seg2,
        {
            let mut time_seg1: u32 = time_seg2 + 1;
            while time_seg1 <= 65
                invariant
                    2 <= prescaler <= 256,
                    sjw <= time_seg2 <= 8,
                    time_seg2 < time_seg1 <= 66,
                    inputs_ok(clock_hz, target_bitrate, target_sample_point_permille, sjw),
                    leads(
                        best,
                        clock_hz,
                        target_bitrate,
                        target_sample_point_permille,
                        sjw,
                        max_error_ppm,
                        prescaler as int,
                        time_seg2 as int,
                        time_seg1 as int,
                    ),
                decreases 66 - time_seg1,
            {
                best = consider(
                    best,
                    clock_hz,
                    target_bitrate,
                    target_sample_point_permille,
                    sjw,
                    max_error_ppm,
                    BitTiming { prescaler, time_seg1, time_seg2, sjw },
                );
                time_seg1 += 1;
            }
            time_seg2 += 1;
        }
        prescaler += 1;
    }
    match best {
        Some(found) => {
            proof {
                law_better_orders_timings(
                    clock_hz,
                    target_bitrate,
                    target_sample_point_permille,
                    found.timing,
                    found.timing,
                    found.timing,
                );
            }
            Some(found.timing)
        },
        None => None,
    }
}

/// A timing that was found fits the register, samples after the second segment
/// could still be stretched, and never exceeds the classical bitrate limit.
pub proof fn law_found_timing_is_runnable(
    clock: u32,
    bitrate: u32,
    permille: u32,
    sjw: u32,
    max_ppm: u32,
    t: BitTiming,
)
    requires
        inputs_ok(clock, bitrate, permille, sjw),
        acceptable(clock, bitrate, sjw, max_ppm, t),
    ensures
        t.in_range(),
        t.prescaler != 1,
        t.time_seg1 >= t.time_seg2 + 1,
        t.time_seg2 >= t.sjw,
        clock as int / t.cycles() <= MAX_CLASSIC_BITRATE,
{
    lemma_cycles_positive(t);
    let q = clock as int / t.cycles();
    let c = t.cycles();
    lemma_fundamental_div_mod(clock as int, c);
    lemma_mod_bound(clock as int, c);
    assert(q <= 1_000_000) by (nonlinear_arith)
        requires
            clock == c * q + clock as int % c,
            clock as int % c >= 0,
            clock <= 1_000_000 * c,
            c > 0,
    ;
}

/// The timing that wins has the smallest error of the bitrate: of two timings, clock
/// cycles of a bit being the prescaler times both segments, the error of the winner is
/// not larger than that of any other that it wins against.
pub proof fn law_no_timing_is_closer(
    clock: u32,
    bitrate: u32,
    permille: u32,
    best: BitTiming,
    t: BitTiming,
)
    requires
        wins(clock, bitrate, permille, best, t),
    ensures
        ({
            let own = best.prescaler * (best.time_seg1 + best.time_seg2);
            let other = t.prescaler * (t.time_seg1 + t.time_seg2);
            let own_gap = if clock >= bitrate * own {
                clock - bitrate * own
            } else {
                bitrate * own - clock
            };
            let other_gap = if clock >= bitrate * other {
                clock - bitrate * other
            } else {
                bitrate * other - clock
            };
            own_gap * other <= other_gap * own
        }),
{
    let ar = best.rate_gap(clock as int, bitrate as int);
    let br = t.rate_gap(clock as int, bitrate as int);
    assert(!less(br, t.cycles(), ar, best.cycles()));
    assert(!(br * best.cycles() < ar * t.cycles()));
    assert(br * best.cycles() == best.cycles() * br) by (nonlinear_arith);
}

} // verus!
