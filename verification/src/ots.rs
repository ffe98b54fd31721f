//! The temperature sensor of the chip.
//!
//! The temperature is `K * (1/DR1 - 1/DR2) * ECR + M`, with two data registers, a
//! correction that counts only with the internal oscillator, and a slope and an
//! offset that are found by calibration. There are no fractions: slope, offset and
//! temperature are in thousandths, and reciprocals in units of 10^-12.

use vstd::prelude::*;

use crate::clk;
use crate::clk::{ClkError, Crystal};
use crate::mmio::{Access, Check, Cleanup, Limit, Otherwise, Place, Step, Width, change_half, change_word, half};

verus! {

const CTL: usize = 0x4004_a400;

const DR1: usize = 0x4004_a402;

const DR2: usize = 0x4004_a404;

const ECR: usize = 0x4004_a406;

const FCG3: usize = 0x4004_800c;

const CTL_OTSST: u16 = 0x01;

/// Thousandths.
pub const SCALE: i64 = 1000;

const A_SCALE: i64 = 1_000_000_000_000;

/// What the sensor counts with.
#[derive(Clone, Copy, Debug, PartialEq, Eq, Structural)]
pub enum ClockSource {
    /// The external crystal.
    Xtal,
    /// The internal high-speed oscillator.
    Hrc,
}

impl ClockSource {
    /// The name in the configuration.
    pub fn name(self) -> (r: &'static str)
        ensures
            r@ == (match self {
                ClockSource::Xtal => "xtal"@,
                ClockSource::Hrc => "hrc"@,
            }),
    {
        match self {
            ClockSource::Xtal => "xtal",
            ClockSource::Hrc => "hrc",
        }
    }
}

/// Whether the sensor is switched off after a sample.
#[derive(Clone, Copy, Debug, PartialEq, Eq, Structural)]
pub enum AutoOff {
    /// It is; the next sample takes longer.
    Enable,
    /// It stays on.
    Disable,
}

/// The configuration of the sensor.
#[derive(Clone, Copy, Debug, PartialEq, Eq, Structural)]
pub struct Config {
    pub clock_src: ClockSource,
    /// The slope in thousandths.
    pub slope_k: i32,
    /// The offset in thousandths.
    pub offset_m: i32,
    pub auto_off: AutoOff,
}

impl Default for Config {
    fn default() -> (r: Self)
        ensures
            r == (Config {
                clock_src: ClockSource::Hrc,
                slope_k: 0,
                offset_m: 0,
                auto_off: AutoOff::Enable,
            }),
    {
        Config {
            clock_src: ClockSource::Hrc,
            slope_k: 0,
            offset_m: 0,
            auto_off: AutoOff::Enable,
        }
    }
}

/// Why there is no temperature.
#[derive(Clone, Copy, Debug, PartialEq, Eq, Structural)]
pub enum Error {
    /// The sample was not complete in time.
    Timeout,
}

/// The sensor as it was set up last.
#[derive(Clone, Copy, Debug, PartialEq, Eq, Structural)]
pub struct Sensor {
    pub initialized: bool,
    pub slope_k: i32,
    pub offset_m: i32,
    pub hrc: bool,
}

// ---------------------------------------------------------------------------
// Arithmetic
// ---------------------------------------------------------------------------

/// Division that rounds towards zero.
pub open spec fn quotient(a: int, b: int) -> int {
    if a >= 0 {
        a / b
    } else {
        -((-a) / b)
    }
}

/// The correction that counts.
pub open spec fn correction(hrc: bool, ecr: u16) -> int {
    if hrc {
        ecr as int
    } else {
        1
    }
}

/// The difference of the reciprocals, in units of 10^-12.
pub open spec fn reciprocals(dr1: u16, dr2: u16) -> int {
    1_000_000_000_000int / (dr1 as int) - 1_000_000_000_000int / (dr2 as int)
}

/// The temperature in thousandths of a degree; -300 degrees when a register is
/// zero.
pub open spec fn temperature(k: int, m: int, hrc: bool, dr1: u16, dr2: u16, ecr: u16) -> int {
    if dr1 != 0 && dr2 != 0 && correction(hrc, ecr) != 0 {
        quotient(k * correction(hrc, ecr) * reciprocals(dr1, dr2), 1_000_000_000_000) + m
    } else {
        -300_000
    }
}

/// The temperature in thousandths of a degree, given the data registers; modulo
/// 2^32, should it not fit.
pub fn calculate_temp(s: &Sensor, dr1: u16, dr2: u16, ecr: u16) -> (r: i32)
    ensures
        ({
            let t = temperature(
                s.slope_k as int,
                s.offset_m as int,
                s.hrc,
                dr1,
                dr2,
                ecr,
            );
            &&& r == (t + 0x8000_0000) % 0x1_0000_0000 - 0x8000_0000
            &&& i32::MIN <= t <= i32::MAX ==> r == t
        }),
{
    let k: i64 = s.slope_k as i64;
    let m: i64 = s.offset_m as i64;
    let e: i64 = if s.hrc {
        ecr as i64
    } else {
        1
    };
    if dr1 == 0 || dr2 == 0 || e == 0 {
        return -300_000;
    }
    let first: i64 = A_SCALE / (dr1 as i64);
    let second: i64 = A_SCALE / (dr2 as i64);
    proof {
        lemma_reciprocal(dr1);
        lemma_reciprocal(dr2);
    }
    let a: i64 = first - second;
    assert(-0x8000_0000 * 0xffff <= k * e <= 0x8000_0000 * 0xffff) by (nonlinear_arith)
        requires
            -0x8000_0000 <= k <= 0x8000_0000,
            0 <= e <= 0xffff,
    ;
    let ke: i64 = k * e;
    assert(-140_737_488_355_328_000_000_000_000 <= ke * a
        <= 140_737_488_355_328_000_000_000_000) by (nonlinear_arith)
        requires
            -140_737_488_355_328 <= ke <= 140_737_488_355_328,
            -1_000_000_000_000 <= a <= 1_000_000_000_000,
    ;
    let product: i128 = ke as i128 * a as i128;
    let t: i128 = product / (A_SCALE as i128);
    let total: i64 = t as i64 + m;
    assert(total as i32 == (total + 0x8000_0000) % 0x1_0000_0000 - 0x8000_0000) by (bit_vector);
    total as i32
}

proof fn lemma_reciprocal(d: u16)
    requires
        d != 0,
    ensures
        0 <= 1_000_000_000_000int / (d as int) <= 1_000_000_000_000,
{
    vstd::arithmetic::div_mod::lemma_div_is_ordered_by_denominator(
        1_000_000_000_000,
        1,
        d as int,
    );
    vstd::arithmetic::div_mod::lemma_div_pos_is_pos(1_000_000_000_000, d as int);
}

/// Thousandths to tenths, rounded; halves are rounded away from zero.
pub fn to_deci(temp_milli: i32) -> (r: i32)
    requires
        -2_147_483_598 <= temp_milli <= 2_147_483_597,
    ensures
        r == (if temp_milli >= 0 {
            (temp_milli + 50) / 100
        } else {
            -((50 - temp_milli) / 100)
        }),
        -50 <= 100 * r - temp_milli <= 50,
{
    if temp_milli >= 0 {
        (temp_milli + 50) / 100
    } else {
        (temp_milli - 50) / 100
    }
}

/// The absolute value.
pub open spec fn magnitude(x: int) -> int {
    if x < 0 {
        -x
    } else {
        x
    }
}

/// Tenths as an integer part, which has the sign, and a digit.
pub fn split_deci(deci: i32) -> (r: (i32, u32))
    ensures
        r.1 == magnitude(deci as int) % 10,
        r.0 == (if deci < 0 {
            -(magnitude(deci as int) / 10)
        } else {
            magnitude(deci as int) / 10
        }),
        magnitude(r.0 as int) * 10 + r.1 == magnitude(deci as int),
{
    let wide: i64 = deci as i64;
    let abs: u32 = (if wide < 0 {
        -wide
    } else {
        wide
    }) as u32;
    let whole: i32 = (abs / 10) as i32;
    if deci < 0 {
        (-whole, abs % 10)
    } else {
        (whole, abs % 10)
    }
}

/// Thousandths as an integer part, which has the sign, and three digits.
pub fn split_milli(milli: i32) -> (r: (i64, u32, u32, u32))
    ensures
        r.0 == (if milli < 0 {
            -(magnitude(milli as int) / 1000)
        } else {
            magnitude(milli as int) / 1000
        }),
        r.1 < 10,
        r.2 < 10,
        r.3 < 10,
        magnitude(r.0 as int) * 1000 + r.1 * 100 + r.2 * 10 + r.3 == magnitude(milli as int),
{
    let wide: i64 = milli as i64;
    let abs: u64 = (if wide < 0 {
        -wide
    } else {
        wide
    }) as u64;
    let whole: u64 = abs / 1000;
    let rest: u64 = abs % 1000;
    let signed: i64 = if milli < 0 {
        -(whole as i64)
    } else {
        whole as i64
    };
    assert(magnitude(signed as int) == whole);
    (signed, (rest / 100) as u32, (rest / 10 % 10) as u32, (rest % 10) as u32)
}

// ---------------------------------------------------------------------------
// Sampling
// ---------------------------------------------------------------------------

/// Begin a sample.
pub fn start() -> (r: Access)
    ensures
        r == change_half(0x4004_a400, 0, 0x01),
{
    change_half(CTL, 0, CTL_OTSST)
}

/// End a sample.
pub fn stop() -> (r: Access)
    ensures
        r == change_half(0x4004_a400, 0x01, 0),
{
    change_half(CTL, CTL_OTSST, 0)
}

/// Whether a sample is being taken, given the control register.
pub fn sampling(ctl: u16) -> (r: bool)
    ensures
        r == (ctl & 0x01 != 0),
{
    ctl & CTL_OTSST != 0
}

/// Whether the sensor is set up.
pub fn enabled(s: &Sensor) -> (r: bool)
    ensures
        r == s.initialized,
{
    s.initialized
}

/// A sample is begun, waited for with `timeout + 1` readings at most, and ended,
/// also when it is not complete.
pub open spec fn sample_steps(timeout: u32) -> Seq<Step<Error>> {
    seq![
        Step::<Error>::Do(change_half(0x4004_a400, 0, 0x01)),
        Step::Wait {
            check: Check {
                place: Place { addr: 0x4004_a400, width: Width::Half },
                mask: 0x01,
                value: 0,
            },
            limit: Limit::Readings((timeout + 1) as u64),
            otherwise: Otherwise::Fail {
                cleanup: Cleanup::One(change_half(0x4004_a400, 0x01, 0)),
                error: Error::Timeout,
            },
        },
        Step::Do(change_half(0x4004_a400, 0x01, 0)),
    ]
}

/// Take a sample. [`calculate_temp`] gives the temperature afterwards.
pub fn polling(timeout: u32) -> (r: Vec<Step<Error>>)
    ensures
        r@ == sample_steps(timeout),
{
    vec![
        Step::Do(start()),
        Step::Wait {
            check: Check {
                place: Place { addr: CTL, width: Width::Half },
                mask: CTL_OTSST as u32,
                value: 0,
            },
            limit: Limit::Readings(timeout as u64 + 1),
            otherwise: Otherwise::Fail { cleanup: Cleanup::One(stop()), error: Error::Timeout },
        },
        Step::Do(stop()),
    ]
}

/// What to do next when a sample is waited for until a moment in time: nothing
/// while it is being taken and there is time left; otherwise it is ended, and it
/// is complete or not.
pub fn polling_until(ctl: u16, now_ms: u32, deadline_ms: u32) -> (r: Option<
    (Access, Result<(), Error>),
>)
    ensures
        match r {
            None => ctl & 0x01 != 0 && now_ms < deadline_ms,
            Some((access, outcome)) => {
                &&& access == change_half(0x4004_a400, 0x01, 0)
                &&& outcome is Ok <==> ctl & 0x01 == 0
                &&& outcome is Err ==> now_ms >= deadline_ms
            },
        },
{
    if !sampling(ctl) {
        return Some((stop(), Ok(())));
    }
    if now_ms >= deadline_ms {
        return Some((stop(), Err(Error::Timeout)));
    }
    None
}

/// Where the data registers and the correction are read.
pub fn read_raw() -> (r: (Place, Place, Place))
    ensures
        r.0 == (Place { addr: 0x4004_a402, width: Width::Half }),
        r.1 == (Place { addr: 0x4004_a404, width: Width::Half }),
        r.2 == (Place { addr: 0x4004_a406, width: Width::Half }),
{
    (
        Place { addr: DR1, width: Width::Half },
        Place { addr: DR2, width: Width::Half },
        Place { addr: ECR, width: Width::Half },
    )
}

/// What a calibration sample gives.
#[derive(Clone, Copy, Debug, PartialEq, Eq, Structural)]
pub struct ScalingResult {
    pub dr1: u16,
    pub dr2: u16,
    pub ecr: u16,
    /// The difference of the reciprocals times the correction, in units of 10^-12.
    pub a: i64,
}

/// Evaluate a calibration sample: `sample` is what came of taking it.
pub fn scaling_experiment(
    s: &Sensor,
    sample: Result<(), Error>,
    dr1: u16,
    dr2: u16,
    ecr: u16,
) -> (r: Result<ScalingResult, Error>)
    ensures
        match r {
            Ok(result) => {
                &&& sample is Ok
                &&& result.dr1 == dr1
                &&& result.dr2 == dr2
                &&& result.ecr == correction(s.hrc, ecr)
                &&& result.a == (if dr1 != 0 && dr2 != 0 && correction(s.hrc, ecr) != 0 {
                    reciprocals(dr1, dr2) * correction(s.hrc, ecr)
                } else {
                    0
                })
            },
            Err(_) => sample is Err,
        },
{
    if sample.is_err() {
        return Err(Error::Timeout);
    }
    let e: u16 = if s.hrc {
        ecr
    } else {
        1
    };
    let mut a: i64 = 0;
    if dr1 != 0 && dr2 != 0 && e != 0 {
        let first: i64 = A_SCALE / (dr1 as i64);
        let second: i64 = A_SCALE / (dr2 as i64);
        proof {
            lemma_reciprocal(dr1);
            lemma_reciprocal(dr2);
        }
        let d: i64 = first - second;
        assert(-1_000_000_000_000 * 0xffff <= d * e <= 1_000_000_000_000 * 0xffff)
            by (nonlinear_arith)
            requires
                -1_000_000_000_000 <= d <= 1_000_000_000_000,
                0 <= e <= 0xffff,
        ;
        a = d * (e as i64);
    }
    Ok(ScalingResult { dr1, dr2, ecr: e, a })
}

/// Let a completed sample interrupt, or not.
pub fn int_enable(enable: bool) -> (r: Access)
    ensures
        r == (if enable {
            change_half(0x4004_a400, 0, 0x04)
        } else {
            change_half(0x4004_a400, 0x04, 0)
        }),
{
    if enable {
        change_half(CTL, 0, 0x04)
    } else {
        change_half(CTL, 0x04, 0)
    }
}

/// Switch the sensor off: the sample is ended and all registers are cleared.
pub fn deinit<E>(s: &mut Sensor) -> (r: Vec<Step<E>>)
    ensures
        *final(s) == (Sensor { initialized: false, ..*old(s) }),
        r@ == seq![
            Step::<E>::Do(change_half(0x4004_a400, 0x01, 0)),
            Step::<E>::Do(half(0x4004_a400, 0)),
            Step::<E>::Do(half(0x4004_a402, 0)),
            Step::<E>::Do(half(0x4004_a404, 0)),
            Step::<E>::Do(half(0x4004_a406, 0)),
        ],
{
    s.initialized = false;
    vec![
        Step::Do(stop()),
        Step::Do(half(CTL, 0)),
        Step::Do(half(DR1, 0)),
        Step::Do(half(DR2, 0)),
        Step::Do(half(ECR, 0)),
    ]
}

/// The oscillators that the sensor needs are started.
pub open spec fn oscillator_steps(source: ClockSource, crystal: Crystal) -> Seq<Step<ClkError>> {
    match source {
        ClockSource::Hrc => clk::oscillator_steps(
            0x4005_4036,
            true,
            0x01,
            ClkError::HrcStableTimeout,
        ) + clk::slow_steps(0x4005_4420, true),
        ClockSource::Xtal => clk::xtal_steps(crystal),
    }
}

/// The sensor is given its clock, the oscillators that it needs are started, and it
/// is set up.
pub open spec fn init_steps(cfg: Config, crystal: Crystal) -> Seq<Step<ClkError>> {
    seq![Step::<ClkError>::Do(change_word(0x4004_800c, 0x1000, 0))] + oscillator_steps(
        cfg.clock_src,
        crystal,
    ) + clk::slow_steps(0x4005_4427, true) + seq![
        Step::<ClkError>::Do(change_half(0x4004_a400, 0x01, 0)),
        Step::<ClkError>::Do(
            half(
                0x4004_a400,
                (if cfg.clock_src == ClockSource::Hrc {
                    0x02u16
                } else {
                    0
                }) | (if cfg.auto_off == AutoOff::Enable {
                    0x08u16
                } else {
                    0
                }),
            ),
        ),
    ]
}

/// Set up the sensor. [`Sensor::configured`] holds afterwards.
pub fn init(cfg: Config, crystal: Crystal) -> (r: Vec<Step<ClkError>>)
    ensures
        r@ == init_steps(cfg, crystal),
{
    let mut out: Vec<Step<ClkError>> = vec![Step::Do(change_word(FCG3, 0x1000, 0))];
    match cfg.clock_src {
        ClockSource::Hrc => {
            let mut hrc: Vec<Step<ClkError>> = clk::hrc_cmd(true);
            out.append(&mut hrc);
            if let Ok(steps) = clk::xtal32_cmd(true, 0) {
                let mut xtal32: Vec<Step<ClkError>> = steps;
                out.append(&mut xtal32);
            }
        },
        ClockSource::Xtal => {
            let mut xtal: Vec<Step<ClkError>> = clk::xtal_init(crystal);
            out.append(&mut xtal);
        },
    }
    if let Ok(steps) = clk::lrc_cmd(true, 0) {
        let mut lrc: Vec<Step<ClkError>> = steps;
        out.append(&mut lrc);
    }
    let source: u16 = if cfg.clock_src == ClockSource::Hrc {
        0x02
    } else {
        0
    };
    let auto_off: u16 = if cfg.auto_off == AutoOff::Enable {
        0x08
    } else {
        0
    };
    out.push(Step::Do(stop()));
    out.push(Step::Do(half(CTL, source | auto_off)));
    assert(out@ =~= init_steps(cfg, crystal));
    out
}

impl Sensor {
    /// The sensor after it has been set up.
    pub fn configured(cfg: Config) -> (r: Self)
        ensures
            r == (Sensor {
                initialized: true,
                slope_k: cfg.slope_k,
                offset_m: cfg.offset_m,
                hrc: cfg.clock_src == ClockSource::Hrc,
            }),
    {
        Sensor {
            initialized: true,
            slope_k: cfg.slope_k,
            offset_m: cfg.offset_m,
            hrc: cfg.clock_src == ClockSource::Hrc,
        }
    }
}

// ---------------------------------------------------------------------------
// What the temperature is
// ---------------------------------------------------------------------------

/// Rounding towards zero loses less than one, and keeps the sign.
proof fn lemma_quotient(a: int, b: int)
    requires
        b > 0,
    ensures
        -b < b * quotient(a, b) - a < b,
        a >= 0 ==> 0 <= b * quotient(a, b) <= a,
        a <= 0 ==> a <= b * quotient(a, b) <= 0,
{
    if a >= 0 {
        vstd::arithmetic::div_mod::lemma_fundamental_div_mod(a, b);
        vstd::arithmetic::div_mod::lemma_div_pos_is_pos(a, b);
        assert(b * (a / b) >= 0) by (nonlinear_arith)
            requires
                a / b >= 0,
                b > 0,
        ;
    } else {
        let p = -a;
        vstd::arithmetic::div_mod::lemma_fundamental_div_mod(p, b);
        vstd::arithmetic::div_mod::lemma_div_pos_is_pos(p, b);
        assert(b * (p / b) >= 0) by (nonlinear_arith)
            requires
                p / b >= 0,
                b > 0,
        ;
        assert(b * (-(p / b)) == -(b * (p / b))) by (nonlinear_arith);
    }
}

/// The difference of the reciprocals is that of 1/DR1 and 1/DR2 in units of 10^-12, less
/// than one unit off; it is 0 for equal registers and changes its sign with their order.
pub proof fn law_reciprocals(dr1: u16, dr2: u16)
    requires
        dr1 != 0,
        dr2 != 0,
    ensures
        ({
            let exact = 1_000_000_000_000 * (dr2 - dr1);
            let product = dr1 * dr2;
            -product < reciprocals(dr1, dr2) * product - exact < product
        }),
        dr1 == dr2 ==> reciprocals(dr1, dr2) == 0,
        reciprocals(dr2, dr1) == -reciprocals(dr1, dr2),
{
    let n = 1_000_000_000_000int;
    let x = dr1 as int;
    let y = dr2 as int;
    let p = n / x;
    let q = n / y;
    vstd::arithmetic::div_mod::lemma_fundamental_div_mod(n, x);
    vstd::arithmetic::div_mod::lemma_fundamental_div_mod(n, y);
    let r = n % x;
    let s = n % y;
    assert(n == x * p + r && 0 <= r < x);
    assert(n == y * q + s && 0 <= s < y);
    assert(-(x * y) < (p - q) * (x * y) - n * (y - x) < x * y) by (nonlinear_arith)
        requires
            n == x * p + r,
            n == y * q + s,
            0 <= r < x,
            0 <= s < y,
            x > 0,
            y > 0,
    {
        assert((p - q) * (x * y) == (x * p) * y - (y * q) * x) by (nonlinear_arith);
        assert((n - r) * y - (n - s) * x == n * (y - x) + s * x - r * y) by (nonlinear_arith);
        assert(0 <= s * x < x * y) by (nonlinear_arith)
            requires
                0 <= s < y,
                x > 0,
        ;
        assert(0 <= r * y < x * y) by (nonlinear_arith)
            requires
                0 <= r < x,
                y > 0,
        ;
    }
}

/// The temperature is the offset plus the slope times the correction times the difference
/// of the reciprocals, rounded towards the offset by less than a thousandth of a degree.
/// The correction counts with the internal oscillator only; a register that is zero is
/// reported as -300 degrees.
pub proof fn law_temperature_follows_the_formula(
    s: Sensor,
    dr1: u16,
    dr2: u16,
    ecr: u16,
    other: u16,
)
    ensures
        ({
            let t = temperature(s.slope_k as int, s.offset_m as int, s.hrc, dr1, dr2, ecr);
            let factor = if s.hrc {
                ecr as int
            } else {
                1
            };
            let exact = s.slope_k * factor * reciprocals(dr1, dr2);
            let shown = 1_000_000_000_000 * (t - s.offset_m);
            if dr1 == 0 || dr2 == 0 || factor == 0 {
                t == -300_000
            } else {
                &&& -1_000_000_000_000 < shown - exact < 1_000_000_000_000
                &&& exact >= 0 ==> 0 <= shown <= exact
                &&& exact <= 0 ==> exact <= shown <= 0
                &&& dr1 == dr2 ==> t == s.offset_m
            }
        }),
        !s.hrc ==> temperature(s.slope_k as int, s.offset_m as int, s.hrc, dr1, dr2, ecr)
            == temperature(s.slope_k as int, s.offset_m as int, s.hrc, dr1, dr2, other),
{
    if dr1 != 0 && dr2 != 0 {
        let c = correction(s.hrc, ecr);
        let exact = s.slope_k * c * reciprocals(dr1, dr2);
        lemma_quotient(exact, 1_000_000_000_000);
        if dr1 == dr2 {
            assert(s.slope_k * c * 0 == 0) by (nonlinear_arith);
        }
    }
}

/// Calibration and measurement agree: the temperature of a sample is the slope times what
/// the calibration reported for it, plus the offset.
pub proof fn law_calibration_agrees(
    s: Sensor,
    dr1: u16,
    dr2: u16,
    ecr: u16,
    result: ScalingResult,
)
    requires
        call_ensures(
            scaling_experiment,
            (&s, Ok::<(), Error>(()), dr1, dr2, ecr),
            Ok::<ScalingResult, Error>(result),
        ),
        dr1 != 0,
        dr2 != 0,
        s.hrc ==> ecr != 0,
    ensures
        temperature(s.slope_k as int, s.offset_m as int, s.hrc, dr1, dr2, ecr) == quotient(
            s.slope_k * result.a,
            1_000_000_000_000,
        ) + s.offset_m,
        result.dr1 == dr1 && result.dr2 == dr2,
        result.ecr == (if s.hrc {
            ecr as int
        } else {
            1
        }),
{
    let k = s.slope_k as int;
    let c = correction(s.hrc, ecr);
    let d = reciprocals(dr1, dr2);
    assert(k * c * d == k * (d * c)) by (nonlinear_arith);
}

/// A sample that was begun shows as being taken, and one that was ended does not; the
/// sensor counts with the oscillator that it was set up for (bit 1 for the internal one),
/// switches itself off if so (bit 3), and has its clock.
pub proof fn law_sensor_is_controlled(
    cfg: Config,
    crystal: Crystal,
    set_up: Vec<Step<ClkError>>,
    begun: Access,
    ended: Access,
    shown_begun: bool,
    shown_ended: bool,
    int_on: Access,
    int_off: Access,
    v: u16,
    gate: u32,
)
    requires
        call_ensures(init, (cfg, crystal), set_up),
        call_ensures(start, (), begun),
        call_ensures(stop, (), ended),
        call_ensures(sampling, (begun.result(v as u32) as u16,), shown_begun),
        call_ensures(sampling, (ended.result(v as u32) as u16,), shown_ended),
        call_ensures(int_enable, (true,), int_on),
        call_ensures(int_enable, (false,), int_off),
    ensures
        begun.place == crate::mmio::half_at(0x4004_a400) && ended.place == begun.place,
        shown_begun,
        !shown_ended,
        int_on.place == begun.place && int_off.place == begun.place,
        int_on.result(v as u32) == v as u32 | 0x04,
        int_off.result(v as u32) == v as u32 & 0xfffb,
        crate::mmio::left_in(set_up@, crate::mmio::half_at(0x4004_a400), v as u32) == (
        if cfg.clock_src == ClockSource::Hrc {
            2int
        } else {
            0
        }) + (if cfg.auto_off == AutoOff::Enable {
            8int
        } else {
            0
        }),
        set_up@[0] == Step::<ClkError>::Do(change_word(0x4004_800c, 0x1000, 0)),
{
    broadcast use crate::mmio::lemma_written;

    assert({
        let on = ((v as u32) & ((!0u16) as u32)) | 0x01u32;
        let off = ((v as u32) & ((!0x01u16) as u32)) | 0u32;
        &&& (on as u16) & 0x01 != 0 && (off as u16) & 0x01 == 0
        &&& ((v as u32) & ((!0u16) as u32)) | 0x04u32 == (v as u32) | 0x04
        &&& ((v as u32) & ((!0x04u16) as u32)) | 0u32 == (v as u32) & 0xfffb
        &&& 0x02u16 | 0x08u16 == 10 && 0x02u16 | 0u16 == 2 && 0u16 | 0x08u16 == 8 && 0u16 | 0u16 == 0
    }) by (bit_vector);
    let head = seq![Step::<ClkError>::Do(change_word(0x4004_800c, 0x1000, 0))] + oscillator_steps(
        cfg.clock_src,
        crystal,
    ) + clk::slow_steps(0x4005_4427, true);
    let source: u16 = if cfg.clock_src == ClockSource::Hrc {
        0x02
    } else {
        0
    };
    let auto_off: u16 = if cfg.auto_off == AutoOff::Enable {
        0x08
    } else {
        0
    };
    let tail = seq![
        Step::<ClkError>::Do(change_half(0x4004_a400, 0x01, 0)),
        Step::<ClkError>::Do(half(0x4004_a400, source | auto_off)),
    ];
    assert(set_up@ =~= head + tail);
    crate::mmio::lemma_left_add(head, tail, crate::mmio::half_at(0x4004_a400), v as u32);
    reveal_with_fuel(crate::mmio::left_after, 3);
}

/// Tenths are the nearest to the thousandths, farther from zero where two are equally
/// near; a temperature below zero is the mirror image of one above, and a higher one is
/// never shown as lower.
pub proof fn law_tenths_are_the_nearest(a: i32, b: i32, ra: i32, rb: i32)
    requires
        -2_147_483_597 <= a <= 2_147_483_597,
        -2_147_483_597 <= b <= 2_147_483_597,
        call_ensures(to_deci, (a,), ra),
        call_ensures(to_deci, (b,), rb),
    ensures
        a - 50 <= 100 * ra <= a + 50,
        b == -a ==> rb == -ra,
        a <= b ==> ra <= rb,
        a >= 0 && a % 100 == 50 ==> 100 * ra == a + 50,
{
}

} // verus!
