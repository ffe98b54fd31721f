//! The real-time clock: time, date, alarm, and how long the system has been running.
//!
//! Times and dates are kept as binary-coded decimals. While the clock runs they can
//! be accessed only after the clock has granted it.

use vstd::prelude::*;

use crate::mmio::{Access, Limit, Otherwise, Step, byte, change_byte, when_byte};

verus! {

const CR0: usize = 0x4004_c000;

const CR1: usize = 0x4004_c004;

const CR2: usize = 0x4004_c008;

const CR3: usize = 0x4004_c00c;

const SEC: usize = 0x4004_c010;

const MIN: usize = 0x4004_c014;

const HOUR: usize = 0x4004_c018;

const WEEK: usize = 0x4004_c01c;

const DAY: usize = 0x4004_c020;

const MON: usize = 0x4004_c024;

const YEAR: usize = 0x4004_c028;

const ALMMIN: usize = 0x4004_c02c;

const ALMHOUR: usize = 0x4004_c030;

const ALMWEEK: usize = 0x4004_c034;

const CR1_START: u8 = 0x80;

const CR2_RWEN: u8 = 0x02;

/// What drives the clock.
#[derive(Clone, Copy, Debug, PartialEq, Eq, Structural)]
pub enum ClockSource {
    /// The internal low-speed oscillator.
    Lrc,
    /// An external crystal, which has to be running.
    Xtal32,
}

/// How hours are counted.
#[derive(Clone, Copy, Debug, PartialEq, Eq, Structural)]
pub enum HourFormat {
    /// 0 to 23.
    H24,
    /// 1 to 12, before or after noon.
    H12,
}

/// How often the periodic interrupt comes.
#[derive(Clone, Copy, Debug, PartialEq, Eq, Structural)]
pub enum IntPeriod {
    Never,
    HalfSec,
    Sec,
    Min,
    Hour,
    Day,
    Month,
}

/// The configuration of the clock.
#[derive(Clone, Copy, Debug, PartialEq, Eq, Structural)]
pub struct Config {
    pub clock_src: ClockSource,
    pub hour_format: HourFormat,
    pub int_period: IntPeriod,
}

impl Default for Config {
    fn default() -> (r: Self)
        ensures
            r == (Config {
                clock_src: ClockSource::Lrc,
                hour_format: HourFormat::H24,
                int_period: IntPeriod::Never,
            }),
    {
        Config {
            clock_src: ClockSource::Lrc,
            hour_format: HourFormat::H24,
            int_period: IntPeriod::Never,
        }
    }
}

/// A time of day.
#[derive(Clone, Copy, Debug, PartialEq, Eq, Structural)]
pub struct Time {
    /// 0 to 23, or 1 to 12.
    pub hour: u8,
    pub minute: u8,
    pub second: u8,
    /// Whether it is after noon; of no meaning with 24 hours.
    pub pm: bool,
}

/// A date.
#[derive(Clone, Copy, Debug, PartialEq, Eq, Structural)]
pub struct Date {
    /// 0 to 99, for 2000 to 2099.
    pub year: u8,
    pub month: u8,
    pub day: u8,
    /// 0 for Sunday to 6 for Saturday.
    pub weekday: u8,
}

/// An alarm: hour and minute, on some days of the week.
#[derive(Clone, Copy, Debug, PartialEq, Eq, Structural)]
pub struct Alarm {
    pub hour: u8,
    pub minute: u8,
    /// Bit 0 for Sunday to bit 6 for Saturday.
    pub weekday_mask: u8,
    pub pm: bool,
}

// ---------------------------------------------------------------------------
// Binary-coded decimals
// ---------------------------------------------------------------------------

/// A number as a binary-coded decimal.
pub open spec fn bcd(x: u8) -> int {
    (16 * (x / 10)) % 256 + x % 10
}

/// The number that a binary-coded decimal stands for.
pub open spec fn from_bcd(x: u8) -> int {
    10 * (x / 16) + x % 16
}

fn dec2bcd(x: u8) -> (r: u8)
    ensures
        r == bcd(x),
{
    let tens: u8 = x / 10;
    let ones: u8 = x % 10;
    assert((tens << 4u8) | ones == (16 * tens) % 256 + ones) by (bit_vector)
        requires
            tens < 26u8,
            ones < 10u8,
    ;
    (tens << 4u8) | ones
}

fn bcd2dec(x: u8) -> (r: u8)
    ensures
        r == from_bcd(x),
{
    assert(x >> 4u8 == x / 16 && x & 0x0fu8 == x % 16) by (bit_vector);
    (x >> 4u8) * 10 + (x & 0x0f)
}

/// A number below 100 survives the coding.
pub proof fn law_bcd_round_trip(x: u8)
    requires
        x < 100,
    ensures
        0 <= bcd(x) < 256,
        from_bcd(bcd(x) as u8) == x,
{
}

// ---------------------------------------------------------------------------
// Setting up
// ---------------------------------------------------------------------------

/// How many times a register is read before the clock is not waited for any
/// longer; this takes a tenth of a second or so.
pub open spec fn patience(hclk_hz: u32) -> u64 {
    (100 * (hclk_hz / 20_000)) as u64
}

fn wait_timeout(hclk_hz: u32) -> (r: u64)
    ensures
        r == patience(hclk_hz),
{
    100 * (hclk_hz as u64 / 20_000)
}

/// The reset bit is waited for, but not for ever.
pub open spec fn reset_wait<E>(hclk_hz: u32) -> Step<E> {
    Step::Wait {
        check: when_byte(0x4004_c000, 0x01, 0),
        limit: Limit::Readings(patience(hclk_hz)),
        otherwise: Otherwise::GoOn,
    }
}

/// The clock is reset: out of reset first, then into it, each time until it is
/// done.
pub open spec fn deinit_steps<E>(hclk_hz: u32) -> Seq<Step<E>> {
    seq![
        Step::<E>::Do(byte(0x4004_c000, 0)),
        reset_wait::<E>(hclk_hz),
        Step::<E>::Do(byte(0x4004_c000, 1)),
        reset_wait::<E>(hclk_hz),
    ]
}

/// The number of a period.
pub open spec fn period_code(period: IntPeriod) -> u8 {
    match period {
        IntPeriod::Never => 0,
        IntPeriod::HalfSec => 1,
        IntPeriod::Sec => 2,
        IntPeriod::Min => 3,
        IntPeriod::Hour => 4,
        IntPeriod::Day => 5,
        IntPeriod::Month => 6,
    }
}

/// The clock is reset, gets its source, its format and its period, and is not
/// started.
pub open spec fn init_steps<E>(cfg: Config, hclk_hz: u32) -> Seq<Step<E>> {
    deinit_steps(hclk_hz) + seq![
        Step::<E>::Do(
            byte(
                0x4004_c00c,
                match cfg.clock_src {
                    ClockSource::Lrc => 0x90,
                    ClockSource::Xtal32 => 0,
                },
            ),
        ),
        Step::<E>::Do(
            byte(
                0x4004_c004,
                (match cfg.hour_format {
                    HourFormat::H24 => 0x08u8,
                    HourFormat::H12 => 0,
                }) | period_code(cfg.int_period),
            ),
        ),
    ]
}

/// Reset the clock.
pub fn deinit<E>(hclk_hz: u32) -> (r: Vec<Step<E>>)
    ensures
        r@ == deinit_steps::<E>(hclk_hz),
{
    vec![
        Step::Do(byte(CR0, 0)),
        wait_reset_clear(hclk_hz),
        Step::Do(byte(CR0, 1)),
        wait_reset_clear(hclk_hz),
    ]
}

fn wait_reset_clear<E>(hclk_hz: u32) -> (r: Step<E>)
    ensures
        r == reset_wait::<E>(hclk_hz),
{
    Step::Wait {
        check: when_byte(CR0, 0x01, 0),
        limit: Limit::Readings(wait_timeout(hclk_hz)),
        otherwise: Otherwise::GoOn,
    }
}

/// Set up the clock; it is not started.
pub fn init<E>(cfg: Config, hclk_hz: u32) -> (r: Vec<Step<E>>)
    ensures
        r@ == init_steps::<E>(cfg, hclk_hz),
{
    let source: u8 = match cfg.clock_src {
        ClockSource::Lrc => 0x90,
        ClockSource::Xtal32 => 0,
    };
    let format: u8 = match cfg.hour_format {
        HourFormat::H24 => 0x08,
        HourFormat::H12 => 0,
    };
    let period: u8 = match cfg.int_period {
        IntPeriod::Never => 0,
        IntPeriod::HalfSec => 1,
        IntPeriod::Sec => 2,
        IntPeriod::Min => 3,
        IntPeriod::Hour => 4,
        IntPeriod::Day => 5,
        IntPeriod::Month => 6,
    };
    let mut out: Vec<Step<E>> = deinit(hclk_hz);
    out.push(Step::Do(byte(CR3, source)));
    out.push(Step::Do(byte(CR1, format | period)));
    out
}

/// Start counting. [`record_base`] is due afterwards.
pub fn start() -> (r: Access)
    ensures
        r == change_byte(0x4004_c004, 0, 0x80),
{
    change_byte(CR1, 0, CR1_START)
}

/// Stop counting.
pub fn stop() -> (r: Access)
    ensures
        r == change_byte(0x4004_c004, 0x80, 0),
{
    change_byte(CR1, CR1_START, 0)
}

/// Whether the clock is counting, given its first control register.
pub fn running(cr1: u8) -> (r: bool)
    ensures
        r == (cr1 & 0x80 != 0),
{
    cr1 & CR1_START != 0
}

/// How hours are counted, given the first control register.
pub open spec fn format_of(cr1: u8) -> HourFormat {
    if cr1 & 0x08 != 0 {
        HourFormat::H24
    } else {
        HourFormat::H12
    }
}

/// How hours are counted, given the first control register.
pub fn hour_format(cr1: u8) -> (r: HourFormat)
    ensures
        r == format_of(cr1),
{
    if cr1 & 0x08 != 0 {
        HourFormat::H24
    } else {
        HourFormat::H12
    }
}

// ---------------------------------------------------------------------------
// Time and date
// ---------------------------------------------------------------------------

/// Access is asked for, if the clock runs and has not granted it already.
pub open spec fn enter_steps<E>(cr1: u8, cr2: u8, hclk_hz: u32) -> Seq<Step<E>> {
    if cr1 & 0x80 != 0 && cr2 & 0x02 == 0 {
        seq![
            Step::<E>::Do(byte(0x4004_c008, 0x09)),
            Step::Wait {
                check: when_byte(0x4004_c008, 0x02, 0x02),
                limit: Limit::Readings(patience(hclk_hz)),
                otherwise: Otherwise::<E>::GoOn,
            },
        ]
    } else {
        Seq::empty()
    }
}

/// Access is given back.
pub open spec fn exit_steps<E>(hclk_hz: u32) -> Seq<Step<E>> {
    seq![
        Step::<E>::Do(change_byte(0x4004_c008, 0x01, 0)),
        Step::Wait {
            check: when_byte(0x4004_c008, 0x02, 0),
            limit: Limit::Readings(patience(hclk_hz)),
            otherwise: Otherwise::<E>::GoOn,
        },
    ]
}

/// Ask for access to time and date, given the control registers.
pub fn enter_rw<E>(cr1: u8, cr2: u8, hclk_hz: u32) -> (r: Vec<Step<E>>)
    ensures
        r@ == enter_steps::<E>(cr1, cr2, hclk_hz),
{
    if cr1 & CR1_START != 0 && cr2 & CR2_RWEN == 0 {
        vec![
            Step::Do(byte(CR2, 0x09)),
            Step::Wait {
                check: when_byte(CR2, CR2_RWEN, CR2_RWEN),
                limit: Limit::Readings(wait_timeout(hclk_hz)),
                otherwise: Otherwise::GoOn,
            },
        ]
    } else {
        Vec::new()
    }
}

/// Give back the access to time and date.
pub fn exit_rw<E>(hclk_hz: u32) -> (r: Vec<Step<E>>)
    ensures
        r@ == exit_steps::<E>(hclk_hz),
{
    vec![
        Step::Do(change_byte(CR2, 0x01, 0)),
        Step::Wait {
            check: when_byte(CR2, CR2_RWEN, 0),
            limit: Limit::Readings(wait_timeout(hclk_hz)),
            otherwise: Otherwise::GoOn,
        },
    ]
}

/// The hour register: with twelve hours, bit 5 is set after noon.
pub open spec fn hour_register(format: HourFormat, hour: u8, pm: bool) -> u8 {
    (bcd(hour) as u8) | (if format == HourFormat::H12 && pm {
        0x20u8
    } else {
        0
    })
}

fn encode_hour(format: HourFormat, hour: u8, pm: bool) -> (r: u8)
    ensures
        r == hour_register(format, hour, pm),
{
    let noon: u8 = if format == HourFormat::H12 && pm {
        0x20
    } else {
        0
    };
    dec2bcd(hour) | noon
}

/// Hour, minute and second are written while the clock grants it.
pub open spec fn time_steps<E>(t: Time, cr1: u8, cr2: u8, hclk_hz: u32) -> Seq<Step<E>> {
    enter_steps::<E>(cr1, cr2, hclk_hz) + seq![
        Step::<E>::Do(byte(0x4004_c018, hour_register(format_of(cr1), t.hour, t.pm))),
        Step::<E>::Do(byte(0x4004_c014, bcd(t.minute) as u8)),
        Step::<E>::Do(byte(0x4004_c010, bcd(t.second) as u8)),
    ] + exit_steps::<E>(hclk_hz)
}

/// Set the time, given the control registers.
pub fn set_time<E>(t: Time, cr1: u8, cr2: u8, hclk_hz: u32) -> (r: Vec<Step<E>>)
    ensures
        r@ == time_steps::<E>(t, cr1, cr2, hclk_hz),
{
    let mut out: Vec<Step<E>> = enter_rw(cr1, cr2, hclk_hz);
    out.push(Step::Do(byte(HOUR, encode_hour(hour_format(cr1), t.hour, t.pm))));
    out.push(Step::Do(byte(MIN, dec2bcd(t.minute))));
    out.push(Step::Do(byte(SEC, dec2bcd(t.second))));
    let mut leave: Vec<Step<E>> = exit_rw(hclk_hz);
    out.append(&mut leave);
    out
}

/// The time that the registers stand for.
pub open spec fn time_of(format: HourFormat, hour: u8, minute: u8, second: u8) -> Time {
    Time {
        hour: from_bcd(
            match format {
                HourFormat::H24 => hour & 0x3f,
                HourFormat::H12 => hour & 0x1f,
            },
        ) as u8,
        minute: from_bcd(minute) as u8,
        second: from_bcd(second) as u8,
        pm: hour & 0x20 != 0,
    }
}

/// The time, given the hour, minute and second registers.
pub fn get_time(format: HourFormat, hour: u8, minute: u8, second: u8) -> (r: Time)
    ensures
        r == time_of(format, hour, minute, second),
{
    let digits: u8 = match format {
        HourFormat::H24 => hour & 0x3f,
        HourFormat::H12 => hour & 0x1f,
    };
    Time {
        hour: bcd2dec(digits),
        minute: bcd2dec(minute),
        second: bcd2dec(second),
        pm: hour & 0x20 != 0,
    }
}

/// Year, month, day and weekday are written while the clock grants it.
pub open spec fn date_steps<E>(d: Date, cr1: u8, cr2: u8, hclk_hz: u32) -> Seq<Step<E>> {
    enter_steps::<E>(cr1, cr2, hclk_hz) + seq![
        Step::<E>::Do(byte(0x4004_c028, bcd(d.year) as u8)),
        Step::<E>::Do(byte(0x4004_c024, bcd(d.month) as u8)),
        Step::<E>::Do(byte(0x4004_c020, bcd(d.day) as u8)),
        Step::<E>::Do(byte(0x4004_c01c, d.weekday & 0x07)),
    ] + exit_steps::<E>(hclk_hz)
}

/// Set the date, given the control registers.
pub fn set_date<E>(d: Date, cr1: u8, cr2: u8, hclk_hz: u32) -> (r: Vec<Step<E>>)
    ensures
        r@ == date_steps::<E>(d, cr1, cr2, hclk_hz),
{
    let mut out: Vec<Step<E>> = enter_rw(cr1, cr2, hclk_hz);
    out.push(Step::Do(byte(YEAR, dec2bcd(d.year))));
    out.push(Step::Do(byte(MON, dec2bcd(d.month))));
    out.push(Step::Do(byte(DAY, dec2bcd(d.day))));
    out.push(Step::Do(byte(WEEK, d.weekday & 0x07)));
    let mut leave: Vec<Step<E>> = exit_rw(hclk_hz);
    out.append(&mut leave);
    out
}

/// The date that the registers stand for.
pub open spec fn date_of(year: u8, month: u8, day: u8, week: u8) -> Date {
    Date {
        year: from_bcd(year) as u8,
        month: from_bcd(month) as u8,
        day: from_bcd(day) as u8,
        weekday: week & 0x07,
    }
}

/// The date, given the year, month, day and weekday registers.
pub fn get_date(year: u8, month: u8, day: u8, week: u8) -> (r: Date)
    ensures
        r == date_of(year, month, day, week),
{
    Date {
        year: bcd2dec(year),
        month: bcd2dec(month),
        day: bcd2dec(day),
        weekday: week & 0x07,
    }
}

/// A time that was set reads back.
pub proof fn law_time_reads_back(t: Time, format: HourFormat)
    requires
        t.minute < 60,
        t.second < 60,
        match format {
            HourFormat::H24 => t.hour < 24,
            HourFormat::H12 => 1 <= t.hour <= 12,
        },
    ensures
        ({
            let back = time_of(
                format,
                hour_register(format, t.hour, t.pm),
                bcd(t.minute) as u8,
                bcd(t.second) as u8,
            );
            &&& back.hour == t.hour
            &&& back.minute == t.minute
            &&& back.second == t.second
            &&& format == HourFormat::H12 ==> back.pm == t.pm
        }),
{
    let b = bcd(t.hour) as u8;
    law_bcd_round_trip(t.hour);
    law_bcd_round_trip(t.minute);
    law_bcd_round_trip(t.second);
    lemma_hour_bits(b);
}

/// A date that was set reads back.
pub proof fn law_date_reads_back(d: Date)
    requires
        d.year < 100,
        d.month < 100,
        d.day < 100,
        d.weekday < 7,
    ensures
        date_of(bcd(d.year) as u8, bcd(d.month) as u8, bcd(d.day) as u8, d.weekday & 0x07) == d,
{
    law_bcd_round_trip(d.year);
    law_bcd_round_trip(d.month);
    law_bcd_round_trip(d.day);
    let w = d.weekday;
    lemma_low_bits(w);
}

// ---------------------------------------------------------------------------
// Alarm
// ---------------------------------------------------------------------------

/// Hour, minute and weekdays of the alarm are written.
pub open spec fn alarm_steps<E>(a: Alarm, cr1: u8) -> Seq<Step<E>> {
    seq![
        Step::<E>::Do(byte(0x4004_c030, hour_register(format_of(cr1), a.hour, a.pm))),
        Step::<E>::Do(byte(0x4004_c02c, bcd(a.minute) as u8)),
        Step::<E>::Do(byte(0x4004_c034, a.weekday_mask & 0x7f)),
    ]
}

/// Set the alarm, given the first control register.
pub fn set_alarm<E>(a: Alarm, cr1: u8) -> (r: Vec<Step<E>>)
    ensures
        r@ == alarm_steps::<E>(a, cr1),
{
    vec![
        Step::Do(byte(ALMHOUR, encode_hour(hour_format(cr1), a.hour, a.pm))),
        Step::Do(byte(ALMMIN, dec2bcd(a.minute))),
        Step::Do(byte(ALMWEEK, a.weekday_mask & 0x7f)),
    ]
}

/// The alarm, given its registers. With twelve hours the hour holds the flag for
/// the time after noon too.
pub fn get_alarm(hour: u8, minute: u8, week: u8) -> (r: Alarm)
    ensures
        r == (Alarm {
            hour: from_bcd(hour & 0x3f) as u8,
            minute: from_bcd(minute) as u8,
            weekday_mask: week & 0x7f,
            pm: hour & 0x20 != 0,
        }),
{
    Alarm {
        hour: bcd2dec(hour & 0x3f),
        minute: bcd2dec(minute),
        weekday_mask: week & 0x7f,
        pm: hour & 0x20 != 0,
    }
}

/// Switch the alarm on or off; its flag is cleared.
pub fn alarm_enable(enable: bool) -> (r: Access)
    ensures
        r == (if enable {
            change_byte(0x4004_c008, 0, 0x88)
        } else {
            change_byte(0x4004_c008, 0x80, 0x08)
        }),
{
    if enable {
        change_byte(CR2, 0, 0x88)
    } else {
        change_byte(CR2, 0x80, 0x08)
    }
}

/// Switch the periodic and the alarm interrupt on or off.
pub fn int_enable(period: bool, alarm: bool) -> (r: Access)
    ensures
        r == change_byte(
            0x4004_c008,
            0x60,
            (if period {
                0x20u8
            } else {
                0
            }) | (if alarm {
                0x40u8
            } else {
                0
            }),
        ),
{
    let p: u8 = if period {
        0x20
    } else {
        0
    };
    let a: u8 = if alarm {
        0x40
    } else {
        0
    };
    change_byte(CR2, 0x60, p | a)
}

/// Whether the alarm has gone off, given the second control register.
pub fn alarm_flag(cr2: u8) -> (r: bool)
    ensures
        r == (cr2 & 0x08 != 0),
{
    cr2 & 0x08 != 0
}

/// Clear the flag of the alarm.
pub fn clear_alarm_flag() -> (r: Access)
    ensures
        r == change_byte(0x4004_c004, 0, 0x10),
{
    change_byte(CR1, 0, 0x10)
}

// ---------------------------------------------------------------------------
// Running time
// ---------------------------------------------------------------------------

/// When the clock was started.
#[derive(Clone, Copy, Debug, PartialEq, Eq, Structural)]
pub struct Base {
    pub days: u32,
    pub secs: u32,
}

pub open spec fn is_leap(y: int) -> bool {
    y % 4 == 0 && (y % 100 != 0 || y % 400 == 0)
}

/// Leap years before year `y`.
pub open spec fn leaps_before(y: int) -> int {
    (y - 1) / 4 - (y - 1) / 100 + (y - 1) / 400
}

/// Days of a year before a month.
pub open spec fn days_before_month(y: int, m: int) -> int {
    let leap = if is_leap(y) && m > 2 {
        1int
    } else {
        0
    };
    leap + (if m == 1 {
        0int
    } else if m == 2 {
        31
    } else if m == 3 {
        59
    } else if m == 4 {
        90
    } else if m == 5 {
        120
    } else if m == 6 {
        151
    } else if m == 7 {
        181
    } else if m == 8 {
        212
    } else if m == 9 {
        243
    } else if m == 10 {
        273
    } else if m == 11 {
        304
    } else {
        334
    })
}

/// Days from the first of January 1970 to a date.
pub open spec fn calendar_days(y: int, m: int, d: int) -> int {
    365 * (y - 1970) + leaps_before(y) - leaps_before(1970) + days_before_month(y, m) + d - 1
}

/// The same, counting years from March on, so that a leap day is the last day of
/// its year; also for numbers that are no month.
pub open spec fn civil(y: int, m: int, d: int) -> int {
    let y = if m <= 2 {
        y - 1
    } else {
        y
    };
    let era = y / 400;
    let yoe = y - era * 400;
    let mp = (m + 9) % 12;
    let doy = (153 * mp + 2) / 5 + d - 1;
    era * 146_097 + yoe * 365 + yoe / 4 - yoe / 100 + doy - 719_468
}

/// Days from the first of January 1970 to a date; the year must be such that the
/// count fits.
pub fn days_from_civil(y: i64, m: u32, d: u32) -> (r: i64)
    requires
        -1_000_000_000_000 <= y <= 1_000_000_000_000,
    ensures
        r == civil(y as int, m as int, d as int),
{
    let y: i64 = if m <= 2 {
        y - 1
    } else {
        y
    };
    let floor: i64 = if y >= 0 {
        y
    } else {
        y - 399
    };
    let era: i64 = floor / 400;
    assert(era == y as int / 400);
    let yoe: i64 = y - era * 400;
    let mp: i64 = (m as i64 + 9) % 12;
    let doy: i64 = (153 * mp + 2) / 5 + d as i64 - 1;
    let doe: i64 = yoe * 365 + yoe / 4 - yoe / 100 + doy;
    era * 146_097 + doe - 719_468
}

/// Days of whole years.
proof fn lemma_years(z: int)
    requires
        z >= 0,
    ensures
        ({
            let era = z / 400;
            let yoe = z - era * 400;
            era * 146_097 + yoe * 365 + yoe / 4 - yoe / 100 == 365 * z + z / 4 - z / 100 + z / 400
        }),
{
    let era = z / 400;
    let yoe = z - era * 400;
    assert(z / 4 == 100 * era + yoe / 4);
    assert(z / 100 == 4 * era + yoe / 100);
}

/// A leap year adds one to the leap years.
proof fn lemma_leap(y: int)
    requires
        y >= 1,
    ensures
        y / 4 - y / 100 + y / 400 == leaps_before(y) + if is_leap(y) {
            1int
        } else {
            0
        },
{
    assert(y / 4 - (y - 1) / 4 == if y % 4 == 0 {
        1int
    } else {
        0
    });
    assert(y / 100 - (y - 1) / 100 == if y % 100 == 0 {
        1int
    } else {
        0
    });
    assert(y / 400 - (y - 1) / 400 == if y % 400 == 0 {
        1int
    } else {
        0
    });
}

/// For a month of the year the count is that of the calendar.
pub proof fn law_days_follow_the_calendar(y: int, m: int, d: int)
    requires
        y >= 1,
        1 <= m <= 12,
    ensures
        civil(y, m, d) == calendar_days(y, m, d),
{
    assert(leaps_before(1970) == 477);
    if m <= 2 {
        lemma_years(y - 1);
        assert(m == 1 || m == 2);
    } else {
        lemma_years(y);
        lemma_leap(y);
        assert(m == 3 || m == 4 || m == 5 || m == 6 || m == 7 || m == 8 || m == 9 || m == 10 || m
            == 11 || m == 12);
    }
}

/// The hour of the day: with twelve hours, those before noon and those after it each
/// begin with 12.
pub open spec fn hour_of_day(format: HourFormat, t: Time) -> int {
    match format {
        HourFormat::H24 => t.hour as int,
        HourFormat::H12 => t.hour % 12 + if t.pm {
            12int
        } else {
            0
        },
    }
}

/// Seconds since midnight.
pub open spec fn secs_of(format: HourFormat, t: Time) -> int {
    hour_of_day(format, t) * 3600 + t.minute * 60 + t.second
}

fn secs_of_day(format: HourFormat, t: Time) -> (r: u32)
    ensures
        r == secs_of(format, t),
{
    let hour: u32 = match format {
        HourFormat::H24 => t.hour as u32,
        HourFormat::H12 => {
            let noon: u32 = if t.pm {
                12
            } else {
                0
            };
            t.hour as u32 % 12 + noon
        },
    };
    hour * 3600 + (t.minute as u32) * 60 + t.second as u32
}

/// The days of a date of this century.
pub open spec fn days_of(d: Date) -> int {
    civil(2000 + d.year, d.month as int, d.day as int)
}

fn days_of_date(d: Date) -> (r: u32)
    ensures
        r == days_of(d),
{
    days_from_civil(2000 + d.year as i64, d.month as u32, d.day as u32) as u32
}

/// Note when the clock was started.
pub fn record_base(format: HourFormat, d: Date, t: Time) -> (r: Base)
    ensures
        r.days == days_of(d),
        r.secs == secs_of(format, t),
{
    Base { days: days_of_date(d), secs: secs_of_day(format, t) }
}

/// Seconds from the start of the clock to a date and time.
pub open spec fn elapsed_secs(format: HourFormat, base: Base, d: Date, t: Time) -> int {
    (days_of(d) - base.days) * 86_400 + secs_of(format, t) - base.secs
}

/// The seconds of a day are told apart by how its times are shown, with twelve hours as
/// with twenty-four.
pub proof fn law_times_tell_seconds_apart(format: HourFormat, a: Time, b: Time)
    requires
        a.minute < 60 && a.second < 60,
        b.minute < 60 && b.second < 60,
        format == HourFormat::H24 ==> a.hour < 24 && b.hour < 24,
        format == HourFormat::H12 ==> 1 <= a.hour <= 12 && 1 <= b.hour <= 12,
        secs_of(format, a) == secs_of(format, b),
    ensures
        0 <= secs_of(format, a) < 86_400,
        a.hour == b.hour && a.minute == b.minute && a.second == b.second,
        format == HourFormat::H12 ==> a.pm == b.pm,
{
}

// ---------------------------------------------------------------------------
// What the clock shows
// ---------------------------------------------------------------------------

/// The clock can show the time.
pub open spec fn is_shown(format: HourFormat, t: Time) -> bool {
    &&& t.minute < 60
    &&& t.second < 60
    &&& match format {
        HourFormat::H24 => t.hour < 24,
        HourFormat::H12 => 1 <= t.hour <= 12,
    }
}

/// The time is that at which a day begins.
pub open spec fn is_midnight(format: HourFormat, t: Time) -> bool {
    &&& t.minute == 0
    &&& t.second == 0
    &&& match format {
        HourFormat::H24 => t.hour == 0,
        HourFormat::H12 => t.hour == 12 && !t.pm,
    }
}

/// What the clock shows a second later: after 59 seconds comes the next minute, after
/// 59 minutes the next hour, and after 23 hours midnight. With twelve hours, 1 comes
/// after 12, and noon and midnight come after 11.
pub open spec fn next_time(format: HourFormat, t: Time) -> Time {
    if t.second < 59 {
        Time { second: (t.second + 1) as u8, ..t }
    } else if t.minute < 59 {
        Time { minute: (t.minute + 1) as u8, second: 0, ..t }
    } else {
        match format {
            HourFormat::H24 => Time {
                hour: if t.hour == 23 {
                    0
                } else {
                    (t.hour + 1) as u8
                },
                minute: 0,
                second: 0,
                pm: t.pm,
            },
            HourFormat::H12 => Time {
                hour: if t.hour == 12 {
                    1
                } else {
                    (t.hour + 1) as u8
                },
                minute: 0,
                second: 0,
                pm: if t.hour == 11 {
                    !t.pm
                } else {
                    t.pm
                },
            },
        }
    }
}

/// Days of a month of this century.
pub open spec fn month_len(year: u8, month: u8) -> int {
    if month == 2 {
        if year % 4 == 0 {
            29
        } else {
            28
        }
    } else if month == 4 || month == 6 || month == 9 || month == 11 {
        30
    } else {
        31
    }
}

/// There is such a day in this century.
pub open spec fn is_date(d: Date) -> bool {
    d.year < 100 && 1 <= d.month <= 12 && 1 <= d.day <= month_len(d.year, d.month)
}

/// What the clock shows a day later.
pub open spec fn next_date(d: Date) -> Date {
    let weekday = if d.weekday == 6 {
        0
    } else {
        (d.weekday + 1) as u8
    };
    if d.day < month_len(d.year, d.month) {
        Date { day: (d.day + 1) as u8, weekday, ..d }
    } else if d.month < 12 {
        Date { month: (d.month + 1) as u8, day: 1, weekday, ..d }
    } else {
        Date { year: (d.year + 1) as u8, month: 1, day: 1, weekday }
    }
}

/// Midnight is second 0 of the day, each further second that the clock shows counts one
/// more, and the last second before midnight is the 86,400th.
pub proof fn law_times_count_seconds(format: HourFormat, t: Time)
    requires
        is_shown(format, t),
    ensures
        is_shown(format, next_time(format, t)),
        is_midnight(format, t) ==> secs_of(format, t) == 0,
        if is_midnight(format, next_time(format, t)) {
            secs_of(format, t) == 86_399
        } else {
            secs_of(format, next_time(format, t)) == secs_of(format, t) + 1
        },
{
}

/// The first day of the century is the 10,957th since 1970, and each further day that
/// the clock shows counts one more.
pub proof fn law_dates_count_days(d: Date)
    requires
        is_date(d),
        is_date(next_date(d)),
    ensures
        d.year == 0 && d.month == 1 && d.day == 1 ==> days_of(d) == 10_957,
        days_of(next_date(d)) == days_of(d) + 1,
{
    let y = 2000 + d.year;
    let next = next_date(d);
    law_days_follow_the_calendar(y, d.month as int, d.day as int);
    law_days_follow_the_calendar(2000 + next.year, next.month as int, next.day as int);
    lemma_leap(y);
    assert(is_leap(y) == (d.year % 4 == 0)) by {
        assert(y % 100 == 0 ==> d.year == 0);
    }
    let m = d.month;
    assert(m == 1 || m == 2 || m == 3 || m == 4 || m == 5 || m == 6 || m == 7 || m == 8 || m == 9
        || m == 10 || m == 11 || m == 12);
}

/// The running time is 0 when the base is recorded, and each further second that the
/// clock shows counts one more, over the end of a minute, an hour, a day, a month and a
/// year.
pub proof fn law_running_time_counts_seconds(format: HourFormat, base: Base, d: Date, t: Time)
    requires
        is_shown(format, t),
        is_date(d),
        is_date(next_date(d)),
    ensures
        base.days == days_of(d) && base.secs == secs_of(format, t) ==> elapsed_secs(
            format,
            base,
            d,
            t,
        ) == 0,
        ({
            let now = next_time(format, t);
            let today = if is_midnight(format, now) {
                next_date(d)
            } else {
                d
            };
            elapsed_secs(format, base, today, now) == elapsed_secs(format, base, d, t) + 1
        }),
{
    law_times_count_seconds(format, t);
    law_times_count_seconds(format, next_time(format, t));
    law_dates_count_days(d);
}

/// How long the clock has been running, in days, hours, minutes and seconds;
/// `None` when it is not running. The first control register says whether it is, and how
/// hours are counted.
///
/// The clock must not have been set back, and must have been running for less
/// than 2^32 seconds.
pub fn elapsed_dhms(base: Base, cr1: u8, d: Date, t: Time) -> (r: Option<(u32, u32, u32, u32)>)
    requires
        cr1 & 0x80 != 0 ==> 0 <= elapsed_secs(format_of(cr1), base, d, t) <= u32::MAX,
    ensures
        match r {
            Some((days, hours, minutes, seconds)) => {
                &&& cr1 & 0x80 != 0
                &&& hours < 24
                &&& minutes < 60
                &&& seconds < 60
                &&& ((days * 24 + hours) * 60 + minutes) * 60 + seconds == elapsed_secs(
                    format_of(cr1),
                    base,
                    d,
                    t,
                )
            },
            None => cr1 & 0x80 == 0,
        },
{
    if !running(cr1) {
        return None;
    }
    let days: u64 = days_of_date(d) as u64;
    let now: u64 = days * 86_400 + secs_of_day(hour_format(cr1), t) as u64;
    let start: u64 = base.days as u64 * 86_400 + base.secs as u64;
    let total: u32 = (now - start) as u32;
    Some((total / 86_400, (total / 3600) % 24, (total / 60) % 60, total % 60))
}

// ---------------------------------------------------------------------------
// What the registers come to hold
// ---------------------------------------------------------------------------

proof fn lemma_hour_bits(b: u8)
    requires
        b < 0x40,
    ensures
        b | 0u8 == b,
        (b | 0u8) & 0x3fu8 == b,
        b < 0x20 ==> {
            &&& (b | 0u8) & 0x1fu8 == b
            &&& (b | 0u8) & 0x20u8 == 0
            &&& b | 0x20u8 == b + 0x20
            &&& (b | 0x20u8) & 0x1fu8 == b
            &&& (b | 0x20u8) & 0x20u8 != 0
        },
{
    assert(b | 0u8 == b && (b | 0u8) & 0x3fu8 == b && (b < 0x20u8 ==> (b | 0u8) & 0x1fu8 == b && (b
        | 0u8) & 0x20u8 == 0 && b | 0x20u8 == b + 0x20u8 && (b | 0x20u8) & 0x1fu8 == b && (b
        | 0x20u8) & 0x20u8 != 0)) by (bit_vector)
        requires
            b < 0x40u8,
    ;
}

/// Setting the time leaves each of its parts in a register of its own, the tens in the
/// upper four bits and the ones in the lower four; with twelve hours, bit 5 of the hour
/// tells the time after noon.
pub proof fn law_time_goes_to_its_registers<E>(
    t: Time,
    cr1: u8,
    cr2: u8,
    hclk_hz: u32,
    steps: Vec<Step<E>>,
    before: u32,
)
    requires
        call_ensures(set_time::<E>, (t, cr1, cr2, hclk_hz), steps),
        is_shown(format_of(cr1), t),
    ensures
        crate::mmio::left_in(steps@, crate::mmio::byte_at(0x4004_c010), before) == 16 * (t.second
            / 10) + t.second % 10,
        crate::mmio::left_in(steps@, crate::mmio::byte_at(0x4004_c014), before) == 16 * (t.minute
            / 10) + t.minute % 10,
        crate::mmio::left_in(steps@, crate::mmio::byte_at(0x4004_c018), before) == 16 * (t.hour
            / 10) + t.hour % 10 + (if cr1 & 0x08 == 0 && t.pm {
            0x20int
        } else {
            0
        }),
{
    broadcast use crate::mmio::lemma_written;

    reveal_with_fuel(crate::mmio::left_after, 9);
    lemma_hour_bits(bcd(t.hour) as u8);
}

/// Setting the date leaves each of its parts in a register of its own, the tens in the
/// upper four bits and the ones in the lower four, and the number of the weekday.
pub proof fn law_date_goes_to_its_registers<E>(
    d: Date,
    cr1: u8,
    cr2: u8,
    hclk_hz: u32,
    steps: Vec<Step<E>>,
    before: u32,
)
    requires
        call_ensures(set_date::<E>, (d, cr1, cr2, hclk_hz), steps),
        d.year < 100,
        d.month < 100,
        d.day < 100,
        d.weekday < 7,
    ensures
        crate::mmio::left_in(steps@, crate::mmio::byte_at(0x4004_c028), before) == 16 * (d.year
            / 10) + d.year % 10,
        crate::mmio::left_in(steps@, crate::mmio::byte_at(0x4004_c024), before) == 16 * (d.month
            / 10) + d.month % 10,
        crate::mmio::left_in(steps@, crate::mmio::byte_at(0x4004_c020), before) == 16 * (d.day
            / 10) + d.day % 10,
        crate::mmio::left_in(steps@, crate::mmio::byte_at(0x4004_c01c), before) == d.weekday,
{
    broadcast use crate::mmio::lemma_written;

    law_date_reads_back(d);
    reveal_with_fuel(crate::mmio::left_after, 9);
    let week = d.weekday;
    lemma_low_bits(week);
}

proof fn lemma_low_bits(b: u8)
    ensures
        b < 8 ==> b & 0x07 == b,
        b < 128 ==> b & 0x7f == b,
{
    assert((b < 8u8 ==> b & 0x07u8 == b) && (b < 128u8 ==> b & 0x7fu8 == b)) by (bit_vector);
}

/// Registers that hold decimal digits are read as the numbers of these digits.
pub proof fn law_registers_are_read_by_their_digits(
    format: HourFormat,
    hour: u8,
    minute: u8,
    second: u8,
    t: Time,
)
    requires
        call_ensures(get_time, (format, hour, minute, second), t),
        minute % 16 < 10 && minute / 16 < 6,
        second % 16 < 10 && second / 16 < 6,
        hour % 16 < 10,
        hour / 16 < (if format == HourFormat::H24 {
            3int
        } else {
            4
        }),
    ensures
        t.minute == 10 * (minute / 16) + minute % 16,
        t.second == 10 * (second / 16) + second % 16,
        format == HourFormat::H24 ==> t.hour == 10 * (hour / 16) + hour % 16,
        format == HourFormat::H12 ==> {
            &&& t.pm == (hour >= 0x20)
            &&& t.hour == 10 * (hour / 16 % 2) + hour % 16
        },
{
    lemma_hour_bits(hour);
    if format == HourFormat::H12 && hour >= 0x20 {
        lemma_hour_bits((hour - 0x20) as u8);
    }
}

/// The same of a date.
pub proof fn law_dates_are_read_by_their_digits(
    year: u8,
    month: u8,
    day: u8,
    week: u8,
    d: Date,
)
    requires
        call_ensures(get_date, (year, month, day, week), d),
        year % 16 < 10 && year / 16 < 10,
        month % 16 < 10 && month / 16 < 2,
        day % 16 < 10 && day / 16 < 4,
        week < 7,
    ensures
        d.year == 10 * (year / 16) + year % 16,
        d.month == 10 * (month / 16) + month % 16,
        d.day == 10 * (day / 16) + day % 16,
        d.weekday == week,
{
    lemma_low_bits(week);
}

/// An alarm goes to the registers of the alarm, and not to those of the time, and reads
/// back as it was set; with twelve hours and after noon, the hour reads back 20 too
/// high, as it is read with bit 5.
pub proof fn law_alarm_reads_back<E>(a: Alarm, cr1: u8, steps: Vec<Step<E>>, back: Alarm, before: u32)
    requires
        call_ensures(set_alarm::<E>, (a, cr1), steps),
        call_ensures(
            get_alarm,
            (
                crate::mmio::left_in(steps@, crate::mmio::byte_at(0x4004_c030), before) as u8,
                crate::mmio::left_in(steps@, crate::mmio::byte_at(0x4004_c02c), before) as u8,
                crate::mmio::left_in(steps@, crate::mmio::byte_at(0x4004_c034), before) as u8,
            ),
            back,
        ),
        a.minute < 60,
        a.weekday_mask < 128,
        format_of(cr1) == HourFormat::H24 ==> a.hour < 24,
        format_of(cr1) == HourFormat::H12 ==> 1 <= a.hour <= 12,
    ensures
        crate::mmio::left_in(steps@, crate::mmio::byte_at(0x4004_c02c), before) == 16 * (a.minute
            / 10) + a.minute % 10,
        crate::mmio::left_in(steps@, crate::mmio::byte_at(0x4004_c034), before) == a.weekday_mask,
        crate::mmio::left_in(steps@, crate::mmio::byte_at(0x4004_c030), before) == 16 * (a.hour
            / 10) + a.hour % 10 + (if cr1 & 0x08 == 0 && a.pm {
            0x20int
        } else {
            0
        }),
        crate::mmio::left_in(steps@, crate::mmio::byte_at(0x4004_c010), before) == before,
        crate::mmio::left_in(steps@, crate::mmio::byte_at(0x4004_c014), before) == before,
        crate::mmio::left_in(steps@, crate::mmio::byte_at(0x4004_c018), before) == before,
        back.minute == a.minute,
        back.weekday_mask == a.weekday_mask,
        back.hour == a.hour + (if cr1 & 0x08 == 0 && a.pm {
            20int
        } else {
            0
        }),
        cr1 & 0x08 == 0 ==> back.pm == a.pm,
{
    broadcast use crate::mmio::lemma_written;

    let b = bcd(a.hour) as u8;
    reveal_with_fuel(crate::mmio::left_after, 9);
    lemma_hour_bits(b);
    lemma_low_bits(a.weekday_mask);
    if b < 0x20 {
        lemma_hour_bits((b + 0x20) as u8);
    }
    law_bcd_round_trip(a.minute);
}

/// The control registers after the clock was set up, started, stopped, and its alarm and
/// interrupts switched: what was asked for reads back, and nothing else changes but the
/// flag of the alarm.
pub proof fn law_control_bits<E>(
    cfg: Config,
    hclk_hz: u32,
    set_up: Vec<Step<E>>,
    started: Access,
    stopped: Access,
    on: bool,
    alarm: Access,
    period_int: bool,
    alarm_int: bool,
    ints: Access,
    cleared: Access,
    v: u32,
)
    requires
        call_ensures(init::<E>, (cfg, hclk_hz), set_up),
        call_ensures(start, (), started),
        call_ensures(stop, (), stopped),
        call_ensures(alarm_enable, (on,), alarm),
        call_ensures(int_enable, (period_int, alarm_int), ints),
        call_ensures(clear_alarm_flag, (), cleared),
        v < 256,
    ensures
        ({
            let cr1 = crate::mmio::left_in(set_up@, crate::mmio::byte_at(0x4004_c004), v);
            let cr3 = crate::mmio::left_in(set_up@, crate::mmio::byte_at(0x4004_c00c), v);
            &&& cr1 & 0x80 == 0
            &&& cr1 & 0x08 != 0 <==> cfg.hour_format == HourFormat::H24
            &&& cr1 & 0x07 == (match cfg.int_period {
                IntPeriod::Never => 0u32,
                IntPeriod::HalfSec => 1u32,
                IntPeriod::Sec => 2u32,
                IntPeriod::Min => 3u32,
                IntPeriod::Hour => 4u32,
                IntPeriod::Day => 5u32,
                IntPeriod::Month => 6u32,
            })
            &&& cr3 & 0x90 == (if cfg.clock_src == ClockSource::Lrc {
                0x90u32
            } else {
                0
            })
        }),
        started.place == crate::mmio::byte_at(0x4004_c004),
        started.result(v) == v | 0x80,
        stopped.place == crate::mmio::byte_at(0x4004_c004),
        stopped.result(v) == v & 0x7f,
        cleared.place == crate::mmio::byte_at(0x4004_c004),
        cleared.result(v) == v | 0x10,
        alarm.place == crate::mmio::byte_at(0x4004_c008),
        alarm.result(v) & 0x80 != 0 <==> on,
        alarm.result(v) & 0x08 != 0,
        alarm.result(v) & 0x77 == v & 0x77,
        ints.place == crate::mmio::byte_at(0x4004_c008),
        ints.result(v) & 0x20 != 0 <==> period_int,
        ints.result(v) & 0x40 != 0 <==> alarm_int,
        ints.result(v) & 0x9f == v & 0x9f,
{
    broadcast use crate::mmio::lemma_written;

    let p = period_code(cfg.int_period);
    reveal_with_fuel(crate::mmio::left_after, 9);
    assert(((0x08u8 | p) as u32) & 0x80 == 0 && ((0u8 | p) as u32) & 0x80 == 0 && ((0x08u8 | p)
        as u32) & 0x08 != 0 && ((0u8 | p) as u32) & 0x08 == 0 && ((0x08u8 | p) as u32) & 0x07 == p
        && ((0u8 | p) as u32) & 0x07 == p && 0x90u32 & 0x90u32 == 0x90 && 0u32 & 0x90u32 == 0 && (v
        & ((!0u8) as u32)) | 0x80u32 == v | 0x80 && (v & ((!0x80u8) as u32)) | 0u32 == v & 0x7f && (
    v & ((!0u8) as u32)) | 0x10u32 == v | 0x10 && ((v & ((!0u8) as u32)) | 0x88u32) & 0x80u32 != 0
        && ((v & ((!0x80u8) as u32)) | 0x08u32) & 0x80u32 == 0 && ((v & ((!0u8) as u32)) | 0x88u32)
        & 0x08u32 != 0 && ((v & ((!0x80u8) as u32)) | 0x08u32) & 0x08u32 != 0 && ((v & ((!0u8)
        as u32)) | 0x88u32) & 0x77u32 == v & 0x77 && ((v & ((!0x80u8) as u32)) | 0x08u32) & 0x77u32
        == v & 0x77) by (bit_vector)
        requires
            p < 8u8,
            v < 256u32,
    ;
    assert({
        let a = 0u8 | 0u8;
        let b = 0x20u8 | 0u8;
        let c = 0u8 | 0x40u8;
        let d = 0x20u8 | 0x40u8;
        let k = (!0x60u8) as u32;
        &&& ((v & k) | a as u32) & 0x60 == 0 && ((v & k) | a as u32) & 0x9f == v & 0x9f && ((v & k)
            | a as u32) & 0x20 == 0 && ((v & k) | a as u32) & 0x40 == 0
        &&& ((v & k) | b as u32) & 0x20 == 0x20 && ((v & k) | b as u32) & 0x40 == 0 && ((v & k)
            | b as u32) & 0x9f == v & 0x9f
        &&& ((v & k) | c as u32) & 0x20 == 0 && ((v & k) | c as u32) & 0x40 == 0x40 && ((v & k)
            | c as u32) & 0x9f == v & 0x9f
        &&& ((v & k) | d as u32) & 0x20 == 0x20 && ((v & k) | d as u32) & 0x40 == 0x40 && ((v & k)
            | d as u32) & 0x9f == v & 0x9f
    }) by (bit_vector)
        requires
            v < 256u32,
    ;
}

} // verus!
