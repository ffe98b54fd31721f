//! How long interrupts are masked, and how late the system tick arrives.
//!
//! Both are measured in processor cycles with a 32-bit counter that wraps around.
//! While flash is being erased or programmed the bus is held and everything is
//! late; such samples are kept apart, so that they do not spoil the figures that
//! matter.

use vstd::prelude::*;

use crate::mmio::Step;

verus! {

/// What has been measured.
#[derive(Clone, Copy, Debug, PartialEq, Eq, Structural)]
pub struct Latency {
    /// Whether the counter runs.
    pub enabled: bool,
    pub hclk_hz: u32,
    /// Cycles between two ticks.
    pub period: u32,
    pub critical_max: u32,
    pub critical_flash_max: u32,
    pub tick_max: u32,
    pub tick_flash_max: u32,
    /// Where the last flash operation began and ended.
    pub window_start: u32,
    pub window_end: u32,
    /// Whether a flash operation is going on.
    pub flash_active: bool,
    /// When the last tick came; 0 before the first.
    pub last_tick: u32,
}

/// The larger one.
pub open spec fn larger(a: u32, b: u32) -> u32 {
    if a >= b {
        a
    } else {
        b
    }
}

/// How late a tick is that comes at `now`, `period` cycles being due after the one
/// at `last`. One that comes early is not late.
pub open spec fn lateness(last: u32, period: u32, now: u32) -> u32 {
    let late = now.wrapping_sub(last.wrapping_add(period));
    if late > 0x7fff_ffff {
        0
    } else {
        late
    }
}

/// A tick that was due `late` cycles ago was due during a flash operation.
pub open spec fn due_in_window(s: Latency, now: u32, late: u32) -> bool {
    now.wrapping_sub(late).wrapping_sub(s.window_start) < s.window_end.wrapping_sub(s.window_start)
}

fn max_of(a: u32, b: u32) -> (r: u32)
    ensures
        r == larger(a, b),
{
    if a >= b {
        a
    } else {
        b
    }
}

impl Default for Latency {
    fn default() -> (r: Self)
        ensures
            r == (Latency {
                enabled: false,
                hclk_hz: 0,
                period: 0,
                critical_max: 0,
                critical_flash_max: 0,
                tick_max: 0,
                tick_flash_max: 0,
                window_start: 0,
                window_end: 0,
                flash_active: false,
                last_tick: 0,
            }),
    {
        Latency {
            enabled: false,
            hclk_hz: 0,
            period: 0,
            critical_max: 0,
            critical_flash_max: 0,
            tick_max: 0,
            tick_flash_max: 0,
            window_start: 0,
            window_end: 0,
            flash_active: false,
            last_tick: 0,
        }
    }
}

/// Start the counter and note the clock and the length of a tick.
pub fn init<E>(s: &mut Latency, hclk_hz: u32, systick_hz: u32) -> (r: Vec<Step<E>>)
    requires
        systick_hz > 0,
    ensures
        r@ == crate::arch::counter_steps::<E>(),
        *final(s) == (Latency {
            enabled: true,
            hclk_hz,
            period: (hclk_hz / systick_hz) as u32,
            ..*old(s)
        }),
{
    s.hclk_hz = hclk_hz;
    s.period = hclk_hz / systick_hz;
    s.enabled = true;
    crate::arch::start_counter()
}

/// When a critical section began; 0 when it is not measured.
pub fn critical_begin(s: &Latency, now: u32) -> (r: u32)
    ensures
        r == (if s.enabled {
            now
        } else {
            0
        }),
{
    if s.enabled {
        now
    } else {
        0
    }
}

/// A critical section that began at `begin` ends.
pub fn critical_end(s: &mut Latency, begin: u32, now: u32)
    ensures
        *final(s) == (if begin == 0 {
            *old(s)
        } else if old(s).flash_active {
            Latency {
                critical_flash_max: larger(
                    old(s).critical_flash_max,
                    now.wrapping_sub(begin),
                ),
                ..*old(s)
            }
        } else {
            Latency {
                critical_max: larger(old(s).critical_max, now.wrapping_sub(begin)),
                ..*old(s)
            }
        }),
{
    if begin == 0 {
        return;
    }
    let length: u32 = now.wrapping_sub(begin);
    if s.flash_active {
        s.critical_flash_max = max_of(s.critical_flash_max, length);
    } else {
        s.critical_max = max_of(s.critical_max, length);
    }
}

/// A flash operation begins.
pub fn flash_window_begin(s: &mut Latency, now: u32)
    ensures
        *final(s) == (if old(s).enabled {
            Latency { flash_active: true, window_start: now, ..*old(s) }
        } else {
            *old(s)
        }),
{
    if s.enabled {
        s.flash_active = true;
        s.window_start = now;
    }
}

/// A flash operation ends.
pub fn flash_window_end(s: &mut Latency, now: u32)
    ensures
        *final(s) == (if old(s).enabled {
            Latency { flash_active: false, window_end: now, ..*old(s) }
        } else {
            *old(s)
        }),
{
    if s.enabled {
        s.flash_active = false;
        s.window_end = now;
    }
}

/// The system tick arrives. The first one is only noted.
pub fn tick_entry(s: &mut Latency, now: u32)
    ensures
        ({
            let late = lateness(old(s).last_tick, old(s).period, now);
            *final(s) == (if !old(s).enabled || old(s).period == 0 {
                *old(s)
            } else if old(s).last_tick == 0 {
                Latency { last_tick: now, ..*old(s) }
            } else if old(s).flash_active || due_in_window(*old(s), now, late) {
                Latency {
                    last_tick: now,
                    tick_flash_max: larger(old(s).tick_flash_max, late),
                    ..*old(s)
                }
            } else {
                Latency { last_tick: now, tick_max: larger(old(s).tick_max, late), ..*old(s) }
            })
        }),
{
    if !s.enabled || s.period == 0 {
        return;
    }
    if s.last_tick == 0 {
        s.last_tick = now;
        return;
    }
    let expected: u32 = s.last_tick.wrapping_add(s.period);
    let raw: u32 = now.wrapping_sub(expected);
    let late: u32 = if raw > 0x7fff_ffff {
        0
    } else {
        raw
    };
    s.last_tick = now;
    let due: u32 = now.wrapping_sub(late);
    let in_window: bool = due.wrapping_sub(s.window_start) < s.window_end.wrapping_sub(
        s.window_start,
    );
    if s.flash_active || in_window {
        s.tick_flash_max = max_of(s.tick_flash_max, late);
    } else {
        s.tick_max = max_of(s.tick_max, late);
    }
}

/// Forget what was measured.
pub fn reset_peaks(s: &mut Latency)
    ensures
        *final(s) == (Latency {
            critical_max: 0,
            critical_flash_max: 0,
            tick_max: 0,
            tick_flash_max: 0,
            last_tick: 0,
            ..*old(s)
        }),
{
    s.critical_max = 0;
    s.critical_flash_max = 0;
    s.tick_max = 0;
    s.tick_flash_max = 0;
    s.last_tick = 0;
}

/// The longest time for which interrupts were masked, in cycles.
pub fn max_critical_cycles(s: &Latency) -> (r: u32)
    ensures
        r == s.critical_max,
{
    s.critical_max
}

/// The same during flash operations.
pub fn max_critical_flash_cycles(s: &Latency) -> (r: u32)
    ensures
        r == s.critical_flash_max,
{
    s.critical_flash_max
}

/// The largest delay of a tick, in cycles.
pub fn max_tick_latency_cycles(s: &Latency) -> (r: u32)
    ensures
        r == s.tick_max,
{
    s.tick_max
}

/// The same during flash operations.
pub fn max_tick_latency_flash_cycles(s: &Latency) -> (r: u32)
    ensures
        r == s.tick_flash_max,
{
    s.tick_flash_max
}

/// Cycles as microseconds, modulo 2^32; 0 before the clock is known.
pub fn cycles_to_us(s: &Latency, cycles: u32) -> (r: u32)
    ensures
        r == (if s.hclk_hz == 0 {
            0
        } else {
            (cycles * 1_000_000 / s.hclk_hz as int) % 0x1_0000_0000
        }),
{
    if s.hclk_hz == 0 {
        return 0;
    }
    let us: u64 = cycles as u64 * 1_000_000 / s.hclk_hz as u64;
    proof {
        crate::dma::lemma_truncated(us);
    }
    us as u32
}

/// A tick that comes `k` cycles late, for less than half of the counter's range,
/// is measured as exactly `k` late, also when the counter wraps around; one that
/// comes early is measured as being on time.
pub proof fn law_lateness_is_exact(last: u32, period: u32, k: int)
    requires
        -0x8000_0000 <= k <= 0x7fff_ffff,
    ensures
        lateness(last, period, ((last + period + k) % 0x1_0000_0000) as u32) == (if k < 0 {
            0
        } else {
            k
        }),
{
}

/// A peak is the larger of what was the peak and what came: no sample exceeds it, and it
/// is one of the two.
pub proof fn law_peaks_are_maxima(a: u32, b: u32)
    ensures
        larger(a, b) >= a,
        larger(a, b) >= b,
        larger(a, b) == a || larger(a, b) == b,
{
}

/// A tick counts as due during the last flash operation exactly if it was due between its
/// beginning and its end, also when the counter wraps around.
pub proof fn law_flash_windows_are_exact(s: Latency, length: int, into: int, late: int)
    requires
        0 <= length < 0x1_0000_0000,
        0 <= into < 0x1_0000_0000,
        0 <= late < 0x1_0000_0000,
        s.window_end == (s.window_start + length) % 0x1_0000_0000,
    ensures
        due_in_window(
            s,
            ((s.window_start + into + late) % 0x1_0000_0000) as u32,
            late as u32,
        ) <==> into < length,
{
}

/// A second of cycles is a million microseconds, whatever the clock, and what is left of a
/// microsecond is left out: as many cycles more give as many microseconds more, and fewer
/// than a microsecond's give none or one.
pub proof fn law_cycles_are_counted_in_microseconds(s: Latency, cycles: u32, r: u32)
    requires
        s.hclk_hz > 0,
        cycles <= 4000 * s.hclk_hz,
        call_ensures(cycles_to_us, (&s, cycles), r),
    ensures
        cycles == s.hclk_hz ==> r == 1_000_000,
        cycles == 0 ==> r == 0,
        r * s.hclk_hz <= cycles * 1_000_000 < (r + 1) * s.hclk_hz,
{
    let hz = s.hclk_hz as int;
    let all = cycles * 1_000_000;
    let us = all / hz;
    vstd::arithmetic::div_mod::lemma_fundamental_div_mod(all, hz);
    vstd::arithmetic::div_mod::lemma_mod_division_less_than_divisor(all, hz);
    assert(0 <= us <= 4_000_000_000) by (nonlinear_arith)
        requires
            all == hz * us + all % hz,
            0 <= all % hz < hz,
            0 <= all <= 4000 * hz * 1_000_000,
            hz > 0,
    ;
    assert(r == us);
    assert(us * hz <= all < (us + 1) * hz) by (nonlinear_arith)
        requires
            all == hz * us + all % hz,
            0 <= all % hz < hz,
    ;
    if cycles == s.hclk_hz {
        assert(us == 1_000_000) by (nonlinear_arith)
            requires
                us * hz <= hz * 1_000_000 < (us + 1) * hz,
                hz > 0,
        ;
    }
    if cycles == 0 {
        assert(us == 0) by (nonlinear_arith)
            requires
                us * hz <= 0 < (us + 1) * hz,
                hz > 0,
        ;
    }
}

} // verus!
