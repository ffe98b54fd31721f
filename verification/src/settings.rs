//! Settings: the names of their values, and the rules that they obey together.
//!
//! A setting that is not admissible is refused before the firmware is built, so that
//! nothing of it has to be handled when it runs.

use vstd::prelude::*;
use vstd::string::StringSliceAdditionalSpecFns;

use crate::can::{FilterType, RxOverflowMode, StbPriority, WorkMode};
use crate::can_timing;
use crate::clk::{self, ClockSource, Dividers, PllConfig};
use crate::config;
use crate::gpio::Level;
use crate::heap_layout;
use crate::panic::PanicStrategy;

verus! {

// ---------------------------------------------------------------------------
// Names
// ---------------------------------------------------------------------------

/// The source of the system clock with a name.
pub fn clock_source(s: &str) -> (r: Option<ClockSource>)
    ensures
        r == (if s.spec_bytes() == "pll".spec_bytes() {
            Some(ClockSource::Pll)
        } else if s.spec_bytes() == "xtal".spec_bytes() {
            Some(ClockSource::Xtal)
        } else if s.spec_bytes() == "hrc".spec_bytes() {
            Some(ClockSource::Hrc)
        } else if s.spec_bytes() == "mrc".spec_bytes() {
            Some(ClockSource::Mrc)
        } else {
            None
        }),
{
    if config::eq_str(s, "pll") {
        Some(ClockSource::Pll)
    } else if config::eq_str(s, "xtal") {
        Some(ClockSource::Xtal)
    } else if config::eq_str(s, "hrc") {
        Some(ClockSource::Hrc)
    } else if config::eq_str(s, "mrc") {
        Some(ClockSource::Mrc)
    } else {
        None
    }
}

/// The code of the drive strength of the crystal with a name.
pub fn crystal_drive(s: &str) -> (r: Option<u8>)
    ensures
        r == (if s.spec_bytes() == "ulow".spec_bytes() {
            Some(3u8)
        } else if s.spec_bytes() == "low".spec_bytes() {
            Some(2)
        } else if s.spec_bytes() == "mid".spec_bytes() {
            Some(1)
        } else if s.spec_bytes() == "high".spec_bytes() {
            Some(0)
        } else {
            None
        }),
{
    if config::eq_str(s, "ulow") {
        Some(3)
    } else if config::eq_str(s, "low") {
        Some(2)
    } else if config::eq_str(s, "mid") {
        Some(1)
    } else if config::eq_str(s, "high") {
        Some(0)
    } else {
        None
    }
}

/// The level of a pin with a name.
pub fn pin_level(s: &str) -> (r: Option<Level>)
    ensures
        r == (if s.spec_bytes() == "high".spec_bytes() {
            Some(Level::High)
        } else if s.spec_bytes() == "low".spec_bytes() {
            Some(Level::Low)
        } else {
            None
        }),
{
    if config::eq_str(s, "high") {
        Some(Level::High)
    } else if config::eq_str(s, "low") {
        Some(Level::Low)
    } else {
        None
    }
}

/// The mode of the CAN controller with a name.
pub fn can_mode(s: &str) -> (r: Option<WorkMode>)
    ensures
        r == (if s.spec_bytes() == "normal".spec_bytes() {
            Some(WorkMode::Normal)
        } else if s.spec_bytes() == "silent".spec_bytes() {
            Some(WorkMode::Silent)
        } else if s.spec_bytes() == "internal-loopback".spec_bytes() {
            Some(WorkMode::InternalLoopback)
        } else if s.spec_bytes() == "external-loopback".spec_bytes() {
            Some(WorkMode::ExternalLoopback)
        } else if s.spec_bytes() == "external-loopback-silent".spec_bytes() {
            Some(WorkMode::ExternalLoopbackSilent)
        } else {
            None
        }),
{
    if config::eq_str(s, "normal") {
        Some(WorkMode::Normal)
    } else if config::eq_str(s, "silent") {
        Some(WorkMode::Silent)
    } else if config::eq_str(s, "internal-loopback") {
        Some(WorkMode::InternalLoopback)
    } else if config::eq_str(s, "external-loopback") {
        Some(WorkMode::ExternalLoopback)
    } else if config::eq_str(s, "external-loopback-silent") {
        Some(WorkMode::ExternalLoopbackSilent)
    } else {
        None
    }
}

/// The order of the secondary transmit buffer with a name.
pub fn stb_priority(s: &str) -> (r: Option<StbPriority>)
    ensures
        r == (if s.spec_bytes() == "fifo".spec_bytes() {
            Some(StbPriority::Fifo)
        } else if s.spec_bytes() == "id".spec_bytes() {
            Some(StbPriority::LowestIdFirst)
        } else {
            None
        }),
{
    if config::eq_str(s, "fifo") {
        Some(StbPriority::Fifo)
    } else if config::eq_str(s, "id") {
        Some(StbPriority::LowestIdFirst)
    } else {
        None
    }
}

/// What happens when the receive queue is full, by name.
pub fn rx_overflow(s: &str) -> (r: Option<RxOverflowMode>)
    ensures
        r == (if s.spec_bytes() == "overwrite-oldest".spec_bytes() {
            Some(RxOverflowMode::OverwriteOldest)
        } else if s.spec_bytes() == "discard-newest".spec_bytes() {
            Some(RxOverflowMode::DiscardNewest)
        } else {
            None
        }),
{
    if config::eq_str(s, "overwrite-oldest") {
        Some(RxOverflowMode::OverwriteOldest)
    } else if config::eq_str(s, "discard-newest") {
        Some(RxOverflowMode::DiscardNewest)
    } else {
        None
    }
}

/// The type of an acceptance filter with a name.
pub fn filter_type(s: &str) -> (r: Option<FilterType>)
    ensures
        r == (if s.spec_bytes() == "both".spec_bytes() {
            Some(FilterType::StandardAndExtended)
        } else if s.spec_bytes() == "standard".spec_bytes() {
            Some(FilterType::StandardOnly)
        } else if s.spec_bytes() == "extended".spec_bytes() {
            Some(FilterType::ExtendedOnly)
        } else {
            None
        }),
{
    if config::eq_str(s, "both") {
        Some(FilterType::StandardAndExtended)
    } else if config::eq_str(s, "standard") {
        Some(FilterType::StandardOnly)
    } else if config::eq_str(s, "extended") {
        Some(FilterType::ExtendedOnly)
    } else {
        None
    }
}

/// What happens after a failure, by name.
pub fn panic_strategy(s: &str) -> (r: Option<PanicStrategy>)
    ensures
        r == (if s.spec_bytes() == "halt".spec_bytes() {
            Some(PanicStrategy::Halt)
        } else if s.spec_bytes() == "reset".spec_bytes() {
            Some(PanicStrategy::Reset)
        } else {
            None
        }),
{
    if config::eq_str(s, "halt") {
        Some(PanicStrategy::Halt)
    } else if config::eq_str(s, "reset") {
        Some(PanicStrategy::Reset)
    } else {
        None
    }
}

// ---------------------------------------------------------------------------
// Clocks
// ---------------------------------------------------------------------------

/// How the clocks are to run.
#[derive(Clone, Copy, PartialEq, Eq, Debug, Structural)]
pub struct Clocks {
    pub source: ClockSource,
    pub xtal_hz: u32,
    /// The code of the time in which the crystal becomes stable.
    pub xtal_stable_time: u32,
    /// The frequency of HRC in MHz.
    pub hrc_mhz: u32,
    pub pll: PllConfig,
    pub dividers: Dividers,
}

/// What the PLL multiplies.
pub open spec fn multiplied(c: Clocks) -> int {
    if c.pll.src == 0 {
        c.xtal_hz as int
    } else {
        c.hrc_mhz * 1_000_000
    }
}

/// The settings of the clocks are admissible.
pub open spec fn clocks_admissible(c: Clocks) -> bool {
    &&& 4_000_000 <= c.xtal_hz <= 25_000_000
    &&& 1 <= c.xtal_stable_time <= 9
    &&& c.hrc_mhz == 16 || c.hrc_mhz == 20
    &&& c.pll.src <= 1
    &&& c.pll.m <= 31
    &&& 19 <= c.pll.n <= 479
    &&& 1 <= c.pll.p <= 15
    &&& 1 <= c.pll.q <= 15
    &&& 1 <= c.pll.r <= 15
    &&& 1_000_000 * (c.pll.m + 1) <= multiplied(c) <= 25_000_000 * (c.pll.m + 1)
    &&& 240_000_000 * (c.pll.m + 1) <= multiplied(c) * (c.pll.n + 1) <= 480_000_000 * (c.pll.m + 1)
    &&& clk::are_dividers(c.dividers)
}

/// Whether the settings of the clocks are admissible.
pub fn clocks_ok(c: &Clocks) -> (r: bool)
    ensures
        r == clocks_admissible(*c),
{
    if c.xtal_hz < 4_000_000 || c.xtal_hz > 25_000_000 || c.xtal_stable_time < 1
        || c.xtal_stable_time > 9 {
        return false;
    }
    if (c.hrc_mhz != 16 && c.hrc_mhz != 20) || c.pll.src > 1 {
        return false;
    }
    let source: u32 = if c.pll.src == 0 {
        c.xtal_hz
    } else {
        c.hrc_mhz * 1_000_000
    };
    config::assert_pll_width(c.pll.m, c.pll.n, c.pll.p, c.pll.q, c.pll.r)
        && config::assert_pll_range(source, c.pll.m, c.pll.n) && config::assert_div(
        c.dividers.hclk,
    ) && config::assert_div(c.dividers.pclk0) && config::assert_div(c.dividers.pclk1)
        && config::assert_div(c.dividers.pclk2) && config::assert_div(c.dividers.pclk3)
        && config::assert_div(c.dividers.pclk4) && config::assert_div(c.dividers.exclk)
}

/// The frequency of the system clock that the settings lead to.
pub open spec fn system_hz(c: Clocks) -> int {
    match c.source {
        ClockSource::Mrc => 8_000_000,
        ClockSource::Hrc => c.hrc_mhz * 1_000_000,
        ClockSource::Xtal => c.xtal_hz as int,
        ClockSource::Pll => multiplied(c) * (c.pll.n + 1) / (c.pll.m + 1) / (c.pll.p + 1),
    }
}

/// The frequency of the system clock that admissible settings lead to.
pub fn configured_system_hz(c: &Clocks) -> (r: u64)
    requires
        clocks_admissible(*c),
    ensures
        r == system_hz(*c),
{
    match c.source {
        ClockSource::Mrc => clk::MRC_HZ as u64,
        ClockSource::Hrc => c.hrc_mhz as u64 * 1_000_000,
        ClockSource::Xtal => c.xtal_hz as u64,
        ClockSource::Pll => {
            let source: u64 = if c.pll.src == 0 {
                c.xtal_hz as u64
            } else {
                c.hrc_mhz as u64 * 1_000_000
            };
            let factor: u64 = c.pll.n as u64 + 1;
            assert(source * factor <= 25_000_000 * 480) by (nonlinear_arith)
                requires
                    0 <= source <= 25_000_000,
                    0 <= factor <= 480,
            ;
            source * factor / (c.pll.m as u64 + 1) / (c.pll.p as u64 + 1)
        },
    }
}

/// Whether the CAN controller gets at least one and a half times the clock of the
/// crystal, if it is used.
pub fn can_clock_ok(c: &Clocks, used: bool) -> (r: bool)
    requires
        clocks_admissible(*c),
    ensures
        r == (!used || system_hz(*c) / (c.dividers.exclk as int) * 2 >= c.xtal_hz * 3),
{
    if !used {
        return true;
    }
    let system: u64 = configured_system_hz(c);
    let bus: u64 = system / c.dividers.exclk as u64;
    proof {
        lemma_system_bound(*c);
        vstd::arithmetic::div_mod::lemma_div_is_ordered_by_denominator(
            system as int,
            1,
            c.dividers.exclk as int,
        );
    }
    bus * 2 >= c.xtal_hz as u64 * 3
}

/// No system clock is faster than 480 MHz.
proof fn lemma_system_bound(c: Clocks)
    requires
        clocks_admissible(c),
    ensures
        0 <= system_hz(c) <= 480_000_000,
{
    if c.source == ClockSource::Pll {
        let a = multiplied(c) * (c.pll.n + 1);
        let d = c.pll.m + 1;
        let p = c.pll.p + 1;
        assert(0 <= a / d <= 480_000_000) by (nonlinear_arith)
            requires
                0 <= a <= 480_000_000 * d,
                d > 0,
        ;
        let v = a / d;
        assert(0 <= v / p <= v) by (nonlinear_arith)
            requires
                0 <= v,
                p >= 1,
        ;
    }
}

/// Clocks with admissible settings can be set up: the dividers exist, the oscillator
/// in the PLL stays within its range, and the frequency fits into 32 bits, whatever the
/// source. The hardware configuration `icg1` is that of the configured HRC.
pub proof fn law_admissible_clocks_can_be_set_up(c: Clocks, icg1: u32)
    requires
        clocks_admissible(c),
        clk::hrc_of(icg1) == c.hrc_mhz * 1_000_000,
    ensures
        clk::are_dividers(c.dividers),
        clk::pll_vco(clk::pll_register(c.pll), icg1, c.xtal_hz) <= 480_000_000,
        0 < system_hz(c) <= 480_000_000,
{
    let cfg = c.pll;
    let src = cfg.src;
    let m = cfg.m;
    let n = cfg.n;
    let p = cfg.p;
    let q = cfg.q;
    let r = cfg.r;
    assert({
        let v = (m & 0x1f) | ((src & 0x1) << 7u32) | ((n & 0x1ff) << 8u32) | ((r & 0xf) << 20u32)
            | ((q & 0xf) << 24u32) | ((p & 0xf) << 28u32);
        v & 0x1f == m && (v >> 8u32) & 0x1ff == n && ((v & 0x80 != 0) == (src == 1))
    }) by (bit_vector)
        requires
            src <= 1u32,
            m <= 31u32,
            n <= 511u32,
            p <= 15u32,
            q <= 15u32,
            r <= 15u32,
    ;
    let s = multiplied(c);
    let d = m + 1;
    let f = n + 1;
    assert((s / d) * f <= 480_000_000) by (nonlinear_arith)
        requires
            0 < d,
            0 <= f,
            0 <= s,
            s * f <= 480_000_000 * d,
    {
        assert((s / d) * d <= s);
        assert((s / d) * f * d <= s * f);
    }
    lemma_system_bound(c);
    if c.source == ClockSource::Pll {
        let a = s * f;
        let k = p + 1;
        assert(a / d >= 240_000_000) by (nonlinear_arith)
            requires
                a >= 240_000_000 * d,
                d > 0,
        ;
        let v = a / d;
        assert(v / k > 0) by (nonlinear_arith)
            requires
                v >= 240_000_000,
                1 <= k <= 16,
        ;
    }
}

// ---------------------------------------------------------------------------
// Console, DMA and CAN
// ---------------------------------------------------------------------------

/// How the serial line of the console is used.
#[derive(Clone, Copy, PartialEq, Eq, Debug, Structural)]
pub struct SerialLine {
    pub unit: u8,
    pub baudrate: u32,
    pub oversample: u32,
    pub clock_div: u32,
    pub data_bits: u32,
    pub stop_bits: u32,
    pub receive_buffer: u32,
    pub irq_line: u32,
    pub irq_priority: u8,
    pub line_gap_ms: u32,
}

/// The settings of the serial line are admissible.
pub open spec fn line_admissible(u: SerialLine) -> bool {
    &&& 1 <= u.unit <= 4
    &&& u.baudrate > 0
    &&& u.oversample == 8 || u.oversample == 16
    &&& u.clock_div == 1 || u.clock_div == 4 || u.clock_div == 16 || u.clock_div == 64
    &&& u.data_bits == 8 || u.data_bits == 9
    &&& u.stop_bits == 1 || u.stop_bits == 2
    &&& 16 <= u.receive_buffer <= 4096
    &&& u.irq_line < 128
    &&& u.irq_priority <= 15
    &&& u.line_gap_ms <= 50
}

/// Whether the settings of the serial line are admissible.
pub fn line_ok(u: &SerialLine) -> (r: bool)
    ensures
        r == line_admissible(*u),
{
    1 <= u.unit && u.unit <= 4 && u.baudrate > 0 && (u.oversample == 8 || u.oversample == 16) && (
    u.clock_div == 1 || u.clock_div == 4 || u.clock_div == 16 || u.clock_div == 64) && (u.data_bits
        == 8 || u.data_bits == 9) && (u.stop_bits == 1 || u.stop_bits == 2) && 16
        <= u.receive_buffer && u.receive_buffer <= 4096 && u.irq_line < 128 && u.irq_priority <= 15
        && u.line_gap_ms <= 50
}

/// How the DMA channels are used.
#[derive(Clone, Copy, PartialEq, Eq, Debug, Structural)]
pub struct Channels {
    pub enabled: bool,
    pub tx_unit: u8,
    pub tx_channel: u8,
    pub tx_min: u32,
    pub copy_unit: u8,
    pub copy_channel: u8,
    pub copy_min: u32,
}

/// The settings of the DMA channels are admissible: both exist, and they are not the
/// same one while they are in use.
pub open spec fn channels_admissible(d: Channels) -> bool {
    &&& crate::dma::exists_channel(d.tx_unit, d.tx_channel)
    &&& crate::dma::exists_channel(d.copy_unit, d.copy_channel)
    &&& 4 <= d.tx_min <= 512
    &&& 16 <= d.copy_min <= 1024
    &&& d.enabled ==> d.tx_unit != d.copy_unit || d.tx_channel != d.copy_channel
}

/// Whether the settings of the DMA channels are admissible.
pub fn channels_ok(d: &Channels) -> (r: bool)
    ensures
        r == channels_admissible(*d),
{
    (d.tx_unit == 1 || d.tx_unit == 2) && d.tx_channel <= 3 && (d.copy_unit == 1 || d.copy_unit == 2)
        && d.copy_channel <= 3 && 4 <= d.tx_min && d.tx_min <= 512 && 16 <= d.copy_min && d.copy_min
        <= 1024 && !(d.enabled && d.tx_unit == d.copy_unit && d.tx_channel == d.copy_channel)
}

/// With admissible settings the console and the copies get a channel each from an
/// [`crate::peripherals::Ownership`] of which nothing was handed out.
pub proof fn law_admissible_channels_are_both_handed_out(d: Channels)
    requires
        channels_admissible(d),
        d.enabled,
    ensures
        ({
            let tx = crate::peripherals::channel_bit(d.tx_unit, d.tx_channel);
            let copy = crate::peripherals::channel_bit(d.copy_unit, d.copy_channel);
            0u32 & tx == 0 && (0u32 | tx) & copy == 0
        }),
{
    let tx = crate::peripherals::channel_bit(d.tx_unit, d.tx_channel);
    let copy = crate::peripherals::channel_bit(d.copy_unit, d.copy_channel);
    crate::peripherals::law_channels_are_owned_once(
        d.tx_unit,
        d.tx_channel,
        d.copy_unit,
        d.copy_channel,
    );
    assert(0u32 & tx == 0 && (0u32 | tx) & copy == tx & copy) by (bit_vector);
}

/// How the CAN controller is connected and used.
#[derive(Clone, Copy, PartialEq, Eq, Debug, Structural)]
pub struct Bus {
    pub tx_pin: u8,
    pub tx_function: u8,
    pub rx_pin: u8,
    pub rx_function: u8,
    pub bitrate: u32,
    pub sample_point_permille: u32,
    pub sjw: u8,
    pub max_error_ppm: u32,
    pub rx_warn_limit: u8,
    pub error_warn_limit: u8,
    pub filter_id: u32,
    pub filter_mask: u32,
    pub filter_type: FilterType,
    pub timeout_ms: u32,
}

/// A pin of port B can be connected to the CAN controller.
pub open spec fn connectable(pin: u8) -> bool {
    3 <= pin <= 10 || 12 <= pin <= 15
}

/// The settings of the CAN controller are admissible, `xtal_hz` being its clock.
pub open spec fn bus_admissible(b: Bus, xtal_hz: u32) -> bool {
    &&& connectable(b.tx_pin)
    &&& connectable(b.rx_pin)
    &&& b.tx_pin != b.rx_pin
    &&& b.tx_function == 50
    &&& b.rx_function == 51
    &&& b.bitrate <= 1_000_000
    &&& b.sample_point_permille <= 0xffff
    &&& can_timing::inputs_ok(xtal_hz, b.bitrate, b.sample_point_permille, b.sjw as u32)
    &&& exists|t: can_timing::BitTiming| #[trigger]
        can_timing::acceptable(xtal_hz, b.bitrate, b.sjw as u32, b.max_error_ppm, t)
    &&& 1 <= b.rx_warn_limit <= 10
    &&& b.error_warn_limit <= 15
    &&& b.filter_id <= 0x1fff_ffff
    &&& b.filter_mask <= 0x1fff_ffff
    &&& b.filter_type is StandardOnly ==> b.filter_id <= 0x7ff
    &&& 1 <= b.timeout_ms <= 5000
}

/// Whether the settings of the CAN controller are admissible.
pub fn bus_ok(b: &Bus, xtal_hz: u32) -> (r: bool)
    ensures
        r == bus_admissible(*b, xtal_hz),
{
    if !config::can_portb_supports_func_group2(b.tx_pin)
        || !config::can_portb_supports_func_group2(b.rx_pin) || b.tx_pin == b.rx_pin
        || b.tx_function != 50 || b.rx_function != 51 {
        return false;
    }
    if b.bitrate > can_timing::MAX_CLASSIC_BITRATE || b.sample_point_permille > 0xffff {
        return false;
    }
    if can_timing::calculate(
        xtal_hz,
        b.bitrate,
        b.sample_point_permille,
        b.sjw as u32,
        b.max_error_ppm,
    ).is_none() {
        return false;
    }
    1 <= b.rx_warn_limit && b.rx_warn_limit <= 10 && b.error_warn_limit <= 15
        && config::assert_can_filter(b.filter_id, b.filter_mask, b.filter_type) && 1
        <= b.timeout_ms && b.timeout_ms <= 5000
}

// ---------------------------------------------------------------------------
// Threads, memory, log and shell
// ---------------------------------------------------------------------------

/// The stack and the priority of a thread; 0 is the highest priority.
#[derive(Clone, Copy, PartialEq, Eq, Debug, Structural)]
pub struct Thread {
    pub stack: u32,
    pub priority: u8,
}

/// A stack can hold a thread.
pub open spec fn stack_admissible(bytes: u32) -> bool {
    bytes >= 256 && bytes % 8 == 0
}

/// The threads of the system and the times at which they act.
#[derive(Clone, Copy, PartialEq, Eq, Debug, Structural)]
pub struct Threads {
    pub tick_hz: u32,
    pub ticks_per_sec: u32,
    pub priorities: u8,
    pub idle: Thread,
    pub led: Thread,
    pub shell: Thread,
    pub logfile: Thread,
    pub watchdog: Thread,
    pub watchdog_enabled: bool,
    pub watchdog_feed_ms: u32,
    pub led_blink_ms: u32,
    pub timer_period_ms: u32,
}

/// The settings of the threads are admissible: the idle thread comes last, log files
/// are written after the work of the application, and the watchdog is fed before it.
pub open spec fn threads_admissible(t: Threads) -> bool {
    &&& t.ticks_per_sec > 0
    &&& t.tick_hz == t.ticks_per_sec
    &&& 1 <= t.priorities <= 32
    &&& t.idle.priority + 1 == t.priorities
    &&& stack_admissible(t.idle.stack)
    &&& stack_admissible(t.led.stack)
    &&& stack_admissible(t.shell.stack)
    &&& stack_admissible(t.logfile.stack)
    &&& stack_admissible(t.watchdog.stack)
    &&& t.led.priority < t.idle.priority
    &&& t.shell.priority < t.idle.priority
    &&& t.led.priority < t.logfile.priority < t.idle.priority
    &&& t.watchdog.priority == 0
    &&& 0 < t.watchdog_feed_ms <= 500
    &&& t.watchdog_enabled ==> t.watchdog.priority < t.led.priority && t.watchdog.priority
        < t.shell.priority
    &&& t.led_blink_ms > 0
    &&& t.timer_period_ms > 0
}

fn stack_ok(bytes: u32) -> (r: bool)
    ensures
        r == stack_admissible(bytes),
{
    bytes >= 256 && bytes % 8 == 0
}

/// Whether the settings of the threads are admissible.
pub fn threads_ok(t: &Threads) -> (r: bool)
    ensures
        r == threads_admissible(*t),
{
    t.ticks_per_sec > 0 && t.tick_hz == t.ticks_per_sec && 1 <= t.priorities && t.priorities <= 32
        && t.idle.priority as u16 + 1 == t.priorities as u16 && stack_ok(t.idle.stack) && stack_ok(
        t.led.stack,
    ) && stack_ok(t.shell.stack) && stack_ok(t.logfile.stack) && stack_ok(t.watchdog.stack)
        && t.led.priority < t.idle.priority && t.shell.priority < t.idle.priority && t.led.priority
        < t.logfile.priority && t.logfile.priority < t.idle.priority && t.watchdog.priority == 0
        && t.watchdog_feed_ms > 0 && t.watchdog_feed_ms <= 500 && (!t.watchdog_enabled || (
    t.watchdog.priority < t.led.priority && t.watchdog.priority < t.shell.priority))
        && t.led_blink_ms > 0 && t.timer_period_ms > 0
}

/// Whether a stack guard has an admissible size: a power of two from 32 to 1024.
pub fn stack_guard_ok(bytes: u32) -> (r: bool)
    ensures
        r == (vstd::arithmetic::power2::is_pow2(bytes as int) && 32 <= bytes <= 1024),
{
    heap_layout::is_power_of_two(bytes as usize) && 32 <= bytes && bytes <= 1024
}

/// Whether the sizes of the log are admissible: the buffer, a file, the number of files
/// that are kept, and the milliseconds between two savings.
pub fn log_sizes_ok(ring: u32, file: u32, slots: u32, flush_ms: u32) -> (r: bool)
    ensures
        r == (512 <= ring <= 16384 && 512 <= file <= 8192 && 1 <= slots <= 8 && 100 <= flush_ms
            <= 60000),
{
    512 <= ring && ring <= 16384 && 512 <= file && file <= 8192 && 1 <= slots && slots <= 8 && 100
        <= flush_ms && flush_ms <= 60000
}

/// Printable text of at most `limit` bytes.
pub open spec fn typeable(s: Seq<u8>, limit: int) -> bool {
    &&& 0 < s.len() <= limit
    &&& forall|i: int| 0 <= i < s.len() ==> 0x20 <= #[trigger] s[i] <= 0x7e
}

/// Whether the settings of the shell are admissible: a user name that can be typed and
/// has no space at either end, a password that can be typed, and the sizes.
pub fn shell_ok(username: &str, password: &str, tries: u32, line: u32, history: u32) -> (r: bool)
    ensures
        r == ({
            let u = username.spec_bytes();
            &&& 32 <= line <= 256
            &&& 1 <= tries <= 100
            &&& 1 <= history <= 16
            &&& typeable(u, line as int)
            &&& u[0] != 0x20
            &&& u.last() != 0x20
            &&& typeable(password.spec_bytes(), line as int)
        }),
{
    if line < 32 || line > 256 || tries < 1 || tries > 100 || history < 1 || history > 16 {
        return false;
    }
    if !config::is_printable_ascii(username) || !config::is_printable_ascii(password) {
        return false;
    }
    let u: &[u8] = username.as_bytes();
    let p: &[u8] = password.as_bytes();
    u.len() <= line as usize && u[0] != 0x20 && u[u.len() - 1] != 0x20 && p.len() <= line as usize
}

/// Whether the sizes of the editor are admissible: columns, rows and bytes of a text.
pub fn editor_ok(columns: u32, rows: u32, bytes: u32) -> (r: bool)
    ensures
        r == (40 <= columns <= 240 && 8 <= rows <= 100 && 256 <= bytes <= 65_472),
{
    40 <= columns && columns <= 240 && 8 <= rows && rows <= 100 && 256 <= bytes && bytes <= 65_472
}

/// Whether the settings of file transfers are admissible: the milliseconds that are
/// waited, the bytes of a packet, and those of a received file.
pub fn transfer_ok(timeout_ms: u32, packet: u32, file: u32) -> (r: bool)
    ensures
        r == (100 <= timeout_ms <= 60000 && 32 <= packet <= 1024 && 1024 <= file <= 65_472),
{
    100 <= timeout_ms && timeout_ms <= 60000 && 32 <= packet && packet <= 1024 && 1024 <= file
        && file <= 65_472
}

/// Whether the settings of long tests are admissible: minutes, the milliseconds between
/// reports, those without progress, those between flash operations, and the reports that
/// are kept.
pub fn soak_ok(minutes: u32, report_ms: u32, grace_ms: u32, flash_ms: u32, slots: u32) -> (r: bool)
    ensures
        r == (minutes <= 7 * 24 * 60 && report_ms >= 1000 && grace_ms >= 1000 && flash_ms >= 1000
            && 1 <= slots <= 32),
{
    minutes <= 10080 && report_ms >= 1000 && grace_ms >= 1000 && flash_ms >= 1000 && 1 <= slots
        && slots <= 32
}

} // verus!
