//! The board: its lights, its external watchdog, and the order in which it is
//! started.
//!
//! Three lights and the two pins of the external watchdog are pins of port B. The
//! watchdog is off while its first pin is high, and is fed by every change of the
//! level of its second one.

use vstd::prelude::*;
use vstd::string::StringSliceAdditionalSpecFns;

use crate::can::{self, Can, CanError, WorkMode};
use crate::clk::{ClkError, ClockSource};
use crate::gpio::{self, Config, Drive, Level, Mode, Pin, PortB};
use crate::intc::Line;
use crate::mmio::Step;
use crate::peripherals::{Ownership, Peripherals};
use crate::rtc;

verus! {

/// A light.
#[derive(Clone, Copy, PartialEq, Eq, Debug, Structural)]
pub enum Led {
    /// The firmware is running.
    Work,
    /// It has started.
    Success,
    /// It has failed.
    Error,
}

impl Led {
    /// The name of the light.
    pub fn name(self) -> (r: &'static str)
        ensures
            r.spec_bytes() == (match self {
                Led::Work => "work".spec_bytes(),
                Led::Success => "success".spec_bytes(),
                Led::Error => "error".spec_bytes(),
            }),
    {
        match self {
            Led::Work => "work",
            Led::Success => "success",
            Led::Error => "error",
        }
    }
}

/// The level of a pin whose light is on or off.
pub open spec fn led_level(on: bool, active_high: bool) -> Level {
    if on == active_high {
        Level::High
    } else {
        Level::Low
    }
}

/// A pin of port B gets a level.
pub open spec fn level_steps(n: u8, level: Level) -> Seq<Step<()>> {
    gpio::data_steps::<()>(
        0x010,
        match level {
            Level::High => 0x08,
            Level::Low => 0x0a,
        },
        n,
    )
}

/// The level of a pin of port B changes.
pub open spec fn toggle_steps(n: u8) -> Seq<Step<()>> {
    gpio::data_steps::<()>(0x010, 0x0c, n)
}

/// A pin of port B becomes an output with a level.
pub open spec fn output_steps(n: u8, level: Level) -> Seq<Step<()>> {
    gpio::configure_steps::<()>(0x010, 0x440, n, output_of(level))
}

/// An output with a level.
pub open spec fn output_of(level: Level) -> Config {
    Config { mode: Mode::Output, pull_up: false, drive: Drive::Low, initial_level: level }
}

fn led_on_level(active_high: bool) -> (r: Level)
    ensures
        r == led_level(true, active_high),
{
    if active_high {
        Level::High
    } else {
        Level::Low
    }
}

fn led_off_level(active_high: bool) -> (r: Level)
    ensures
        r == led_level(false, active_high),
{
    if active_high {
        Level::Low
    } else {
        Level::High
    }
}

fn output<const N: u8>(pin: &Pin<PortB, N>, level: Level) -> (r: Vec<Step<()>>)
    requires
        N < 16,
    ensures
        r@ == output_steps(N, level),
{
    proof {
        gpio::law_ports();
    }
    pin.configure(
        Config { mode: Mode::Output, pull_up: false, drive: Drive::Low, initial_level: level },
    )
}

fn drive<const N: u8>(pin: &Pin<PortB, N>, level: Level) -> (r: Vec<Step<()>>)
    requires
        N < 16,
    ensures
        r@ == level_steps(N, level),
{
    proof {
        gpio::law_ports();
    }
    pin.set_level(level)
}

fn invert<const N: u8>(pin: &Pin<PortB, N>) -> (r: Vec<Step<()>>)
    requires
        N < 16,
    ensures
        r@ == toggle_steps(N),
{
    proof {
        gpio::law_ports();
    }
    pin.toggle()
}

fn set_led_pin<const N: u8>(pin: &Pin<PortB, N>, on: bool, active_high: bool) -> (r: Vec<Step<()>>)
    requires
        N < 16,
    ensures
        r@ == level_steps(N, led_level(on, active_high)),
{
    drive(
        pin,
        if on {
            led_on_level(active_high)
        } else {
            led_off_level(active_high)
        },
    )
}

fn led_pin_is_on<const N: u8>(pin: &Pin<PortB, N>, outputs: u16, active_high: bool) -> (r: bool)
    requires
        N < 16,
    ensures
        r == ((outputs & gpio::bit_of(N) != 0) == active_high),
{
    pin.is_high(outputs) == active_high
}

/// Light the error light before anything is set up.
pub fn indicate_fault_early<const N: u8>(active_high: bool) -> (r: Vec<Step<()>>)
    requires
        N < 16,
    ensures
        r@ == output_steps(N, led_level(false, active_high)) + level_steps(
            N,
            led_level(true, active_high),
        ),
{
    proof {
        gpio::law_ports();
    }
    let pin: Pin<PortB, N> = Pin::new();
    let mut out: Vec<Step<()>> = output(&pin, led_off_level(active_high));
    let mut on: Vec<Step<()>> = drive(&pin, led_on_level(active_high));
    out.append(&mut on);
    out
}

// ---------------------------------------------------------------------------
// Starting
// ---------------------------------------------------------------------------

/// What is on the board and in use.
#[derive(Clone, Copy, PartialEq, Eq, Debug, Structural)]
pub struct BoardConfig {
    /// A light is on when its pin is high.
    pub led_active_high: bool,
    /// Memory is protected.
    pub mpu: bool,
    /// The CAN controller is used.
    pub can: bool,
    /// The DMA units are used.
    pub dma: bool,
    /// The real-time clock is used.
    pub rtc: bool,
}

/// A part of the start.
#[derive(Clone, Copy, PartialEq, Eq, Debug, Structural)]
pub enum Stage {
    /// Switch the external watchdog off: [`BoardResources::hwdt_pins`].
    HoldWatchdog,
    /// Set up the clocks.
    Clocks,
    /// Start to measure latencies.
    Latency,
    /// Protect memory.
    Mpu,
    /// Set up the lights, all dark: [`BoardResources::led_pins`].
    Leds,
    /// Connect the pins of the console.
    ConsolePins,
    /// Connect the pins of the CAN controller.
    CanPins,
    /// Start the tick.
    SysTick,
    /// Set up the serial line of the console.
    Uart,
    /// Tell what drives the system clock: [`clock_report`].
    ClockReport,
    /// Set up the DMA units and the channel of the console.
    Dma,
    /// Set up the CAN controller.
    Can,
    /// Set up the real-time clock, set it and start it.
    Rtc,
    /// The board can be used, and the console prints.
    Publish,
}

/// Where a part has its place in the start.
pub open spec fn turn(stage: Stage) -> int {
    match stage {
        Stage::HoldWatchdog => 0,
        Stage::Clocks => 1,
        Stage::Latency => 2,
        Stage::Mpu => 3,
        Stage::Leds => 4,
        Stage::ConsolePins => 5,
        Stage::CanPins => 6,
        Stage::SysTick => 7,
        Stage::Uart => 8,
        Stage::ClockReport => 9,
        Stage::Dma => 10,
        Stage::Can => 11,
        Stage::Rtc => 12,
        Stage::Publish => 13,
    }
}

/// Whether a part belongs to the start.
pub open spec fn wanted(config: BoardConfig, stage: Stage) -> bool {
    match stage {
        Stage::Mpu => config.mpu,
        Stage::CanPins => config.can,
        Stage::Dma => config.dma,
        Stage::Can => config.can,
        Stage::Rtc => config.rtc,
        _ => true,
    }
}

/// The part whose turn it is.
pub open spec fn stage_at(i: int) -> Stage {
    if i == 0 {
        Stage::HoldWatchdog
    } else if i == 1 {
        Stage::Clocks
    } else if i == 2 {
        Stage::Latency
    } else if i == 3 {
        Stage::Mpu
    } else if i == 4 {
        Stage::Leds
    } else if i == 5 {
        Stage::ConsolePins
    } else if i == 6 {
        Stage::CanPins
    } else if i == 7 {
        Stage::SysTick
    } else if i == 8 {
        Stage::Uart
    } else if i == 9 {
        Stage::ClockReport
    } else if i == 10 {
        Stage::Dma
    } else if i == 11 {
        Stage::Can
    } else if i == 12 {
        Stage::Rtc
    } else {
        Stage::Publish
    }
}

/// The parts of the start whose turn comes before `n`.
pub open spec fn stages_before(config: BoardConfig, n: int) -> Seq<Stage>
    decreases n,
{
    if n <= 0 {
        Seq::empty()
    } else if wanted(config, stage_at(n - 1)) {
        stages_before(config, n - 1).push(stage_at(n - 1))
    } else {
        stages_before(config, n - 1)
    }
}

/// The parts of the start, in their order.
pub open spec fn stages(config: BoardConfig) -> Seq<Stage> {
    stages_before(config, 14)
}

/// The board is started in a fixed order: the external watchdog is held before the
/// clocks start, then come memory protection, pins, tick, console, CAN controller and
/// real-time clock, and the board is handed out last. A part is there exactly if it is
/// configured.
pub proof fn law_the_start_has_an_order(config: BoardConfig)
    ensures
        forall|i: int, j: int|
            0 <= i < j < stages(config).len() ==> turn(#[trigger] stages(config)[i]) < turn(
                #[trigger] stages(config)[j],
            ),
        forall|stage: Stage| #[trigger]
            stages(config).contains(stage) == wanted(config, stage),
        stages(config).len() > 0 && stages(config).last() == Stage::Publish,
{
    lemma_order(config, 14);
}

proof fn lemma_order(config: BoardConfig, n: int)
    requires
        0 <= n <= 14,
    ensures
        ({
            let s = stages_before(config, n);
            &&& forall|i: int| 0 <= i < s.len() ==> 0 <= turn(#[trigger] s[i]) < n
            &&& forall|i: int, j: int|
                0 <= i < j < s.len() ==> turn(#[trigger] s[i]) < turn(#[trigger] s[j])
            &&& forall|stage: Stage| #[trigger]
                s.contains(stage) == (wanted(config, stage) && turn(stage) < n)
        }),
    decreases n,
{
    if n > 0 {
        lemma_order(config, n - 1);
        let before = stages_before(config, n - 1);
        let s = stages_before(config, n);
        let last = stage_at(n - 1);
        assert(turn(last) == n - 1);
        assert forall|stage: Stage| #[trigger] s.contains(stage) == (wanted(config, stage) && turn(
            stage,
        ) < n) by {
            assert(turn(stage) == n - 1 ==> stage == last);
            if wanted(config, last) {
                assert(s == before.push(last));
                if before.contains(stage) {
                    let i = choose|i: int| 0 <= i < before.len() && before[i] == stage;
                    assert(s[i] == stage);
                }
                if stage == last {
                    assert(s[before.len() as int] == stage);
                }
                if s.contains(stage) {
                    let i = choose|i: int| 0 <= i < s.len() && s[i] == stage;
                    if i < before.len() {
                        assert(before[i] == stage);
                    }
                }
            }
        }
    }
}

/// The entrance to the board.
pub struct Board<
    const TX_UNIT: u8,
    const TX_CHANNEL: u8,
    const COPY_UNIT: u8,
    const COPY_CHANNEL: u8,
> {
    peripherals: Peripherals<TX_UNIT, TX_CHANNEL, COPY_UNIT, COPY_CHANNEL>,
}

/// What the firmware uses of the board. The parameters are the numbers of the pins:
/// of the three lights, and of the external watchdog.
pub struct BoardResources<
    const WORK: u8,
    const SUCCESS: u8,
    const FAULT: u8,
    const ENABLE: u8,
    const FEED: u8,
> {
    led_work: Pin<PortB, WORK>,
    led_success: Pin<PortB, SUCCESS>,
    led_error: Pin<PortB, FAULT>,
    hwdt_enable_pin: Pin<PortB, ENABLE>,
    hwdt_feed_pin: Pin<PortB, FEED>,
    can: Can,
    active_high: bool,
    system_hz: u32,
}

impl<
    const TX_UNIT: u8,
    const TX_CHANNEL: u8,
    const COPY_UNIT: u8,
    const COPY_CHANNEL: u8,
> Board<TX_UNIT, TX_CHANNEL, COPY_UNIT, COPY_CHANNEL> {
    /// The channels of the console and of copying are there.
    pub closed spec fn complete(self) -> bool {
        self.peripherals.dma_tx is Some && self.peripherals.dma_copy is Some
            && self.peripherals.can.line() is None
    }

    /// Whether the channels of the console and of copying are there.
    pub fn is_complete(&self) -> (r: bool)
        ensures
            r == self.complete(),
    {
        self.peripherals.dma_tx.is_some() && self.peripherals.dma_copy.is_some()
            && !self.peripherals.can.irq_registered()
    }

    /// The entrance to the board, the first time it is asked for.
    pub fn take(ownership: &mut Ownership) -> (r: Option<Self>)
        requires
            crate::dma::exists_channel(TX_UNIT, TX_CHANNEL),
            crate::dma::exists_channel(COPY_UNIT, COPY_CHANNEL),
        ensures
            r is Some <==> !old(ownership).is_taken(),
            final(ownership).is_taken(),
            r matches Some(board) ==> {
                let tx = crate::peripherals::channel_bit(TX_UNIT, TX_CHANNEL);
                let copy = crate::peripherals::channel_bit(COPY_UNIT, COPY_CHANNEL);
                &&& final(ownership).dma() == old(ownership).dma() | tx | copy
                &&& board.complete() == (old(ownership).dma() & tx == 0 && (old(ownership).dma()
                    | tx) & copy == 0)
            },
            r is None ==> final(ownership).dma() == old(ownership).dma(),
    {
        match Peripherals::take(ownership) {
            Some(peripherals) => Some(Board { peripherals }),
            None => None,
        }
    }

    /// How the board is started: the parts of the start, and what is used of the board
    /// once they are done, when the system clock has `system_hz`.
    pub fn init<
        const WORK: u8,
        const SUCCESS: u8,
        const FAULT: u8,
        const ENABLE: u8,
        const FEED: u8,
    >(self, config: &BoardConfig, system_hz: u32) -> (r: (
        BoardResources<WORK, SUCCESS, FAULT, ENABLE, FEED>,
        Vec<Stage>,
    ))
        requires
            self.complete(),
            pins_exist(WORK, SUCCESS, FAULT, ENABLE, FEED),
        ensures
            r.0.lit_by_high() == config.led_active_high,
            r.0.clock() == system_hz,
            r.0.controller().line() is None,
            r.1@ == stages(*config),
    {
        proof {
            gpio::law_ports();
        }
        let gpio = self.peripherals.gpio;
        let resources = BoardResources {
            led_work: gpio.pin::<PortB, WORK>(),
            led_success: gpio.pin::<PortB, SUCCESS>(),
            led_error: gpio.pin::<PortB, FAULT>(),
            hwdt_enable_pin: gpio.pin::<PortB, ENABLE>(),
            hwdt_feed_pin: gpio.pin::<PortB, FEED>(),
            can: self.peripherals.can,
            active_high: config.led_active_high,
            system_hz,
        };
        let mut order: Vec<Stage> = vec![Stage::HoldWatchdog, Stage::Clocks, Stage::Latency];
        if config.mpu {
            order.push(Stage::Mpu);
        }
        order.push(Stage::Leds);
        order.push(Stage::ConsolePins);
        if config.can {
            order.push(Stage::CanPins);
        }
        order.push(Stage::SysTick);
        order.push(Stage::Uart);
        order.push(Stage::ClockReport);
        if config.dma {
            order.push(Stage::Dma);
        }
        if config.can {
            order.push(Stage::Can);
        }
        if config.rtc {
            order.push(Stage::Rtc);
        }
        order.push(Stage::Publish);
        proof {
            reveal_with_fuel(stages_before, 15);
        }
        assert(order@ =~= stages(*config));
        (resources, order)
    }
}

/// What drives the system clock.
#[derive(Clone, Copy, PartialEq, Eq, Debug, Structural)]
pub enum ClockReport {
    /// The clocks could not be set up.
    Failed(ClkError),
    /// Another source than the configured one.
    FellBack,
    /// The configured source.
    AsConfigured,
}

/// What drives the system clock, given how the set-up ended and the source that is in
/// use.
pub fn clock_report(
    error: Option<ClkError>,
    active: Option<ClockSource>,
    configured: ClockSource,
) -> (r: ClockReport)
    ensures
        r == (match error {
            Some(e) => ClockReport::Failed(e),
            None => if active == Some(configured) {
                ClockReport::AsConfigured
            } else {
                ClockReport::FellBack
            },
        }),
{
    match error {
        Some(e) => ClockReport::Failed(e),
        None => match active {
            Some(source) => if source == configured {
                ClockReport::AsConfigured
            } else {
                ClockReport::FellBack
            },
            None => ClockReport::FellBack,
        },
    }
}

/// How the real-time clock is set up, and what it is set to: Saturday, the first of
/// January 2000, midnight.
pub fn rtc_start() -> (r: (rtc::Config, rtc::Date, rtc::Time))
    ensures
        r.0 == (rtc::Config {
            clock_src: rtc::ClockSource::Lrc,
            hour_format: rtc::HourFormat::H24,
            int_period: rtc::IntPeriod::Sec,
        }),
        r.1 == (rtc::Date { year: 0, month: 1, day: 1, weekday: 6 }),
        r.2 == (rtc::Time { hour: 0, minute: 0, second: 0, pm: false }),
{
    (
        rtc::Config {
            clock_src: rtc::ClockSource::Lrc,
            hour_format: rtc::HourFormat::H24,
            int_period: rtc::IntPeriod::Sec,
        },
        rtc::Date { year: 0, month: 1, day: 1, weekday: 6 },
        rtc::Time { hour: 0, minute: 0, second: 0, pm: false },
    )
}

// ---------------------------------------------------------------------------
// Use
// ---------------------------------------------------------------------------

/// All pins are pins of port B.
pub open spec fn pins_exist(work: u8, success: u8, fault: u8, enable: u8, feed: u8) -> bool {
    work < 16 && success < 16 && fault < 16 && enable < 16 && feed < 16
}

/// Why the watchdog cannot be started.
#[derive(Clone, Copy, PartialEq, Eq, Debug, Structural)]
pub enum WatchdogError {
    /// The scheduler is running already.
    TooLate,
    /// The watchdog has no clock or an unusable configuration.
    NotRunning,
    /// It would not be fed four times within its time.
    FedTooSeldom,
}

impl<
    const WORK: u8,
    const SUCCESS: u8,
    const FAULT: u8,
    const ENABLE: u8,
    const FEED: u8,
> BoardResources<WORK, SUCCESS, FAULT, ENABLE, FEED> {
    /// A light is on when its pin is high.
    pub closed spec fn lit_by_high(self) -> bool {
        self.active_high
    }

    /// The frequency of the system clock.
    pub closed spec fn clock(self) -> u32 {
        self.system_hz
    }

    /// The CAN controller.
    pub closed spec fn controller(self) -> Can {
        self.can
    }

    /// The number of the pin of a light.
    pub open spec fn pin_of(led: Led) -> u8 {
        match led {
            Led::Work => WORK,
            Led::Success => SUCCESS,
            Led::Error => FAULT,
        }
    }

    /// The board, which must have been started.
    pub fn get(published: &Option<Self>) -> (r: &Self)
        requires
            published is Some,
        ensures
            *r == published->0,
    {
        published.as_ref().unwrap()
    }

    /// Set up the pins of the external watchdog: it is off, and the feeding pin low.
    pub fn hwdt_pins(&self) -> (r: Vec<Step<()>>)
        requires
            pins_exist(WORK, SUCCESS, FAULT, ENABLE, FEED),
        ensures
            r@ == output_steps(ENABLE, Level::High) + output_steps(FEED, Level::Low),
    {
        let mut out: Vec<Step<()>> = output(&self.hwdt_enable_pin, Level::High);
        let mut feed: Vec<Step<()>> = output(&self.hwdt_feed_pin, Level::Low);
        out.append(&mut feed);
        out
    }

    /// Set up the pins of the lights, all dark.
    pub fn led_pins(&self) -> (r: Vec<Step<()>>)
        requires
            pins_exist(WORK, SUCCESS, FAULT, ENABLE, FEED),
        ensures
            ({
                let dark = led_level(false, self.lit_by_high());
                r@ == output_steps(WORK, dark) + output_steps(SUCCESS, dark) + output_steps(
                    FAULT,
                    dark,
                )
            }),
    {
        let dark: Level = led_off_level(self.active_high);
        let mut out: Vec<Step<()>> = output(&self.led_work, dark);
        let mut success: Vec<Step<()>> = output(&self.led_success, dark);
        let mut error: Vec<Step<()>> = output(&self.led_error, dark);
        out.append(&mut success);
        out.append(&mut error);
        out
    }

    /// Switch a light.
    pub fn set_led(&self, led: Led, on: bool) -> (r: Vec<Step<()>>)
        requires
            pins_exist(WORK, SUCCESS, FAULT, ENABLE, FEED),
        ensures
            r@ == level_steps(Self::pin_of(led), led_level(on, self.lit_by_high())),
    {
        match led {
            Led::Work => set_led_pin(&self.led_work, on, self.active_high),
            Led::Success => set_led_pin(&self.led_success, on, self.active_high),
            Led::Error => set_led_pin(&self.led_error, on, self.active_high),
        }
    }

    /// Switch a light from on to off or back.
    pub fn toggle_led(&self, led: Led) -> (r: Vec<Step<()>>)
        requires
            pins_exist(WORK, SUCCESS, FAULT, ENABLE, FEED),
        ensures
            r@ == toggle_steps(Self::pin_of(led)),
    {
        match led {
            Led::Work => invert(&self.led_work),
            Led::Success => invert(&self.led_success),
            Led::Error => invert(&self.led_error),
        }
    }

    /// Whether a light is on, given the levels that port B drives.
    pub fn led_is_on(&self, led: Led, outputs: u16) -> (r: bool)
        requires
            pins_exist(WORK, SUCCESS, FAULT, ENABLE, FEED),
        ensures
            r == ((outputs & gpio::bit_of(Self::pin_of(led)) != 0) == self.lit_by_high()),
    {
        match led {
            Led::Work => led_pin_is_on(&self.led_work, outputs, self.active_high),
            Led::Success => led_pin_is_on(&self.led_success, outputs, self.active_high),
            Led::Error => led_pin_is_on(&self.led_error, outputs, self.active_high),
        }
    }

    /// Show that the firmware has started.
    pub fn indicate_boot_ok(&self) -> (r: Vec<Step<()>>)
        requires
            pins_exist(WORK, SUCCESS, FAULT, ENABLE, FEED),
        ensures
            r@ == level_steps(FAULT, led_level(false, self.lit_by_high())) + level_steps(
                SUCCESS,
                led_level(true, self.lit_by_high()),
            ),
    {
        let mut out: Vec<Step<()>> = self.set_led(Led::Error, false);
        let mut on: Vec<Step<()>> = self.set_led(Led::Success, true);
        out.append(&mut on);
        out
    }

    /// Show that something has failed.
    pub fn indicate_fault(&self) -> (r: Vec<Step<()>>)
        requires
            pins_exist(WORK, SUCCESS, FAULT, ENABLE, FEED),
        ensures
            r@ == level_steps(SUCCESS, led_level(false, self.lit_by_high())) + level_steps(
                FAULT,
                led_level(true, self.lit_by_high()),
            ),
    {
        let mut out: Vec<Step<()>> = self.set_led(Led::Success, false);
        let mut on: Vec<Step<()>> = self.set_led(Led::Error, true);
        out.append(&mut on);
        out
    }

    /// Feed the external watchdog.
    pub fn hwdt_feed(&self) -> (r: Vec<Step<()>>)
        requires
            pins_exist(WORK, SUCCESS, FAULT, ENABLE, FEED),
        ensures
            r@ == toggle_steps(FEED),
    {
        invert(&self.hwdt_feed_pin)
    }

    /// Switch the external watchdog.
    pub fn set_hwdt_enabled(&self, enable: bool) -> (r: Vec<Step<()>>)
        requires
            pins_exist(WORK, SUCCESS, FAULT, ENABLE, FEED),
        ensures
            r@ == level_steps(
                ENABLE,
                if enable {
                    Level::Low
                } else {
                    Level::High
                },
            ),
    {
        drive(
            &self.hwdt_enable_pin,
            if enable {
                Level::Low
            } else {
                Level::High
            },
        )
    }

    /// Whether the external watchdog is on, given the levels that port B drives.
    pub fn hwdt_enabled(&self, outputs: u16) -> (r: bool)
        requires
            pins_exist(WORK, SUCCESS, FAULT, ENABLE, FEED),
        ensures
            r == (outputs & gpio::bit_of(ENABLE) == 0),
    {
        self.hwdt_enable_pin.is_low(outputs)
    }

    /// Start the external watchdog, if it is to be used; the thread that feeds it
    /// exists by then, and the scheduler does not run yet.
    pub fn start_hardware_watchdog(&self, enable: bool, scheduler_started: bool) -> (r: Option<
        Vec<Step<()>>,
    >)
        requires
            pins_exist(WORK, SUCCESS, FAULT, ENABLE, FEED),
            enable ==> !scheduler_started,
        ensures
            match r {
                Some(steps) => enable && steps@ == level_steps(ENABLE, Level::Low) + toggle_steps(
                    FEED,
                ),
                None => !enable,
            },
    {
        if !enable {
            return None;
        }
        let mut out: Vec<Step<()>> = self.set_hwdt_enabled(true);
        let mut feed: Vec<Step<()>> = self.hwdt_feed();
        out.append(&mut feed);
        Some(out)
    }

    /// The frequency of the system clock.
    pub fn system_clock_hz(&self) -> (r: u32)
        ensures
            r == self.clock(),
    {
        self.system_hz
    }

    /// The CAN controller.
    pub fn can(&self) -> (r: &Can)
        ensures
            *r == self.controller(),
    {
        &self.can
    }

    /// The line and the priority of the interrupt that the console receives over.
    pub fn enable_console_rx_interrupt(&self, channel: u8, priority: u8) -> (r: (Line, u8))
        requires
            channel < 144,
        ensures
            r.0.number() == channel,
            r.1 == priority,
    {
        (Line::new(channel), priority)
    }

    /// The same resources, once the clocks are set up and the system clock has `system_hz`.
    pub fn with_clock(self, system_hz: u32) -> (r: Self)
        ensures
            r.clock() == system_hz,
            r.lit_by_high() == self.lit_by_high(),
            r.controller() == self.controller(),
    {
        BoardResources { system_hz, ..self }
    }

    /// Start the watchdog, if it is to be used: the time in milliseconds after which
    /// it resets. `timeout_us` is that time in microseconds, if the watchdog has one.
    pub fn start_watchdog(
        &self,
        enable: bool,
        scheduler_started: bool,
        timeout_us: Option<u64>,
        feed_ms: u32,
    ) -> (r: Result<Option<u64>, WatchdogError>)
        ensures
            match r {
                Ok(None) => !enable,
                Ok(Some(ms)) => {
                    &&& enable
                    &&& !scheduler_started
                    &&& timeout_us matches Some(us) && us >= 4000 * feed_ms && ms == us / 1000
                },
                Err(WatchdogError::TooLate) => enable && scheduler_started,
                Err(WatchdogError::NotRunning) => enable && !scheduler_started && timeout_us is None,
                Err(WatchdogError::FedTooSeldom) => enable && !scheduler_started && (
                timeout_us matches Some(us) && us < 4000 * feed_ms),
            },
    {
        if !enable {
            return Ok(None);
        }
        if scheduler_started {
            return Err(WatchdogError::TooLate);
        }
        match timeout_us {
            None => Err(WatchdogError::NotRunning),
            Some(us) => {
                let feed_us: u64 = feed_ms as u64 * 1_000;
                if feed_us * 4 <= us {
                    Ok(Some(us / 1_000))
                } else {
                    Err(WatchdogError::FedTooSeldom)
                }
            },
        }
    }

    /// Take the CAN controller away from whoever uses it; `previous` is the mode in
    /// which it works, if it is set up.
    pub fn can_takeover(&self, previous: Option<WorkMode>) -> (r: Option<Vec<Step<CanError>>>)
        ensures
            r is Some <==> previous is Some,
            r matches Some(steps) ==> steps@ == self.controller().deinit_steps(),
    {
        if previous.is_some() {
            Some(self.can.deinit())
        } else {
            None
        }
    }

    /// Give the CAN controller back: it is shut down, and set up as before if it was
    /// set up at all.
    pub fn can_release(&self, previous: Option<WorkMode>, base: &can::Config, self_ack: bool) -> (r: (
        Vec<Step<CanError>>,
        Option<can::Config>,
    ))
        ensures
            r.0@ == self.controller().deinit_steps(),
            r.1 is Some <==> previous is Some,
            r.1 matches Some(config) ==> in_mode(config, *base, previous->0, self_ack),
    {
        let shut: Vec<Step<CanError>> = self.can.deinit();
        match previous {
            Some(mode) => (shut, Some(can_config_for_mode(base, mode, self_ack))),
            None => (shut, None),
        }
    }
}

/// `config` is `base` in another mode; frames are acknowledged to oneself only with
/// external loopback.
pub open spec fn in_mode(config: can::Config, base: can::Config, mode: WorkMode, self_ack: bool) -> bool {
    &&& config.mode == mode
    &&& config.self_ack == (self_ack && (mode == WorkMode::ExternalLoopback || mode
        == WorkMode::ExternalLoopbackSilent))
    &&& config.bitrate == base.bitrate
    &&& config.sample_point_permille == base.sample_point_permille
    &&& config.sjw == base.sjw
    &&& config.max_bitrate_error_ppm == base.max_bitrate_error_ppm
    &&& config.filters@ == base.filters@
    &&& config.ptb_single_shot == base.ptb_single_shot
    &&& config.stb_single_shot == base.stb_single_shot
    &&& config.stb_priority == base.stb_priority
    &&& config.rx_warn_limit == base.rx_warn_limit
    &&& config.error_warn_limit == base.error_warn_limit
    &&& config.rx_all_frames == base.rx_all_frames
    &&& config.rx_overflow == base.rx_overflow
    &&& config.interrupts == base.interrupts
}

/// The configuration of the CAN controller for a mode.
pub fn can_config_for_mode(base: &can::Config, mode: WorkMode, self_ack: bool) -> (r: can::Config)
    ensures
        in_mode(r, *base, mode, self_ack),
{
    let mut filters: Vec<can::Filter> = Vec::new();
    let mut i: usize = 0;
    while i < base.filters.len()
        invariant
            i <= base.filters@.len(),
            filters@ == base.filters@.take(i as int),
        decreases base.filters@.len() - i,
    {
        filters.push(base.filters[i]);
        i += 1;
    }
    assert(filters@ =~= base.filters@);
    can::Config {
        mode,
        bitrate: base.bitrate,
        sample_point_permille: base.sample_point_permille,
        sjw: base.sjw,
        max_bitrate_error_ppm: base.max_bitrate_error_ppm,
        filters,
        ptb_single_shot: base.ptb_single_shot,
        stb_single_shot: base.stb_single_shot,
        stb_priority: base.stb_priority,
        rx_warn_limit: base.rx_warn_limit,
        error_warn_limit: base.error_warn_limit,
        rx_all_frames: base.rx_all_frames,
        rx_overflow: base.rx_overflow,
        self_ack: self_ack && match mode {
            WorkMode::ExternalLoopback => true,
            WorkMode::ExternalLoopbackSilent => true,
            _ => false,
        },
        interrupts: base.interrupts,
    }
}

/// Whether a test is to be stopped: what was received holds an escape.
pub fn abort_requested(received: &[u8]) -> (r: bool)
    ensures
        r == received@.contains(0x1bu8),
{
    let mut i: usize = 0;
    while i < received.len()
        invariant
            i <= received@.len(),
            forall|j: int| 0 <= j < i ==> #[trigger] received@[j] != 0x1b,
        decreases received@.len() - i,
    {
        if received[i] == 0x1b {
            return true;
        }
        i += 1;
    }
    false
}

/// How regularly the watchdog is fed.
pub struct FeedGap {
    last: u32,
    max: u32,
}

impl FeedGap {
    /// When the watchdog was fed last, in milliseconds.
    pub closed spec fn fed_at(self) -> u32 {
        self.last
    }

    /// The longest time between two feedings.
    pub closed spec fn longest(self) -> u32 {
        self.max
    }

    /// The watchdog is fed for the first time.
    pub fn new(now: u32) -> (r: Self)
        ensures
            r.fed_at() == now,
            r.longest() == 0,
    {
        FeedGap { last: now, max: 0 }
    }

    /// The watchdog is fed again, after at least `interval_ms`.
    pub fn record(&mut self, now: u32, interval_ms: u32)
        ensures
            final(self).fed_at() == now,
            ({
                let gap = now.wrapping_sub(old(self).fed_at());
                let counted = if gap > interval_ms {
                    gap
                } else {
                    interval_ms
                };
                final(self).longest() == (if counted > old(self).longest() {
                    counted
                } else {
                    old(self).longest()
                })
            }),
    {
        let gap: u32 = now.wrapping_sub(self.last);
        self.last = now;
        let counted: u32 = if gap > interval_ms {
            gap
        } else {
            interval_ms
        };
        if counted > self.max {
            self.max = counted;
        }
    }
}

/// The longest time between two feedings of the watchdog, in milliseconds.
pub fn wdt_feed_max_gap_ms(gap: &FeedGap) -> (r: u32)
    ensures
        r == gap.longest(),
{
    gap.max
}

/// A light that is switched on is on, whichever level that takes, and the other way
/// round.
pub proof fn law_lights_follow_their_switch(outputs: u16, n: u8, on: bool, active_high: bool)
    requires
        n < 16,
    ensures
        ({
            let after = match led_level(on, active_high) {
                Level::High => outputs | gpio::bit_of(n),
                Level::Low => outputs & !gpio::bit_of(n),
            };
            ((after & gpio::bit_of(n) != 0) == active_high) == on
        }),
{
    gpio::lemma_pin_bits(outputs, n, 0);
}

/// The outputs of port B when steps have been carried out.
pub open spec fn port_b_after(steps: Seq<Step<()>>, outputs: u16) -> u16 {
    gpio::outputs_after(steps, steps.len() as int, 0x010, outputs)
}

/// What steps for a pin of port B come to.
proof fn lemma_port_b(n: u8, a: u8, outputs: u16)
    requires
        n < 16,
        a < 16,
    ensures
        port_b_after(level_steps(n, Level::High), outputs) == outputs | gpio::bit_of(n),
        port_b_after(level_steps(n, Level::Low), outputs) == outputs & !gpio::bit_of(n),
        port_b_after(toggle_steps(n), outputs) == outputs ^ gpio::bit_of(n),
{
    gpio::lemma_pin_bits(outputs, n, a);
    reveal_with_fuel(gpio::outputs_after, 6);
}

/// The steps of two programs work one after the other.
proof fn lemma_port_b_add(first: Seq<Step<()>>, second: Seq<Step<()>>, n: int, outputs: u16)
    requires
        0 <= n <= second.len(),
    ensures
        gpio::outputs_after(first + second, first.len() + n, 0x010, outputs) == gpio::outputs_after(
            second,
            n,
            0x010,
            port_b_after(first, outputs),
        ),
    decreases n,
{
    if n > 0 {
        lemma_port_b_add(first, second, n - 1, outputs);
    } else {
        lemma_port_b_first(first, second, first.len() as int, outputs);
    }
}

proof fn lemma_port_b_first(first: Seq<Step<()>>, second: Seq<Step<()>>, n: int, outputs: u16)
    requires
        n <= first.len(),
    ensures
        gpio::outputs_after(first + second, n, 0x010, outputs) == gpio::outputs_after(
            first,
            n,
            0x010,
            outputs,
        ),
    decreases n,
{
    if n > 0 {
        lemma_port_b_first(first, second, n - 1, outputs);
    }
}

/// A light that was switched shows as it was switched, one that was toggled shows the
/// opposite, and the other lights stay as they are.
pub proof fn law_lights_show_what_was_switched<
    const WORK: u8,
    const SUCCESS: u8,
    const FAULT: u8,
    const ENABLE: u8,
    const FEED: u8,
>(
    board: BoardResources<WORK, SUCCESS, FAULT, ENABLE, FEED>,
    led: Led,
    other: Led,
    on: bool,
    set: Vec<Step<()>>,
    toggled: Vec<Step<()>>,
    outputs: u16,
    was: bool,
    is: bool,
    is_toggled: bool,
    other_was: bool,
    other_is: bool,
)
    requires
        pins_exist(WORK, SUCCESS, FAULT, ENABLE, FEED),
        WORK != SUCCESS && WORK != FAULT && SUCCESS != FAULT,
        other != led,
        call_ensures(
            BoardResources::<WORK, SUCCESS, FAULT, ENABLE, FEED>::set_led,
            (&board, led, on),
            set,
        ),
        call_ensures(
            BoardResources::<WORK, SUCCESS, FAULT, ENABLE, FEED>::toggle_led,
            (&board, led),
            toggled,
        ),
        call_ensures(
            BoardResources::<WORK, SUCCESS, FAULT, ENABLE, FEED>::led_is_on,
            (&board, led, outputs),
            was,
        ),
        call_ensures(
            BoardResources::<WORK, SUCCESS, FAULT, ENABLE, FEED>::led_is_on,
            (&board, led, port_b_after(set@, outputs)),
            is,
        ),
        call_ensures(
            BoardResources::<WORK, SUCCESS, FAULT, ENABLE, FEED>::led_is_on,
            (&board, led, port_b_after(toggled@, outputs)),
            is_toggled,
        ),
        call_ensures(
            BoardResources::<WORK, SUCCESS, FAULT, ENABLE, FEED>::led_is_on,
            (&board, other, outputs),
            other_was,
        ),
        call_ensures(
            BoardResources::<WORK, SUCCESS, FAULT, ENABLE, FEED>::led_is_on,
            (&board, other, port_b_after(set@, outputs)),
            other_is,
        ),
    ensures
        is == on,
        is_toggled == !was,
        other_is == other_was,
{
    let n = BoardResources::<WORK, SUCCESS, FAULT, ENABLE, FEED>::pin_of(led);
    let a = BoardResources::<WORK, SUCCESS, FAULT, ENABLE, FEED>::pin_of(other);
    lemma_port_b(n, a, outputs);
    gpio::lemma_pin_bits(outputs, n, a);
}

/// After a good start the light of success is on and that of an error off; after a fault
/// it is the other way round.
pub proof fn law_outcomes_are_shown<
    const WORK: u8,
    const SUCCESS: u8,
    const FAULT: u8,
    const ENABLE: u8,
    const FEED: u8,
>(
    board: BoardResources<WORK, SUCCESS, FAULT, ENABLE, FEED>,
    good: Vec<Step<()>>,
    bad: Vec<Step<()>>,
    outputs: u16,
    success: bool,
    error: bool,
    fault_success: bool,
    fault_error: bool,
)
    requires
        pins_exist(WORK, SUCCESS, FAULT, ENABLE, FEED),
        SUCCESS != FAULT,
        call_ensures(
            BoardResources::<WORK, SUCCESS, FAULT, ENABLE, FEED>::indicate_boot_ok,
            (&board,),
            good,
        ),
        call_ensures(
            BoardResources::<WORK, SUCCESS, FAULT, ENABLE, FEED>::indicate_fault,
            (&board,),
            bad,
        ),
        call_ensures(
            BoardResources::<WORK, SUCCESS, FAULT, ENABLE, FEED>::led_is_on,
            (&board, Led::Success, port_b_after(good@, outputs)),
            success,
        ),
        call_ensures(
            BoardResources::<WORK, SUCCESS, FAULT, ENABLE, FEED>::led_is_on,
            (&board, Led::Error, port_b_after(good@, outputs)),
            error,
        ),
        call_ensures(
            BoardResources::<WORK, SUCCESS, FAULT, ENABLE, FEED>::led_is_on,
            (&board, Led::Success, port_b_after(bad@, outputs)),
            fault_success,
        ),
        call_ensures(
            BoardResources::<WORK, SUCCESS, FAULT, ENABLE, FEED>::led_is_on,
            (&board, Led::Error, port_b_after(bad@, outputs)),
            fault_error,
        ),
    ensures
        success && !error,
        fault_error && !fault_success,
{
    let high = board.lit_by_high();
    lemma_two_lights(FAULT, SUCCESS, high, outputs);
    lemma_two_lights(SUCCESS, FAULT, high, outputs);
}

/// One light is switched off and then another one on.
proof fn lemma_two_lights(off: u8, on: u8, high: bool, outputs: u16)
    requires
        off < 16,
        on < 16,
        off != on,
    ensures
        ({
            let steps = level_steps(off, led_level(false, high)) + level_steps(
                on,
                led_level(true, high),
            );
            let after = port_b_after(steps, outputs);
            &&& (after & gpio::bit_of(on) != 0) == high
            &&& (after & gpio::bit_of(off) != 0) == !high
        }),
{
    let first = level_steps(off, led_level(false, high));
    let second = level_steps(on, led_level(true, high));
    lemma_port_b_add(first, second, second.len() as int, outputs);
    lemma_port_b(off, on, outputs);
    gpio::lemma_pin_bits(outputs, off, on);
    let middle = port_b_after(first, outputs);
    lemma_port_b(on, off, middle);
    gpio::lemma_pin_bits(middle, on, off);
}

/// The external watchdog shows as it was switched; when it is started it is on, and the
/// level of the pin that feeds it has changed.
pub proof fn law_external_watchdog_follows<
    const WORK: u8,
    const SUCCESS: u8,
    const FAULT: u8,
    const ENABLE: u8,
    const FEED: u8,
>(
    board: BoardResources<WORK, SUCCESS, FAULT, ENABLE, FEED>,
    on: bool,
    switched: Vec<Step<()>>,
    shown: bool,
    started: Vec<Step<()>>,
    running: bool,
    outputs: u16,
)
    requires
        pins_exist(WORK, SUCCESS, FAULT, ENABLE, FEED),
        ENABLE != FEED,
        call_ensures(
            BoardResources::<WORK, SUCCESS, FAULT, ENABLE, FEED>::set_hwdt_enabled,
            (&board, on),
            switched,
        ),
        call_ensures(
            BoardResources::<WORK, SUCCESS, FAULT, ENABLE, FEED>::hwdt_enabled,
            (&board, port_b_after(switched@, outputs)),
            shown,
        ),
        call_ensures(
            BoardResources::<WORK, SUCCESS, FAULT, ENABLE, FEED>::start_hardware_watchdog,
            (&board, true, false),
            Some(started),
        ),
        call_ensures(
            BoardResources::<WORK, SUCCESS, FAULT, ENABLE, FEED>::hwdt_enabled,
            (&board, port_b_after(started@, outputs)),
            running,
        ),
    ensures
        shown == on,
        running,
        port_b_after(started@, outputs) & gpio::bit_of(FEED) != 0 <==> outputs & gpio::bit_of(FEED)
            == 0,
{
    lemma_port_b(ENABLE, FEED, outputs);
    gpio::lemma_pin_bits(outputs, ENABLE, FEED);
    let first = level_steps(ENABLE, Level::Low);
    let second = toggle_steps(FEED);
    lemma_port_b_add(first, second, second.len() as int, outputs);
    let middle = port_b_after(first, outputs);
    lemma_port_b(FEED, ENABLE, middle);
    gpio::lemma_pin_bits(middle, FEED, ENABLE);
}

/// The start, part by part: what is configured is in its place between what is always
/// there.
pub proof fn law_the_start_part_by_part(config: BoardConfig)
    ensures
        stages(config) == seq![Stage::HoldWatchdog, Stage::Clocks, Stage::Latency] + (
        if config.mpu {
            seq![Stage::Mpu]
        } else {
            Seq::empty()
        }) + seq![Stage::Leds, Stage::ConsolePins] + (if config.can {
            seq![Stage::CanPins]
        } else {
            Seq::empty()
        }) + seq![Stage::SysTick, Stage::Uart, Stage::ClockReport] + (if config.dma {
            seq![Stage::Dma]
        } else {
            Seq::empty()
        }) + (if config.can {
            seq![Stage::Can]
        } else {
            Seq::empty()
        }) + (if config.rtc {
            seq![Stage::Rtc]
        } else {
            Seq::empty()
        }) + seq![Stage::Publish],
{
    reveal_with_fuel(stages_before, 15);
}

/// Changing the mode changes nothing else: another mode in between leaves no trace, and
/// every other setting is the one it was. Frames are acknowledged to oneself only if that
/// is wanted and they come back over the bus.
pub proof fn law_modes_are_changed_alone(
    base: can::Config,
    other: WorkMode,
    other_ack: bool,
    between: can::Config,
    mode: WorkMode,
    self_ack: bool,
    r: can::Config,
)
    requires
        call_ensures(can_config_for_mode, (&base, other, other_ack), between),
        call_ensures(can_config_for_mode, (&between, mode, self_ack), r),
    ensures
        r.mode == mode,
        r.self_ack ==> self_ack && (mode is ExternalLoopback || mode is ExternalLoopbackSilent),
        self_ack && (mode is ExternalLoopback || mode is ExternalLoopbackSilent) ==> r.self_ack,
        r.bitrate == base.bitrate && r.sample_point_permille == base.sample_point_permille && r.sjw
            == base.sjw && r.max_bitrate_error_ppm == base.max_bitrate_error_ppm,
        r.filters@ == base.filters@,
        r.ptb_single_shot == base.ptb_single_shot && r.stb_single_shot == base.stb_single_shot
            && r.stb_priority == base.stb_priority,
        r.rx_warn_limit == base.rx_warn_limit && r.error_warn_limit == base.error_warn_limit,
        r.rx_all_frames == base.rx_all_frames && r.rx_overflow == base.rx_overflow,
        r.interrupts == base.interrupts,
{
}

/// What was configured is in use exactly if the clocks were set up and no other source
/// drives them; a failure is reported as it came.
pub proof fn law_clock_reports_are_faithful(
    error: Option<ClkError>,
    active: Option<ClockSource>,
    configured: ClockSource,
    r: ClockReport,
)
    requires
        call_ensures(clock_report, (error, active, configured), r),
    ensures
        r is AsConfigured <==> error is None && active is Some && active->0 == configured,
        r is FellBack <==> error is None && (active is None || active->0 != configured),
        r is Failed <==> error is Some,
        r matches ClockReport::Failed(e) ==> error == Some(e),
{
}

} // verus!
