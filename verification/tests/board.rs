//! The board, its lights and its watchdogs.

use hc32_firmware::board::{
    abort_requested, can_config_for_mode, clock_report, indicate_fault_early, rtc_start,
    wdt_feed_max_gap_ms, Board, BoardConfig, BoardResources, ClockReport, FeedGap, Led, Stage,
    WatchdogError,
};
use hc32_firmware::can::{self, WorkMode};
use hc32_firmware::clk::{ClkError, ClockSource};
use hc32_firmware::gpio::{Level, Pin, PortB};
use hc32_firmware::mmio::Step;
use hc32_firmware::peripherals::{Ownership, Peripherals};
use hc32_firmware::rtc;

type Resources = BoardResources<6, 5, 3, 8, 9>;

const ALL: BoardConfig = BoardConfig {
    led_active_high: false,
    mpu: true,
    can: true,
    dma: true,
    rtc: true,
};

fn started(config: &BoardConfig) -> (Resources, Vec<Stage>) {
    let mut ownership = Ownership::new();
    let board: Board<1, 0, 2, 0> = Board::take(&mut ownership).unwrap();
    assert!(board.is_complete());
    board.init::<6, 5, 3, 8, 9>(config, 200_000_000)
}

fn level<const N: u8>(level: Level) -> Vec<Step<()>> {
    let pin: Pin<PortB, N> = Pin::new();
    pin.set_level(level)
}

fn toggled<const N: u8>() -> Vec<Step<()>> {
    let pin: Pin<PortB, N> = Pin::new();
    pin.toggle()
}

fn both(first: Vec<Step<()>>, second: Vec<Step<()>>) -> Vec<Step<()>> {
    let mut out = first;
    out.extend(second);
    out
}

#[test]
fn peripherals_are_handed_out_once() {
    let mut ownership = Ownership::new();
    let first = Peripherals::<1, 0, 2, 0>::take(&mut ownership).unwrap();
    assert!(first.dma_tx.is_some() && first.dma_copy.is_some());
    assert!(!first.can.irq_registered());
    assert!(Peripherals::<1, 0, 2, 0>::take(&mut ownership).is_none());
    let mut same = Ownership::new();
    let shared = Peripherals::<1, 0, 1, 0>::take(&mut same).unwrap();
    assert!(shared.dma_tx.is_some() && shared.dma_copy.is_none());
    let mut again = Ownership::new();
    assert!(Board::<1, 0, 2, 0>::take(&mut again).is_some());
    assert!(Board::<1, 0, 2, 0>::take(&mut again).is_none());
}

#[test]
fn the_start_has_an_order() {
    let (_, all) = started(&ALL);
    assert_eq!(
        all,
        vec![
            Stage::HoldWatchdog,
            Stage::Clocks,
            Stage::Latency,
            Stage::Mpu,
            Stage::Leds,
            Stage::ConsolePins,
            Stage::CanPins,
            Stage::SysTick,
            Stage::Uart,
            Stage::ClockReport,
            Stage::Dma,
            Stage::Can,
            Stage::Rtc,
            Stage::Publish
        ]
    );
    let least = BoardConfig {
        led_active_high: true,
        mpu: false,
        can: false,
        dma: false,
        rtc: false,
    };
    let (_, few) = started(&least);
    assert_eq!(few.len(), 9);
    assert!(!few.contains(&Stage::Can) && !few.contains(&Stage::CanPins));
}

#[test]
fn lights_follow_their_switch() {
    let (board, _) = started(&ALL);
    assert_eq!(board.set_led(Led::Work, true), level::<6>(Level::Low));
    assert_eq!(board.set_led(Led::Success, false), level::<5>(Level::High));
    assert_eq!(board.toggle_led(Led::Error), toggled::<3>());
    assert!(board.led_is_on(Led::Work, 0xffbf));
    assert!(!board.led_is_on(Led::Work, 0x0040));
    assert_eq!(
        board.indicate_boot_ok(),
        both(level::<3>(Level::High), level::<5>(Level::Low))
    );
    assert_eq!(
        board.indicate_fault(),
        both(level::<5>(Level::High), level::<3>(Level::Low))
    );
    let high = BoardConfig {
        led_active_high: true,
        ..ALL
    };
    let (board, _) = started(&high);
    assert_eq!(board.set_led(Led::Work, true), level::<6>(Level::High));
    assert!(board.led_is_on(Led::Error, 0x0008));
    assert_eq!(board.led_pins().len(), 3 * 7);
    let names: Vec<&str> = [Led::Work, Led::Success, Led::Error].iter().map(|l| l.name()).collect();
    assert_eq!(names, vec!["work", "success", "error"]);
}

#[test]
fn faults_can_be_shown_before_the_start() {
    let steps = indicate_fault_early::<3>(false);
    assert_eq!(steps.len(), 7 + 5);
    assert_eq!(steps[7..], level::<3>(Level::Low)[..]);
}

#[test]
fn the_external_watchdog_is_held_and_started() {
    let (board, _) = started(&ALL);
    assert_eq!(board.hwdt_pins().len(), 14);
    assert_eq!(board.hwdt_feed(), toggled::<9>());
    assert_eq!(board.set_hwdt_enabled(false), level::<8>(Level::High));
    assert!(board.hwdt_enabled(0xfeff) && !board.hwdt_enabled(0x0100));
    assert_eq!(board.start_hardware_watchdog(false, true), None);
    assert_eq!(
        board.start_hardware_watchdog(true, false),
        Some(both(level::<8>(Level::Low), toggled::<9>()))
    );
}

#[test]
fn the_watchdog_is_fed_four_times_within_its_time() {
    let (board, _) = started(&ALL);
    assert_eq!(board.start_watchdog(false, true, None, 1), Ok(None));
    assert_eq!(
        board.start_watchdog(true, true, Some(1), 1),
        Err(WatchdogError::TooLate)
    );
    assert_eq!(
        board.start_watchdog(true, false, None, 1),
        Err(WatchdogError::NotRunning)
    );
    assert_eq!(board.start_watchdog(true, false, Some(4_000_000), 1000), Ok(Some(4000)));
    assert_eq!(
        board.start_watchdog(true, false, Some(3_999_999), 1000),
        Err(WatchdogError::FedTooSeldom)
    );
}

#[test]
fn feeding_gaps_are_measured() {
    let mut gap = FeedGap::new(0xffff_fff0);
    gap.record(4, 10);
    assert_eq!(wdt_feed_max_gap_ms(&gap), 20);
    gap.record(5, 10);
    assert_eq!(wdt_feed_max_gap_ms(&gap), 20);
    let mut early = FeedGap::new(0);
    early.record(3, 10);
    assert_eq!(wdt_feed_max_gap_ms(&early), 10);
}

#[test]
fn clocks_are_reported() {
    let xtal = ClockSource::Xtal;
    assert_eq!(
        clock_report(Some(ClkError::XtalStableTimeout), None, xtal),
        ClockReport::Failed(ClkError::XtalStableTimeout)
    );
    assert_eq!(clock_report(None, Some(xtal), xtal), ClockReport::AsConfigured);
    assert_eq!(clock_report(None, Some(ClockSource::Hrc), xtal), ClockReport::FellBack);
    assert_eq!(clock_report(None, None, xtal), ClockReport::FellBack);
    let (cfg, date, time) = rtc_start();
    assert_eq!(cfg.int_period, rtc::IntPeriod::Sec);
    assert_eq!((date.year, date.month, date.day, date.weekday), (0, 1, 1, 6));
    assert_eq!((time.hour, time.minute, time.second), (0, 0, 0));
}

#[test]
fn the_can_controller_is_lent() {
    let (board, _) = started(&ALL);
    assert_eq!(board.can_takeover(None), None);
    assert_eq!(board.can_takeover(Some(WorkMode::Normal)), Some(board.can().deinit()));
    let base = can::Config::default();
    let (shut, back) = board.can_release(None, &base, true);
    assert_eq!(shut, board.can().deinit());
    assert!(back.is_none());
    let (_, back) = board.can_release(Some(WorkMode::ExternalLoopback), &base, true);
    let back = back.unwrap();
    assert_eq!(back.mode, WorkMode::ExternalLoopback);
    assert!(back.self_ack);
    assert_eq!(back.filters, base.filters);
    assert!(!can_config_for_mode(&base, WorkMode::Normal, true).self_ack);
}

#[test]
fn the_board_is_there_once_it_is_published() {
    let (board, _) = started(&ALL);
    let published = Some(board);
    let board = Resources::get(&published);
    assert_eq!(board.system_clock_hz(), 200_000_000);
    let (slower, _) = started(&ALL);
    assert_eq!(slower.with_clock(8_000_000).system_clock_hz(), 8_000_000);
    let (line, priority) = board.enable_console_rx_interrupt(2, 6);
    assert_eq!((line.n(), priority), (2, 6));
    assert!(abort_requested(&[1, 0x1b]));
    assert!(!abort_requested(&[1, 0x1a]));
}
