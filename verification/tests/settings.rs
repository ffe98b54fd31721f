//! Settings and the rules that they obey.

use hc32_firmware::can::{FilterType, RxOverflowMode, StbPriority, WorkMode};
use hc32_firmware::clk::{ClockSource, Dividers, PllConfig};
use hc32_firmware::gpio::Level;
use hc32_firmware::panic::PanicStrategy;
use hc32_firmware::settings::{
    bus_ok, can_clock_ok, can_mode, channels_ok, clock_source, clocks_ok, configured_system_hz,
    crystal_drive, editor_ok, filter_type, line_ok, log_sizes_ok, panic_strategy, pin_level,
    rx_overflow, shell_ok, soak_ok, stack_guard_ok, stb_priority, threads_ok, transfer_ok, Bus,
    Channels, Clocks, SerialLine, Thread, Threads,
};

const CLOCKS: Clocks = Clocks {
    source: ClockSource::Pll,
    xtal_hz: 12_000_000,
    xtal_stable_time: 5,
    hrc_mhz: 16,
    pll: PllConfig {
        src: 0,
        m: 2,
        n: 99,
        p: 1,
        q: 1,
        r: 1,
    },
    dividers: Dividers {
        hclk: 1,
        pclk0: 1,
        pclk1: 2,
        pclk2: 4,
        pclk3: 4,
        pclk4: 2,
        exclk: 2,
    },
};

#[test]
fn values_have_names() {
    assert_eq!(clock_source("pll"), Some(ClockSource::Pll));
    assert_eq!(clock_source("mrc"), Some(ClockSource::Mrc));
    assert_eq!(clock_source("PLL"), None);
    assert_eq!(crystal_drive("ulow"), Some(3));
    assert_eq!(crystal_drive("high"), Some(0));
    assert_eq!(crystal_drive(""), None);
    assert_eq!(pin_level("high"), Some(Level::High));
    assert_eq!(pin_level("off"), None);
    assert_eq!(can_mode("external-loopback-silent"), Some(WorkMode::ExternalLoopbackSilent));
    assert_eq!(can_mode("loopback"), None);
    assert_eq!(stb_priority("id"), Some(StbPriority::LowestIdFirst));
    assert_eq!(rx_overflow("discard-newest"), Some(RxOverflowMode::DiscardNewest));
    assert_eq!(filter_type("standard"), Some(FilterType::StandardOnly));
    assert_eq!(filter_type("any"), None);
    assert!(panic_strategy("reset") == Some(PanicStrategy::Reset));
    assert!(panic_strategy("stop").is_none());
}

#[test]
fn clocks_stay_within_their_ranges() {
    assert!(clocks_ok(&CLOCKS));
    assert_eq!(configured_system_hz(&CLOCKS), 200_000_000);
    assert!(can_clock_ok(&CLOCKS, true));
    let slow = Clocks {
        source: ClockSource::Mrc,
        ..CLOCKS
    };
    assert_eq!(configured_system_hz(&slow), 8_000_000);
    assert!(!can_clock_ok(&slow, true));
    assert!(can_clock_ok(&slow, false));
    let with = |change: &dyn Fn(&mut Clocks)| {
        let mut c = CLOCKS;
        change(&mut c);
        clocks_ok(&c)
    };
    assert!(!with(&|c| c.xtal_hz = 3_999_999));
    assert!(!with(&|c| c.xtal_hz = 25_000_001));
    assert!(!with(&|c| c.xtal_stable_time = 0));
    assert!(!with(&|c| c.xtal_stable_time = 10));
    assert!(!with(&|c| c.hrc_mhz = 18));
    assert!(!with(&|c| c.pll.src = 2));
    assert!(!with(&|c| c.pll.n = 200));
    assert!(!with(&|c| c.pll.p = 0));
    assert!(!with(&|c| c.dividers.pclk3 = 3));
    assert!(with(&|c| {
        c.pll.src = 1;
        c.pll.m = 3
    }));
}

#[test]
fn serial_lines_are_checked() {
    let line = SerialLine {
        unit: 3,
        baudrate: 115_200,
        oversample: 8,
        clock_div: 1,
        data_bits: 8,
        stop_bits: 1,
        receive_buffer: 256,
        irq_line: 0,
        irq_priority: 7,
        line_gap_ms: 0,
    };
    assert!(line_ok(&line));
    assert!(!line_ok(&SerialLine { unit: 5, ..line }));
    assert!(!line_ok(&SerialLine { baudrate: 0, ..line }));
    assert!(!line_ok(&SerialLine { clock_div: 2, ..line }));
    assert!(!line_ok(&SerialLine { irq_line: 128, ..line }));
    assert!(!line_ok(&SerialLine {
        receive_buffer: 15,
        ..line
    }));
}

#[test]
fn channels_are_not_shared() {
    let channels = Channels {
        enabled: true,
        tx_unit: 1,
        tx_channel: 0,
        tx_min: 16,
        copy_unit: 1,
        copy_channel: 1,
        copy_min: 64,
    };
    assert!(channels_ok(&channels));
    let same = Channels {
        copy_channel: 0,
        ..channels
    };
    assert!(!channels_ok(&same));
    assert!(channels_ok(&Channels {
        enabled: false,
        ..same
    }));
    assert!(!channels_ok(&Channels {
        tx_unit: 3,
        ..channels
    }));
    assert!(!channels_ok(&Channels {
        copy_min: 15,
        ..channels
    }));
}

#[test]
fn buses_have_a_timing() {
    let bus = Bus {
        tx_pin: 9,
        tx_function: 50,
        rx_pin: 8,
        rx_function: 51,
        bitrate: 500_000,
        sample_point_permille: 750,
        sjw: 2,
        max_error_ppm: 10_000,
        rx_warn_limit: 8,
        error_warn_limit: 11,
        filter_id: 0,
        filter_mask: 0x1fff_ffff,
        filter_type: FilterType::StandardAndExtended,
        timeout_ms: 100,
    };
    assert!(bus_ok(&bus, 12_000_000));
    assert!(!bus_ok(&Bus { rx_pin: 9, ..bus }, 12_000_000));
    assert!(!bus_ok(&Bus { tx_pin: 11, ..bus }, 12_000_000));
    assert!(!bus_ok(&Bus { tx_function: 49, ..bus }, 12_000_000));
    assert!(!bus_ok(&Bus { sjw: 9, ..bus }, 12_000_000));
    assert!(!bus_ok(&Bus { timeout_ms: 0, ..bus }, 12_000_000));
    let exact = Bus {
        bitrate: 999_999,
        max_error_ppm: 0,
        ..bus
    };
    assert!(!bus_ok(&exact, 12_000_000));
}

#[test]
fn threads_have_their_order() {
    let threads = Threads {
        tick_hz: 1000,
        ticks_per_sec: 1000,
        priorities: 32,
        idle: Thread {
            stack: 512,
            priority: 31,
        },
        led: Thread {
            stack: 1024,
            priority: 10,
        },
        shell: Thread {
            stack: 4096,
            priority: 8,
        },
        logfile: Thread {
            stack: 2048,
            priority: 20,
        },
        watchdog: Thread {
            stack: 512,
            priority: 0,
        },
        watchdog_enabled: true,
        watchdog_feed_ms: 100,
        led_blink_ms: 500,
        timer_period_ms: 1000,
    };
    assert!(threads_ok(&threads));
    let with = |change: &dyn Fn(&mut Threads)| {
        let mut t = threads;
        change(&mut t);
        threads_ok(&t)
    };
    assert!(!with(&|t| t.tick_hz = 100));
    assert!(!with(&|t| t.priorities = 31));
    assert!(!with(&|t| t.idle.stack = 260));
    assert!(!with(&|t| t.logfile.priority = 10));
    assert!(!with(&|t| t.shell.priority = 0));
    assert!(with(&|t| {
        t.shell.priority = 0;
        t.watchdog_enabled = false
    }));
    assert!(!with(&|t| t.watchdog_feed_ms = 501));
    assert!(!with(&|t| t.led_blink_ms = 0));
}

#[test]
fn sizes_are_checked() {
    assert!(stack_guard_ok(32) && stack_guard_ok(1024));
    assert!(!stack_guard_ok(16) && !stack_guard_ok(48) && !stack_guard_ok(2048));
    assert!(log_sizes_ok(4096, 2048, 4, 5000));
    assert!(!log_sizes_ok(511, 2048, 4, 5000) && !log_sizes_ok(4096, 2048, 9, 5000));
    assert!(editor_ok(80, 24, 4096) && !editor_ok(39, 24, 4096));
    assert!(transfer_ok(1000, 256, 4096) && !transfer_ok(1000, 256, 65_473));
    assert!(soak_ok(0, 1000, 1000, 1000, 1) && !soak_ok(10_081, 1000, 1000, 1000, 1));
}

#[test]
fn users_can_be_typed() {
    assert!(shell_ok("root", "pass word", 3, 64, 8));
    assert!(!shell_ok(" root", "x", 3, 64, 8));
    assert!(!shell_ok("root ", "x", 3, 64, 8));
    assert!(!shell_ok("", "x", 3, 64, 8));
    assert!(!shell_ok("root", "", 3, 64, 8));
    assert!(!shell_ok("root", "\u{e9}", 3, 64, 8));
    assert!(!shell_ok("root", "x", 0, 64, 8));
    assert!(!shell_ok("a name that is longer than the line", "x", 3, 32, 8));
}
