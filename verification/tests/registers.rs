//! Register programs, run against a model of the registers.

use hc32_firmware::arch::{
    acquire_interrupt_lock, cycles_now, in_exception, restore_interrupt_lock, start_counter,
    system_reset,
};
use hc32_firmware::clk::{self, ClkError, ClockRegs, ClockSource, Crystal, Dividers, PllConfig};
use hc32_firmware::crc::{self, DataWidth, Protocol};
use hc32_firmware::critical_section;
use hc32_firmware::efm::{self, EfmError, OpMode};
use hc32_firmware::gpio::{
    Config, Drive, Gpio, InputPin, Level, Mode, OutputPin, Pin, Port, PortA, PortB, PortC, PortD,
    PortE, PortH,
};
use hc32_firmware::icg::icg_words;
use hc32_firmware::intc::{self, IrqError, Line};
use hc32_firmware::latency::{self, Latency};
use hc32_firmware::mmio::{
    byte, change_byte, change_half, change_word, half, when_byte, when_word, word, Access, Action,
    Cleanup, Limit, Otherwise, Place, Reg, Runner, Step, Width,
};
use hc32_firmware::mpu;
use hc32_firmware::ots;
use hc32_firmware::rtc;
use std::collections::HashMap;

/// Registers by address. A write to a register can change another one.
struct Machine {
    memory: HashMap<usize, u32>,
    writes: Vec<(usize, u32)>,
    reads: usize,
    masked: i32,
    paused: u32,
    spun: u32,
    reactions: Vec<(usize, usize, u32)>,
}

impl Machine {
    fn new() -> Machine {
        Machine {
            memory: HashMap::new(),
            writes: Vec::new(),
            reads: 0,
            masked: 0,
            paused: 0,
            spun: 0,
            reactions: Vec::new(),
        }
    }

    fn with(values: &[(usize, u32)]) -> Machine {
        let mut machine = Machine::new();
        for (addr, value) in values {
            machine.memory.insert(*addr, *value);
        }
        machine
    }

    fn run<E: Copy>(&mut self, program: Vec<Step<E>>) -> Result<(), E> {
        let mut runner = Runner::new(program);
        let mut reading = 0u32;
        let mut elapsed = 0u32;
        for _ in 0..5_000_000 {
            match runner.next(reading, elapsed) {
                Action::Read(place) => {
                    reading = *self.memory.get(&place.addr).unwrap_or(&0);
                    self.reads += 1;
                    elapsed += 1;
                    continue;
                }
                Action::Write(place, value) => {
                    let fits = match place.width {
                        Width::Byte => value <= 0xff,
                        Width::Half => value <= 0xffff,
                        Width::Word => true,
                    };
                    assert!(fits, "{:x} does not fit {:?}", value, place);
                    self.memory.insert(place.addr, value);
                    self.writes.push((place.addr, value));
                    for (trigger, target, effect) in &self.reactions {
                        if *trigger == place.addr {
                            self.memory.insert(*target, *effect);
                        }
                    }
                }
                Action::Mask => self.masked += 1,
                Action::Unmask => self.masked -= 1,
                Action::Spin(n) => self.spun += n,
                Action::Pause(us) => self.paused += us,
                Action::Nothing => {}
                Action::Done(result) => return result,
            }
            elapsed = 0;
        }
        panic!("the program does not end");
    }

    fn at(&self, addr: usize) -> u32 {
        *self.memory.get(&addr).unwrap_or(&0)
    }
}

fn single<E>(access: Access) -> Vec<Step<E>> {
    vec![Step::Do(access)]
}

// ---------------------------------------------------------------------------
// Programs
// ---------------------------------------------------------------------------

#[test]
fn accesses_keep_what_they_do_not_change() {
    let mut m = Machine::with(&[(0x10, 0xffff_0000), (0x20, 0xf0f0), (0x30, 0x81)]);
    let program: Vec<Step<()>> = vec![
        Step::Do(change_word(0x10, 0xff00_0000, 0x0000_0012)),
        Step::Do(change_half(0x20, 0x00f0, 0x0001)),
        Step::Do(change_byte(0x30, 0x80, 0x02)),
        Step::Do(word(0x40, 7)),
        Step::Do(half(0x50, 8)),
        Step::Do(byte(0x60, 9)),
    ];
    assert_eq!(m.run(program), Ok(()));
    assert_eq!(
        m.writes,
        vec![
            (0x10, 0x00ff_0012),
            (0x20, 0xf001),
            (0x30, 0x03),
            (0x40, 7),
            (0x50, 8),
            (0x60, 9)
        ]
    );
    assert_eq!(m.reads, 3);
}

#[test]
fn registers_describe_their_accesses() {
    let r = Reg::at(0x4000_0000, 0x10);
    assert_eq!(
        r.read(),
        Place {
            addr: 0x4000_0010,
            width: Width::Word
        }
    );
    assert_eq!(r.write(5), word(0x4000_0010, 5));
    assert_eq!(r.modify(1, 2), change_word(0x4000_0010, 1, 2));
    assert_eq!(r.read_u16().width, Width::Half);
    assert_eq!(r.write_u16(5), half(0x4000_0010, 5));
    assert_eq!(r.modify_u16(1, 2), change_half(0x4000_0010, 1, 2));
    assert_eq!(Reg::new(0x20).read_u8().width, Width::Byte);
    assert_eq!(Reg::new(0x20).write_u8(5), byte(0x20, 5));
    assert_eq!(Reg::new(0x20).modify_u8(1, 2), change_byte(0x20, 1, 2));
}

#[test]
fn waits_end_when_the_check_holds() {
    let mut m = Machine::with(&[(0x10, 0x80)]);
    let program: Vec<Step<u8>> = vec![Step::Wait {
        check: when_byte(0x10, 0x80, 0x80),
        limit: Limit::Readings(1),
        otherwise: Otherwise::Fail {
            cleanup: Cleanup::Nothing,
            error: 1,
        },
    }];
    assert_eq!(m.run(program), Ok(()));
    assert_eq!(m.reads, 1);
}

#[test]
fn waits_are_given_up_after_their_readings() {
    for n in [0u64, 1, 5] {
        let mut m = Machine::new();
        let program: Vec<Step<u8>> = vec![
            Step::Wait {
                check: when_word(0x10, 1, 1),
                limit: Limit::Readings(n),
                otherwise: Otherwise::Fail {
                    cleanup: Cleanup::Two(word(0x20, 3), change_word(0x24, 1, 2)),
                    error: 9,
                },
            },
            Step::Do(word(0x30, 1)),
        ];
        assert_eq!(m.run(program), Err(9));
        assert_eq!(m.reads as u64, n + 1);
        assert_eq!(m.writes, vec![(0x20, 3), (0x24, 2)]);
    }
}

#[test]
fn waits_can_be_given_up_without_failing() {
    let mut m = Machine::new();
    let program: Vec<Step<u8>> = vec![
        Step::Wait {
            check: when_word(0x10, 1, 1),
            limit: Limit::Micros(100),
            otherwise: Otherwise::GoOn,
        },
        Step::Do(word(0x30, 1)),
    ];
    assert_eq!(m.run(program), Ok(()));
    assert_eq!(m.writes, vec![(0x30, 1)]);
    assert_eq!(m.reads, 100);
}

#[test]
fn insisting_repeats_an_access_until_it_takes() {
    let mut m = Machine::new();
    m.reactions.push((0x10, 0x20, 5));
    let program: Vec<Step<u8>> = vec![Step::Insist {
        access: word(0x10, 5),
        check: when_word(0x20, 0xff, 5),
        tries: 3,
        otherwise: Otherwise::GoOn,
    }];
    assert_eq!(m.run(program), Ok(()));
    assert_eq!(m.writes, vec![(0x10, 5)]);

    let mut stuck = Machine::new();
    let program: Vec<Step<u8>> = vec![Step::Insist {
        access: word(0x10, 5),
        check: when_word(0x20, 0xff, 5),
        tries: 3,
        otherwise: Otherwise::Fail {
            cleanup: Cleanup::One(word(0x10, 6)),
            error: 4,
        },
    }];
    assert_eq!(stuck.run(program), Err(4));
    assert_eq!(stuck.writes, vec![(0x10, 5), (0x10, 5), (0x10, 5), (0x10, 6)]);
}

#[test]
fn a_program_that_is_over_stays_over() {
    let mut runner: Runner<()> = Runner::new(Vec::new());
    assert_eq!(runner.next(0, 0), Action::Done(Ok(())));
    assert_eq!(runner.next(7, 7), Action::Done(Ok(())));
}

// ---------------------------------------------------------------------------
// Processor
// ---------------------------------------------------------------------------

#[test]
fn interrupt_masks_are_restored() {
    let (open, must_mask) = acquire_interrupt_lock(0);
    assert!(must_mask);
    assert_eq!(restore_interrupt_lock(open), 0);
    let (nested, must_mask) = acquire_interrupt_lock(1);
    assert!(!must_mask);
    assert_eq!(restore_interrupt_lock(nested), 1);
    assert!(!in_exception(0));
    assert!(in_exception(15));
    assert!(critical_section::in_isr(3));
}

#[test]
fn the_cycle_counter_is_started_once() {
    let mut m = Machine::with(&[(0xe000_edfc, 1)]);
    assert_eq!(m.run(start_counter::<()>()), Ok(()));
    assert_eq!(
        m.writes,
        vec![
            (0xe000_edfc, 0x0100_0001),
            (0xe000_1000, 0),
            (0xe000_1004, 0),
            (0xe000_1000, 1)
        ]
    );
    assert_eq!(cycles_now::<()>(0).len(), 4);
    assert!(cycles_now::<()>(1).is_empty());
}

#[test]
fn a_reset_keeps_the_priority_grouping() {
    let mut m = Machine::with(&[(0xe000_ed0c, 0xfa05_0300)]);
    assert_eq!(m.run(system_reset::<()>()), Ok(()));
    assert_eq!(m.writes, vec![(0xe000_ed0c, 0x05fa_0304)]);
    assert_eq!(m.masked, 1);
}

#[test]
fn critical_sections_end_after_failures() {
    let inside: Vec<Step<u8>> = vec![Step::Wait {
        check: when_word(0x10, 1, 1),
        limit: Limit::Readings(1),
        otherwise: Otherwise::Fail {
            cleanup: Cleanup::Nothing,
            error: 1,
        },
    }];
    let section = critical_section::with(inside);
    let mut m = Machine::new();
    assert_eq!(m.run(section.before), Ok(()));
    assert_eq!(m.masked, 1);
    assert_eq!(m.run(section.inside), Err(1));
    assert_eq!(m.run(section.after), Ok(()));
    assert_eq!(m.masked, 0);
}

// ---------------------------------------------------------------------------
// Pins
// ---------------------------------------------------------------------------

#[test]
fn pins_are_configured_with_one_write_of_their_control_register() {
    let pin: Pin<PortB, 5> = Gpio::take().pin();
    let config = Config {
        mode: Mode::OpenDrain,
        pull_up: true,
        drive: Drive::High,
        initial_level: Level::High,
    };
    let mut m = Machine::with(&[(0x4005_3816, 0x0001)]);
    assert_eq!(m.run(pin.configure::<()>(config)), Ok(()));
    assert_eq!(
        m.writes,
        vec![
            (0x4005_3bfc, 0xa501),
            (0x4005_3c56, 0),
            (0x4005_3c54, 0x0001 | 0x0002 | 0x0040 | 0x0020 | 0x0004),
            (0x4005_3816, 0x0021),
            (0x4005_3bfc, 0xa500),
        ]
    );
    assert_eq!(m.masked, 0);
}

#[test]
fn inputs_are_not_driven() {
    let pin: Pin<PortA, 0> = Pin::new();
    let mut m = Machine::with(&[(0x4005_3806, 0xffff)]);
    let config = Config {
        mode: Mode::Input,
        ..Config::default()
    };
    assert_eq!(m.run(pin.configure::<()>(config)), Ok(()));
    assert_eq!(m.at(0x4005_3806), 0xfffe);
    assert_eq!(m.at(0x4005_3c00), 0x10);
    let config = Config {
        mode: Mode::Analog,
        drive: Drive::Low,
        ..Config::default()
    };
    assert_eq!(m.run(pin.configure::<()>(config)), Ok(()));
    assert_eq!(m.at(0x4005_3c00), 0x8000);
}

#[test]
fn levels_go_to_their_registers() {
    let pin: Pin<PortC, 13> = Pin::new();
    let mut m = Machine::new();
    assert_eq!(m.run(pin.set_level::<()>(Level::High)), Ok(()));
    assert_eq!(m.at(0x4005_3828), 0x2000);
    assert_eq!(m.run(pin.set_level::<()>(Level::Low)), Ok(()));
    assert_eq!(m.at(0x4005_382a), 0x2000);
    assert_eq!(m.run(Pin::toggle::<()>(&pin)), Ok(()));
    assert_eq!(m.at(0x4005_382c), 0x2000);
    assert_eq!(pin.input().addr, 0x4005_3820);
    assert_eq!(pin.level(0x2000), Level::High);
    assert_eq!(pin.level(0xdfff), Level::Low);
    assert!(InputPin::is_high(&pin, 0x2000));
    assert!(InputPin::is_low(&pin, 0x1000));
    assert_eq!(OutputPin::set_high(&pin), pin.set_level(Level::High));
    assert_eq!(OutputPin::set_low(&pin), pin.set_level(Level::Low));
    assert_eq!(OutputPin::toggle(&pin).len(), 5);
}

#[test]
fn ports_lie_side_by_side() {
    assert_eq!((PortA::DATA_OFFSET, PortA::PCR_OFFSET), (0x000, 0x400));
    assert_eq!((PortB::DATA_OFFSET, PortB::PCR_OFFSET), (0x010, 0x440));
    assert_eq!((PortC::DATA_OFFSET, PortC::PCR_OFFSET), (0x020, 0x480));
    assert_eq!((PortD::DATA_OFFSET, PortD::PCR_OFFSET), (0x030, 0x4c0));
    assert_eq!((PortE::DATA_OFFSET, PortE::PCR_OFFSET), (0x040, 0x500));
    assert_eq!((PortH::DATA_OFFSET, PortH::PCR_OFFSET), (0x050, 0x540));
    assert_eq!((PortA::PIN_COUNT, PortH::PIN_COUNT), (16, 3));
}

// ---------------------------------------------------------------------------
// Interrupts
// ---------------------------------------------------------------------------

#[test]
fn lines_have_a_bit_and_a_priority_each() {
    let line = Line::new(37);
    assert_eq!(line.n(), 37);
    assert_eq!(intc::enable(line), word(0xe000_e104, 1 << 5));
    assert_eq!(intc::disable(line), word(0xe000_e184, 1 << 5));
    assert_eq!(intc::pend(line), word(0xe000_e204, 1 << 5));
    assert_eq!(intc::clear_pend(line), word(0xe000_e284, 1 << 5));
    assert_eq!(intc::set_priority(line, 15), byte(0xe000_e425, 0xf0));
    assert_eq!(intc::priority(0xf0), 15);
    assert_eq!(intc::priority_place(line).addr, 0xe000_e425);
    assert_eq!(intc::selection_place(line).addr, 0x4005_105c + 4 * 37);
}

#[test]
fn events_are_routed_to_free_lines() {
    let line = Line::new(3);
    let r = intc::register(279, line, 6, 0x1ff).unwrap();
    assert_eq!(r.route, word(0x4005_1068, 279));
    assert_eq!(r.slot, 3);
    assert_eq!(
        r.arm,
        vec![word(0xe000_e280, 8), byte(0xe000_e403, 0x60), word(0xe000_e100, 8)]
    );
    assert!(intc::register(279, line, 6, 279).is_ok());
    assert_eq!(intc::register(279, line, 6, 280), Err(IrqError::LineTaken));
    assert_eq!(intc::register(279, line, 200, 280), Err(IrqError::LineTaken));
    assert_eq!(
        intc::register(279, Line::new(128), 6, 0x1ff),
        Err(IrqError::LineUnsupported)
    );
    let removal = intc::unregister(line).unwrap();
    assert_eq!(removal.silence, vec![word(0xe000_e180, 8), word(0x4005_1068, 0x1ff)]);
    assert_eq!(removal.slot, 3);
    assert_eq!(intc::unregister(Line::new(143)), None);
    assert_eq!(intc::src::USART1_RI, 279);
}

// ---------------------------------------------------------------------------
// Real-time clock
// ---------------------------------------------------------------------------

const NOON: rtc::Time = rtc::Time {
    hour: 12,
    minute: 34,
    second: 56,
    pm: false,
};

#[test]
fn the_clock_is_reset_and_set_up() {
    let mut m = Machine::new();
    m.reactions.push((0x4004_c000, 0x4004_c000, 0));
    let cfg = rtc::Config {
        clock_src: rtc::ClockSource::Lrc,
        hour_format: rtc::HourFormat::H24,
        int_period: rtc::IntPeriod::Month,
    };
    assert_eq!(m.run(rtc::init::<()>(cfg, 200_000_000)), Ok(()));
    assert_eq!(
        m.writes,
        vec![
            (0x4004_c000, 0),
            (0x4004_c000, 1),
            (0x4004_c00c, 0x90),
            (0x4004_c004, 0x0e)
        ]
    );
}

#[test]
fn a_clock_that_does_not_answer_is_not_waited_for() {
    let mut m = Machine::with(&[(0x4004_c008, 0)]);
    m.reactions.push((0x4004_c000, 0x4004_c000, 1));
    assert_eq!(m.run(rtc::deinit::<()>(2_000_000)), Ok(()));
    assert_eq!(m.reads, 2 * 100 * 100);
}

#[test]
fn times_and_dates_read_back() {
    let mut m = Machine::with(&[(0x4004_c004, 0x88)]);
    m.reactions.push((0x4004_c008, 0x4004_c008, 0x02));
    let d = rtc::Date {
        year: 26,
        month: 11,
        day: 16,
        weekday: 1,
    };
    assert_eq!(m.run(rtc::set_time::<()>(NOON, 0x88, 0, 2_000_000)), Ok(()));
    assert_eq!(m.run(rtc::set_date::<()>(d, 0x88, 2, 2_000_000)), Ok(()));
    assert_eq!(
        (m.at(0x4004_c018), m.at(0x4004_c014), m.at(0x4004_c010)),
        (0x12, 0x34, 0x56)
    );
    let r = |a: usize| m.at(a) as u8;
    assert_eq!(
        rtc::get_time(rtc::HourFormat::H24, r(0x4004_c018), r(0x4004_c014), r(0x4004_c010)),
        NOON
    );
    assert_eq!(
        rtc::get_date(r(0x4004_c028), r(0x4004_c024), r(0x4004_c020), r(0x4004_c01c)),
        d
    );
}

#[test]
fn afternoons_are_flagged_with_twelve_hours() {
    let t = rtc::Time {
        hour: 11,
        minute: 5,
        second: 0,
        pm: true,
    };
    let mut m = Machine::new();
    assert_eq!(m.run(rtc::set_time::<()>(t, 0x00, 0, 2_000_000)), Ok(()));
    assert_eq!(m.at(0x4004_c018), 0x31);
    assert_eq!(rtc::get_time(rtc::HourFormat::H12, 0x31, 0x05, 0x00), t);
    assert_eq!(rtc::hour_format(0x08), rtc::HourFormat::H24);
    assert_eq!(rtc::hour_format(0x00), rtc::HourFormat::H12);
}

#[test]
fn alarms_are_set_and_cleared() {
    let a = rtc::Alarm {
        hour: 6,
        minute: 30,
        weekday_mask: 0x3e,
        pm: false,
    };
    let mut m = Machine::new();
    assert_eq!(m.run(rtc::set_alarm::<()>(a, 0x08)), Ok(()));
    assert_eq!(
        m.writes,
        vec![(0x4004_c030, 0x06), (0x4004_c02c, 0x30), (0x4004_c034, 0x3e)]
    );
    assert_eq!(rtc::get_alarm(0x06, 0x30, 0x3e), a);
    assert_eq!(rtc::alarm_enable(true), change_byte(0x4004_c008, 0, 0x88));
    assert_eq!(rtc::alarm_enable(false), change_byte(0x4004_c008, 0x80, 0x08));
    assert_eq!(rtc::int_enable(true, false), change_byte(0x4004_c008, 0x60, 0x20));
    assert_eq!(rtc::int_enable(false, true), change_byte(0x4004_c008, 0x60, 0x40));
    assert!(rtc::alarm_flag(0x08));
    assert_eq!(rtc::clear_alarm_flag(), change_byte(0x4004_c004, 0, 0x10));
    assert_eq!(rtc::start(), change_byte(0x4004_c004, 0, 0x80));
    assert_eq!(rtc::stop(), change_byte(0x4004_c004, 0x80, 0));
    assert!(rtc::running(0x80));
}

#[test]
fn days_are_counted_from_1970() {
    assert_eq!(rtc::days_from_civil(1970, 1, 1), 0);
    assert_eq!(rtc::days_from_civil(2000, 3, 1), 11017);
    assert_eq!(rtc::days_from_civil(2024, 2, 29), 19782);
    assert_eq!(rtc::days_from_civil(1969, 12, 31), -1);
}

#[test]
fn the_running_time_spans_months() {
    let start = rtc::Date {
        year: 24,
        month: 2,
        day: 28,
        weekday: 3,
    };
    let later = rtc::Date {
        year: 24,
        month: 3,
        day: 1,
        weekday: 5,
    };
    let base = rtc::record_base(rtc::HourFormat::H24, start, NOON);
    let t = rtc::Time {
        hour: 13,
        minute: 35,
        second: 57,
        pm: false,
    };
    assert_eq!(rtc::elapsed_dhms(base, 0x88, later, t), Some((2, 1, 1, 1)));
    assert_eq!(rtc::elapsed_dhms(base, 0x08, later, t), None);
}

#[test]
fn the_running_time_spans_noon() {
    let day = rtc::Date {
        year: 24,
        month: 2,
        day: 28,
        weekday: 3,
    };
    let at = |hour: u8, pm: bool| rtc::Time {
        hour,
        minute: 0,
        second: 0,
        pm,
    };
    let h12 = rtc::HourFormat::H12;
    let one = rtc::record_base(h12, day, at(1, false));
    assert_eq!(rtc::elapsed_dhms(one, 0x80, day, at(1, true)), Some((0, 12, 0, 0)));
    let eleven = rtc::record_base(h12, day, at(11, false));
    assert_eq!(rtc::elapsed_dhms(eleven, 0x80, day, at(1, true)), Some((0, 2, 0, 0)));
    let midnight = rtc::record_base(h12, day, at(12, false));
    assert_eq!(midnight.secs, 0);
    assert_eq!(rtc::elapsed_dhms(midnight, 0x80, day, at(12, true)), Some((0, 12, 0, 0)));
}

// ---------------------------------------------------------------------------
// Flash controller
// ---------------------------------------------------------------------------

#[test]
fn words_are_programmed_and_the_controller_is_locked_again() {
    let mut m = Machine::with(&[(0x4001_0410, 0x110), (0x4001_040c, 0x40)]);
    let steps = efm::program(0x5c000, &[1, 2, 3, 4, 5], 200_000_000).unwrap();
    assert_eq!(m.run(steps), Ok(()));
    assert_eq!(
        m.writes,
        vec![
            (0x4001_0400, 0x0123),
            (0x4001_0400, 0x3210),
            (0x4001_040c, 0x41),
            (0x4001_0414, 0x3f),
            (0x4001_040c, 0x11),
            (0x5c000, 0x0403_0201),
            (0x4001_0414, 0x10),
            (0x5c004, 0xffff_ff05),
            (0x4001_0414, 0x10),
            (0x4001_040c, 0x01),
            (0x4001_040c, 0x00),
            (0x4001_0400, 0),
        ]
    );
    let one = efm::program_word(0x5c000, 0x0403_0201, 200_000_000).unwrap();
    assert_eq!(one, efm::program(0x5c000, &[1, 2, 3, 4], 200_000_000).unwrap());
}

#[test]
fn sectors_are_erased() {
    let mut m = Machine::with(&[(0x4001_0410, 0x110)]);
    assert_eq!(m.run(efm::sector_erase(0x5e000, 200_000_000).unwrap()), Ok(()));
    assert!(m.writes.contains(&(0x4001_040c, 0x41)));
    assert!(m.writes.contains(&(0x5e000, 0)));
    assert_eq!(m.writes.last(), Some(&(0x4001_0400, 0)));
}

#[test]
fn flash_operations_fail_in_time_and_end_locked() {
    let mut busy = Machine::new();
    let steps = efm::program(0x5c000, &[0], 2_000_000).unwrap();
    assert_eq!(busy.run(steps), Err(EfmError::Timeout));
    assert_eq!(busy.reads, 101);
    assert!(busy.writes.is_empty());

    let mut endless = Machine::with(&[(0x4001_0410, 0x100)]);
    let steps = efm::program(0x5c000, &[0], 2_000_000).unwrap();
    assert_eq!(endless.run(steps), Err(EfmError::Timeout));
    assert_eq!(endless.writes.last(), Some(&(0x4001_0400, 0)));
}

#[test]
fn flash_addresses_are_checked() {
    let bad = Some(EfmError::InvalidAddr);
    assert_eq!(efm::program(2, &[0], 1).err(), bad);
    assert_eq!(efm::program(0x7fffc, &[0; 5], 1).err(), bad);
    assert!(efm::program(0x7fffc, &[0; 4], 1).is_ok());
    assert_eq!(efm::program_word(0x80000, 0, 1).err(), bad);
    assert_eq!(efm::sector_erase(0x80000, 1).err(), bad);
    assert_eq!(efm::sector_erase(6, 1).err(), bad);
}

#[test]
fn the_first_error_of_the_status_counts() {
    assert_eq!(efm::finish(0x110), Ok(()));
    assert_eq!(efm::finish(0x3f), Err(EfmError::ProgramEraseError));
    assert_eq!(efm::finish(0x3e), Err(EfmError::ProtectViolation));
    assert_eq!(efm::finish(0x3c), Err(EfmError::SizeError));
    assert_eq!(efm::finish(0x38), Err(EfmError::Mismatch));
    assert_eq!(efm::finish(0x30), Err(EfmError::ReadCollision));
    assert!(efm::ready(0x100));
    assert!(!efm::ready(0x10));
    assert_eq!(efm::status().addr, 0x4001_0410);
    assert_eq!(efm::set_op_mode(OpMode::ChipErase), change_word(0x4001_040c, 0x70, 0x50));
    assert_eq!(efm::set_op_mode(OpMode::SequenceProgram).set, 0x30);
    assert_eq!(efm::set_op_mode(OpMode::ProgramReadBack).set, 0x20);
    assert_eq!(efm::unlock::<()>().len(), 2);
    assert_eq!(efm::lock(), word(0x4001_0400, 0));
    assert_eq!(efm::read_byte(9).width, Width::Byte);
    assert_eq!(efm::read_word(8).addr, 8);
    assert_eq!(efm::uid()[2].addr, 0x4001_0458);
}

#[test]
fn faster_clocks_need_more_wait_cycles() {
    let limits = [33, 66, 99, 132, 168, 200];
    for (cycles, mhz) in limits.iter().enumerate() {
        assert_eq!(efm::wait_cycle(mhz * 1_000_000), cycles as u32);
    }
    assert_eq!(efm::wait_cycle(33_000_001), 1);
    let mut m = Machine::with(&[(0x4001_0408, 0xf01)]);
    assert_eq!(m.run(efm::set_wait_cycle::<()>(200_000_000)), Ok(()));
    assert_eq!(m.at(0x4001_0408), 0xf51);
    assert_eq!(m.writes.last(), Some(&(0x4001_0400, 0)));
}

// ---------------------------------------------------------------------------
// Clocks
// ---------------------------------------------------------------------------

const PLL: PllConfig = PllConfig {
    src: 0,
    m: 0,
    n: 49,
    p: 1,
    q: 1,
    r: 1,
};

const CRYSTAL: Crystal = Crystal {
    hz: 8_000_000,
    stable_time: 5,
    drive: 2,
    super_drive: false,
};

const DIVIDERS: Dividers = Dividers {
    hclk: 1,
    pclk0: 1,
    pclk1: 2,
    pclk2: 4,
    pclk3: 8,
    pclk4: 16,
    exclk: 2,
};

fn no_waits() -> clk::SramWaits {
    clk::SramWaits {
        hrc: Vec::new(),
        xtal: Vec::new(),
        pll: single(word(0x4005_0800, 1)),
    }
}

#[test]
fn frequencies_follow_from_the_registers() {
    let pllcfgr: u32 = 0x1110_3100;
    assert_eq!(clk::pll_hz(pllcfgr, 1, 8_000_000), 200_000_000);
    assert_eq!(clk::pll_hz(pllcfgr | 0x80, 1, 8_000_000), 400_000_000);
    let mut regs = ClockRegs {
        ckswr: 5,
        scfgr: 0x0014_3210,
        pllcfgr,
        icg1: 1,
    };
    assert_eq!(clk::system_clock_hz(regs, 8_000_000), 200_000_000);
    assert_eq!(clk::hclk_hz(regs, 8_000_000), 200_000_000);
    assert_eq!(clk::pclk0_hz(regs, 8_000_000), 200_000_000);
    assert_eq!(clk::pclk1_hz(regs, 8_000_000), 100_000_000);
    assert_eq!(clk::pclk2_hz(regs, 8_000_000), 50_000_000);
    assert_eq!(clk::pclk3_hz(regs, 8_000_000), 25_000_000);
    assert_eq!(clk::pclk4_hz(regs, 8_000_000), 12_500_000);
    assert_eq!(clk::exclk_hz(regs, 8_000_000), 100_000_000);
    let sources = [16_000_000, 8_000_000, 32_768, 12_000_000, 32_768];
    for (source, hz) in sources.iter().enumerate() {
        regs.ckswr = source as u8;
        assert_eq!(clk::system_clock_hz(regs, 12_000_000), *hz);
    }
    regs.ckswr = 6;
    assert_eq!(clk::system_clock_hz(regs, 12_000_000), 0);
    regs.ckswr = 0;
    regs.icg1 = 0;
    assert_eq!(clk::system_clock_hz(regs, 12_000_000), 20_000_000);
}

#[test]
fn the_pll_is_started_and_selected() {
    let mut m = Machine::with(&[(0x4005_403c, 0x29)]);
    m.reactions.push((0x4001_0408, 0x4001_0408, 0x50));
    let plan = clk::init(ClockSource::Pll, PLL, CRYSTAL, DIVIDERS, 1, no_waits());
    assert_eq!(m.run(plan.start), Ok(()));
    assert_eq!(m.at(0x4005_4020), 0x0014_3210);
    assert_eq!(m.at(0x4005_40a2), 5);
    assert_eq!(m.at(0x4005_4410), 0x20);
    assert_eq!(m.run(plan.pll.unwrap()), Ok(()));
    assert_eq!(m.at(0x4005_4100), 0x1110_3100);
    assert_eq!(m.run(plan.switch), Ok(()));
    assert_eq!(m.at(0x4005_4026), 5);
    assert_eq!(m.at(0x4005_0800), 1);
    assert_eq!(m.at(0x4005_43fe), 0xa500);
    assert_eq!(clk::record_after(ClockSource::Pll, 0, Ok(())), clk::STATUS_ACTIVE);
}

#[test]
fn without_the_pll_the_crystal_is_used() {
    let mut m = Machine::with(&[(0x4005_403c, 0x09)]);
    let plan = clk::init(ClockSource::Pll, PLL, CRYSTAL, DIVIDERS, 1, no_waits());
    let outcome = m.run(clk::pll_init(PLL));
    assert_eq!(outcome, Err(ClkError::PllStableTimeout));
    assert_eq!(m.writes.last(), Some(&(0x4005_43fe, 0xa500)));
    let next = plan.after_pll(outcome);
    assert_eq!(m.run(next), Ok(()));
    assert_eq!(m.at(0x4005_4026), 3);
}

#[test]
fn a_crystal_that_does_not_start_is_reported() {
    let mut m = Machine::new();
    let outcome = m.run(clk::xtal_init(CRYSTAL));
    assert_eq!(outcome, Err(ClkError::XtalStableTimeout));
    assert_eq!(m.reads, 1_000_001 + 2);
    assert_eq!(m.writes.last(), Some(&(0x4005_43fe, 0xa500)));
    let strong = Crystal {
        super_drive: true,
        ..CRYSTAL
    };
    assert!(clk::xtal_init(strong).contains(&Step::Do(byte(0x4005_4410, 0xa0))));
    let record = clk::record_after(ClockSource::Xtal, 0, outcome);
    assert_eq!(clk::xtal_status(record), clk::XtalStatus::Failed);
    assert_eq!(clk::xtal_status(1), clk::XtalStatus::Active);
    assert_eq!(clk::xtal_status(0), clk::XtalStatus::NotAttempted);
    let outcome = m.run(clk::hrc_cmd(true));
    assert_eq!(outcome, Err(ClkError::HrcStableTimeout));
    assert_eq!(clk::record_after(ClockSource::Hrc, 0, outcome), 0);
}

#[test]
fn the_clock_after_reset_needs_no_setting_up() {
    let plan = clk::init(ClockSource::Mrc, PLL, CRYSTAL, DIVIDERS, 1, no_waits());
    assert!(plan.start.is_empty() && plan.pll.is_none() && plan.switch.is_empty());
    let names: Vec<&str> = [ClockSource::Mrc, ClockSource::Hrc, ClockSource::Xtal, ClockSource::Pll]
        .iter()
        .map(|s| s.name())
        .collect();
    assert_eq!(names, vec!["mrc", "hrc", "xtal", "pll"]);
}

#[test]
fn oscillators_in_use_are_not_stopped() {
    assert_eq!(clk::lrc_cmd(false, 32_768), Err(ClkError::LrcBusy));
    assert_eq!(clk::xtal32_cmd(false, 32_768), Err(ClkError::Xtal32Busy));
    let mut m = Machine::new();
    assert_eq!(m.run(clk::lrc_cmd(true, 32_768).unwrap()), Ok(()));
    assert_eq!(m.run(clk::xtal32_cmd(false, 8_000_000).unwrap()), Ok(()));
    assert_eq!(m.run(clk::hrc_cmd(false)), Ok(()));
    assert_eq!(m.run(clk::xtal_cmd(false)), Ok(()));
    assert_eq!(m.at(0x4005_4427), 0);
    assert_eq!(m.at(0x4005_4420), 1);
    assert_eq!(m.at(0x4005_4036), 1);
    assert_eq!(m.at(0x4005_4032), 1);
    assert_eq!(m.paused, 320);
}

#[test]
fn clocks_can_be_put_out() {
    let mut m = Machine::new();
    let steps = clk::mco1_config(clk::McoSource::Hclk, clk::McoDiv::Div8);
    assert_eq!(m.run(steps), Ok(()));
    assert_eq!(m.at(0x4005_403d), 0xbb);
    assert_eq!(m.run(clk::mco1_cmd(false)), Ok(()));
    assert_eq!(m.at(0x4005_403d), 0x3b);
    assert_eq!(m.run(clk::mco1_cmd(true)), Ok(()));
    assert_eq!(m.at(0x4005_403d), 0xbb);
    assert_eq!(m.run(clk::fcg0_enable::<ClkError>(0x4000)), Ok(()));
    assert_eq!(m.at(0x4004_8010), 0xa5a5_0000);
}

#[test]
fn reset_words_choose_the_oscillator() {
    assert_eq!(icg_words(16, false)[1], 0xffff_feff);
    assert_eq!(icg_words(16, true)[1], 0xffff_ffff);
    assert_eq!(icg_words(20, false)[1], 0xffff_fefe);
    assert_eq!(icg_words(20, true)[1], 0xffff_fffe);
    assert_eq!(icg_words(16, false)[0], 0xffdf_ffbf);
    assert_eq!(icg_words(16, false)[7], 0xffff_ffff);
}

// ---------------------------------------------------------------------------
// Checksum unit
// ---------------------------------------------------------------------------

#[test]
fn data_goes_to_the_checksum_unit_element_by_element() {
    let mut m = Machine::with(&[(0x4004_8000, 0xffff_ffff)]);
    let steps = crc::calculate::<()>(&[1, 2, 3, 4, 5, 6], DataWidth::Word, crc::Config::crc32());
    assert_eq!(m.run(steps), Ok(()));
    assert_eq!(
        m.writes,
        vec![
            (0x4004_8010, 0xa5a5_0001),
            (0x4004_8000, 0xff7f_ffff),
            (0x4004_8010, 0xa5a5_0000),
            (0x4000_8c00, 0x1c),
            (0x4000_8c00, 0x1e),
            (0x4000_8c04, 0xffff_ffff),
            (0x4000_8c80, 0x0403_0201),
        ]
    );
    let mut m = Machine::new();
    assert_eq!(m.run(crc::accumulate::<()>(&[1, 2, 3], DataWidth::HalfWord)), Ok(()));
    assert_eq!(m.run(crc::accumulate::<()>(&[9, 8], DataWidth::Byte)), Ok(()));
    assert_eq!(
        m.writes,
        vec![(0x4000_8c80, 0x0201), (0x4000_8c80, 9), (0x4000_8c80, 8)]
    );
}

#[test]
fn short_checksums_have_sixteen_bits() {
    let mut m = Machine::new();
    assert_eq!(m.run(crc::init::<()>(crc::Config::x25())), Ok(()));
    assert_eq!(m.writes.last(), Some(&(0x4000_8c04, 0xffff)));
    assert_eq!(crc::result(0x1c, 0x0001_906e), 0x906e);
    assert_eq!(crc::result(0x1e, 0xcbf4_3926), 0xcbf4_3926);
    assert!(crc::result_ready(Protocol::Crc16, 0x1_0000, 0));
    assert!(crc::result_ready(Protocol::Crc32, 0, 1));
    assert!(!crc::result_ready(Protocol::Crc32, 0x1_0000, 0));
    assert_eq!(crc::set_init_value(0, 0x12_3456), word(0x4000_8c04, 0x3456));
    assert_eq!(crc::set_init_value(2, 0x12_3456), word(0x4000_8c04, 0x12_3456));
    assert!(crc::check(crc::Config::ccitt_false(), 0x1_29b1, 0x29b1));
    assert!(!crc::check(crc::Config::crc32_mpeg2(), 0x1_29b1, 0x29b1));
}

// ---------------------------------------------------------------------------
// Memory protection
// ---------------------------------------------------------------------------

#[test]
fn memory_is_divided_into_regions() {
    let mut m = Machine::new();
    assert_eq!(m.run(mpu::init::<()>()), Ok(()));
    assert_eq!(m.writes.len(), 1 + 15 + 2 + 1);
    assert_eq!(m.writes[0], (0xe000_ed24, 0x0007_0000));
    assert_eq!(
        m.writes[1..4],
        [(0xe000_ed98, 0), (0xe000_ed9c, 0), (0xe000_eda0, 0x0606_0025)]
    );
    assert_eq!(
        m.writes[4..7],
        [(0xe000_ed98, 1), (0xe000_ed9c, 0x4000_0000), (0xe000_eda0, 0x1308_0039)]
    );
    assert_eq!(m.writes[18], (0xe000_ed94, 7));
}

#[test]
fn the_stack_guard_follows_the_thread() {
    let mut m = Machine::new();
    assert_eq!(m.run(mpu::set_thread_guard::<()>(0x2000_1020)), Ok(()));
    assert_eq!(
        m.writes,
        vec![(0xe000_ed98, 5), (0xe000_ed9c, 0x2000_1020), (0xe000_eda0, 0x1000_0009)]
    );
    assert_eq!(m.run(mpu::guard_off::<()>()), Ok(()));
    assert_eq!(m.at(0xe000_eda0), 0);
}

#[test]
fn flash_is_writable_for_the_time_of_an_operation() {
    let bracketed = mpu::with_flash_writable::<()>(true, single(word(0x5c000, 0)));
    let mut m = Machine::new();
    assert_eq!(m.run(bracketed.before), Ok(()));
    assert_eq!(m.at(0xe000_eda0), 0x0306_0025);
    assert_eq!(m.run(bracketed.inside), Ok(()));
    assert_eq!(m.run(bracketed.after), Ok(()));
    assert_eq!(m.at(0xe000_eda0), 0x0606_0025);
    assert!(mpu::flash_writable::<()>(false, true).is_empty());
}

// ---------------------------------------------------------------------------
// Temperature sensor
// ---------------------------------------------------------------------------

const SENSOR: ots::Sensor = ots::Sensor {
    initialized: true,
    slope_k: 3_002_590,
    offset_m: 27_920,
    hrc: true,
};

#[test]
fn temperatures_follow_the_formula() {
    // 10^12/3000 - 10^12/4000 = 83_333_333; 3_002_590 * 100 * 83_333_333 / 10^12 = 25_021.
    assert_eq!(ots::calculate_temp(&SENSOR, 3000, 4000, 100), 25_021 + 27_920);
    assert_eq!(ots::calculate_temp(&SENSOR, 4000, 3000, 100), -25_021 + 27_920);
    assert_eq!(ots::calculate_temp(&SENSOR, 0, 4000, 100), -300_000);
    assert_eq!(ots::calculate_temp(&SENSOR, 3000, 4000, 0), -300_000);
    let xtal = ots::Sensor {
        hrc: false,
        ..SENSOR
    };
    assert_eq!(ots::calculate_temp(&xtal, 3000, 4000, 0), 250 + 27_920);
}

#[test]
fn temperatures_are_rounded_and_split() {
    assert_eq!(ots::to_deci(25_149), 251);
    assert_eq!(ots::to_deci(25_150), 252);
    assert_eq!(ots::to_deci(-25_150), -252);
    assert_eq!(ots::split_deci(-251), (-25, 1));
    assert_eq!(ots::split_deci(9), (0, 9));
    assert_eq!(ots::split_milli(-12_345), (-12, 3, 4, 5));
    assert_eq!(ots::split_milli(i32::MIN), (-2_147_483, 6, 4, 8));
}

#[test]
fn samples_are_ended_also_when_they_take_too_long() {
    let mut m = Machine::new();
    assert_eq!(m.run(ots::polling(10)), Err(ots::Error::Timeout));
    assert_eq!(m.at(0x4004_a400), 0);
    assert_eq!(m.reads, 1 + 11 + 1);
    assert_eq!(ots::polling_until(1, 5, 10), None);
    assert_eq!(ots::polling_until(0, 50, 10), Some((ots::stop(), Ok(()))));
    assert_eq!(
        ots::polling_until(1, 10, 10),
        Some((ots::stop(), Err(ots::Error::Timeout)))
    );
    assert!(ots::sampling(1));
    assert_eq!(ots::start(), change_half(0x4004_a400, 0, 1));
}

#[test]
fn calibration_samples_are_evaluated() {
    let r = ots::scaling_experiment(&SENSOR, Ok(()), 3000, 4000, 100).unwrap();
    assert_eq!((r.dr1, r.dr2, r.ecr, r.a), (3000, 4000, 100, 8_333_333_300));
    assert_eq!(ots::scaling_experiment(&SENSOR, Ok(()), 0, 4000, 100).unwrap().a, 0);
    assert_eq!(
        ots::scaling_experiment(&SENSOR, Err(ots::Error::Timeout), 1, 1, 1),
        Err(ots::Error::Timeout)
    );
}

#[test]
fn the_sensor_is_set_up_and_switched_off() {
    let cfg = ots::Config::default();
    let mut m = Machine::with(&[(0x4005_403c, 0x01), (0x4004_800c, 0xffff_ffff)]);
    assert_eq!(m.run(ots::init(cfg, CRYSTAL)), Ok(()));
    assert_eq!(m.at(0x4004_800c), 0xffff_efff);
    assert_eq!(m.at(0x4004_a400), 0x0a);
    let mut s = ots::Sensor::configured(cfg);
    assert!(ots::enabled(&s));
    assert_eq!(m.run(ots::deinit::<()>(&mut s)), Ok(()));
    assert!(!ots::enabled(&s));
    assert_eq!(m.at(0x4004_a400), 0);
    assert_eq!(ots::int_enable(true), change_half(0x4004_a400, 0, 0x04));
    assert_eq!(ots::int_enable(false), change_half(0x4004_a400, 0x04, 0));
    assert_eq!(ots::read_raw().2.addr, 0x4004_a406);
    assert_eq!(ots::ClockSource::Hrc.name(), "hrc");
}

// ---------------------------------------------------------------------------
// Latency
// ---------------------------------------------------------------------------

#[test]
fn late_ticks_are_measured_across_the_wrap() {
    let mut s = Latency::default();
    assert_eq!(latency::init::<()>(&mut s, 200_000_000, 1000).len(), 4);
    assert_eq!(s.period, 200_000);
    latency::tick_entry(&mut s, 0xffff_ff00);
    latency::tick_entry(&mut s, 0xffff_ff00u32.wrapping_add(200_000 + 42));
    assert_eq!(latency::max_tick_latency_cycles(&s), 42);
    let now = s.last_tick;
    latency::tick_entry(&mut s, now.wrapping_add(199_000));
    assert_eq!(latency::max_tick_latency_cycles(&s), 42);
    latency::reset_peaks(&mut s);
    assert_eq!(latency::max_tick_latency_cycles(&s), 0);
    assert_eq!(latency::cycles_to_us(&s, 400), 2);
    assert_eq!(latency::cycles_to_us(&Latency::default(), 400), 0);
}

#[test]
fn flash_operations_are_measured_apart() {
    let mut s = Latency::default();
    latency::init::<()>(&mut s, 1_000_000, 1000);
    latency::tick_entry(&mut s, 1000);
    latency::flash_window_begin(&mut s, 1900);
    latency::flash_window_end(&mut s, 5000);
    latency::tick_entry(&mut s, 5001);
    assert_eq!(latency::max_tick_latency_cycles(&s), 0);
    assert_eq!(latency::max_tick_latency_flash_cycles(&s), 3001);
    let begin = latency::critical_begin(&s, 10);
    latency::critical_end(&mut s, begin, 25);
    assert_eq!(latency::max_critical_cycles(&s), 15);
    latency::flash_window_begin(&mut s, 30);
    latency::critical_end(&mut s, 10, 50);
    assert_eq!(latency::max_critical_flash_cycles(&s), 40);
    assert_eq!(latency::max_critical_cycles(&s), 15);
    assert_eq!(latency::critical_begin(&Latency::default(), 10), 0);
}

#[test]
fn the_pll_is_checked_before_it_is_used() {
    let regs = clk::pllcfgr_value(PllConfig { src: 0, m: 2, n: 99, p: 1, q: 1, r: 1 });
    // 12 MHz / 3 * 100 is 400 MHz.
    assert!(clk::pll_fits(regs, 1, 12_000_000));
    assert_eq!(clk::pll_hz(regs, 1, 12_000_000), 200_000_000);
    let wild = clk::pllcfgr_value(PllConfig { src: 1, m: 0, n: 511, p: 0, q: 0, r: 0 });
    assert!(!clk::pll_fits(wild, 0, 12_000_000));
    assert_eq!(clk::active_source(0xfd), Some(ClockSource::Pll));
    assert_eq!(clk::active_source(0), Some(ClockSource::Hrc));
    assert_eq!(clk::active_source(2), None);
}
