//! Pins: what is written to their registers.
//!
//! The port and the number of a pin are part of its type. The registers that
//! configure pins are write-protected; they are unlocked for the time of a
//! program only, with the interrupts masked, so that no handler can lock them in
//! between.

use vstd::prelude::*;

use crate::mmio::{Step, Place, Width, change_half, half};

verus! {

const GPIO_BASE: usize = 0x4005_3800;

const PWPR: usize = 0x4005_3bfc;

const PWPR_UNLOCK: u16 = 0xa501;

const PWPR_LOCK: u16 = 0xa500;

const PIDR_OFF: usize = 0x00;

const POER_OFF: usize = 0x06;

const POSR_OFF: usize = 0x08;

const PORR_OFF: usize = 0x0a;

const POTR_OFF: usize = 0x0c;

const PCR_POUT: u16 = 0x0001;

const PCR_POUTE: u16 = 0x0002;

const PCR_NOD: u16 = 0x0004;

const PCR_PUU: u16 = 0x0040;

const PCR_DDIS: u16 = 0x8000;

/// Only the ports of this module are ports.
pub trait Sealed {

}

/// Where the registers of a port are.
pub trait Port: Sealed {
    /// Offset of its data registers.
    const DATA_OFFSET: usize;

    /// Offset of the control register of its first pin.
    const PCR_OFFSET: usize;

    /// How many pins it has.
    const PIN_COUNT: u8;
}

/// Port A.
pub struct PortA;

impl Sealed for PortA {

}

impl Port for PortA {
    const DATA_OFFSET: usize = 0x000;

    const PCR_OFFSET: usize = 0x400;

    const PIN_COUNT: u8 = 16;
}

/// Port B.
pub struct PortB;

impl Sealed for PortB {

}

impl Port for PortB {
    const DATA_OFFSET: usize = 0x010;

    const PCR_OFFSET: usize = 0x440;

    const PIN_COUNT: u8 = 16;
}

/// Port C.
pub struct PortC;

impl Sealed for PortC {

}

impl Port for PortC {
    const DATA_OFFSET: usize = 0x020;

    const PCR_OFFSET: usize = 0x480;

    const PIN_COUNT: u8 = 16;
}

/// Port D.
pub struct PortD;

impl Sealed for PortD {

}

impl Port for PortD {
    const DATA_OFFSET: usize = 0x030;

    const PCR_OFFSET: usize = 0x4c0;

    const PIN_COUNT: u8 = 16;
}

/// Port E.
pub struct PortE;

impl Sealed for PortE {

}

impl Port for PortE {
    const DATA_OFFSET: usize = 0x040;

    const PCR_OFFSET: usize = 0x500;

    const PIN_COUNT: u8 = 16;
}

/// Port H.
pub struct PortH;

impl Sealed for PortH {

}

impl Port for PortH {
    const DATA_OFFSET: usize = 0x050;

    const PCR_OFFSET: usize = 0x540;

    const PIN_COUNT: u8 = 3;
}

/// The level of a pin.
#[derive(Clone, Copy, Debug, PartialEq, Eq, Structural)]
pub enum Level {
    Low,
    High,
}

/// What a pin is used for.
#[derive(Clone, Copy, Debug, PartialEq, Eq, Structural)]
pub enum Mode {
    Input,
    /// Push-pull output.
    Output,
    /// Open-drain output.
    OpenDrain,
    /// Analog function; the digital input is off.
    Analog,
}

/// How strongly a pin is driven.
#[derive(Clone, Copy, Debug, PartialEq, Eq, Structural)]
pub enum Drive {
    Low,
    Medium,
    High,
}

/// The configuration of a pin.
#[derive(Clone, Copy, Debug)]
pub struct Config {
    pub mode: Mode,
    /// Whether the internal pull-up is on.
    pub pull_up: bool,
    pub drive: Drive,
    /// The level of an output from the moment on at which it is driven.
    pub initial_level: Level,
}

impl Default for Config {
    fn default() -> (r: Self)
        ensures
            r == (Config {
                mode: Mode::Input,
                pull_up: false,
                drive: Drive::Medium,
                initial_level: Level::Low,
            }),
    {
        Config {
            mode: Mode::Input,
            pull_up: false,
            drive: Drive::Medium,
            initial_level: Level::Low,
        }
    }
}

/// Whether the pin drives its level.
pub open spec fn drives(mode: Mode) -> bool {
    mode == Mode::Output || mode == Mode::OpenDrain
}

/// The control register of a pin.
pub open spec fn pcr_of(config: Config) -> u16 {
    (if config.initial_level == Level::High {
        0x0001u16
    } else {
        0
    }) | (if drives(config.mode) {
        0x0002u16
    } else {
        0
    }) | (if config.pull_up {
        0x0040u16
    } else {
        0
    }) | (match config.drive {
        Drive::Low => 0x0000u16,
        Drive::Medium => 0x0010u16,
        Drive::High => 0x0020u16,
    }) | (if config.mode == Mode::OpenDrain {
        0x0004u16
    } else {
        0
    }) | (if config.mode == Mode::Analog {
        0x8000u16
    } else {
        0
    })
}

/// Steps with the write protection lifted and the interrupts masked.
pub open spec fn unlocked<E>(steps: Seq<Step<E>>) -> Seq<Step<E>> {
    seq![Step::<E>::Mask, Step::<E>::Do(half(0x4005_3bfc, 0xa501))] + steps + seq![
        Step::<E>::Do(half(0x4005_3bfc, 0xa500)),
        Step::<E>::Unmask,
    ]
}

/// Put steps between lifting the write protection and restoring it.
fn with_unlocked<E>(steps: Vec<Step<E>>) -> (r: Vec<Step<E>>)
    ensures
        r@ == unlocked(steps@),
{
    let mut out: Vec<Step<E>> = Vec::new();
    let mut steps: Vec<Step<E>> = steps;
    out.push(Step::Mask);
    out.push(Step::Do(half(PWPR, PWPR_UNLOCK)));
    out.append(&mut steps);
    out.push(Step::Do(half(PWPR, PWPR_LOCK)));
    out.push(Step::Unmask);
    out
}

/// The control register of a pin: the level and the fact that it is driven are
/// written at once.
fn build_pcr_value(config: Config) -> (r: u16)
    ensures
        r == pcr_of(config),
{
    let output: bool = matches!(config.mode, Mode::Output | Mode::OpenDrain);
    let level: u16 = if config.initial_level == Level::High {
        PCR_POUT
    } else {
        0
    };
    let enable: u16 = if output {
        PCR_POUTE
    } else {
        0
    };
    let pull: u16 = if config.pull_up {
        PCR_PUU
    } else {
        0
    };
    let drive: u16 = match config.drive {
        Drive::Low => 0x00,
        Drive::Medium => 0x10,
        Drive::High => 0x20,
    };
    let drain: u16 = if config.mode == Mode::OpenDrain {
        PCR_NOD
    } else {
        0
    };
    let analog: u16 = if config.mode == Mode::Analog {
        PCR_DDIS
    } else {
        0
    };
    level | enable | pull | drive | drain | analog
}

/// A pin: number `N` of port `P`.
pub struct Pin<P: Port, const N: u8> {
    port: core::marker::PhantomData<P>,
}

/// The bit of a pin in the registers of its port.
pub open spec fn bit_of(n: u8) -> u16 {
    1u16 << n
}

/// An output set high or low, or inverted: the bit of the pin is written to the
/// register at `offset` among the data registers of its port.
pub open spec fn data_steps<E>(data: usize, offset: usize, n: u8) -> Seq<Step<E>> {
    unlocked(
        seq![Step::<E>::Do(half((0x4005_3800 + data + offset) as usize, bit_of(n)))],
    )
}

/// A pin is configured: GPIO function, control register, output enable.
pub open spec fn configure_steps<E>(data: usize, pcr: usize, n: u8, config: Config) -> Seq<
    Step<E>,
> {
    let control = 0x4005_3800 + pcr + 4 * n;
    let enable = (0x4005_3800 + data + 0x06) as usize;
    unlocked(
        seq![
            Step::<E>::Do(half((control + 2) as usize, 0)),
            Step::<E>::Do(half(control as usize, pcr_of(config))),
            Step::<E>::Do(
                if drives(config.mode) {
                    change_half(enable, 0, bit_of(n))
                } else {
                    change_half(enable, bit_of(n), 0)
                },
            ),
        ],
    )
}

/// The offsets of a port lie within the register block.
pub open spec fn in_block<P: Port>(n: u8) -> bool {
    P::DATA_OFFSET <= 0x1000 && P::PCR_OFFSET <= 0x1000 && n < 16
}

impl<P: Port, const N: u8> Pin<P, N> {
    /// The pin; it must be one that the port has.
    pub fn new() -> (r: Self)
        requires
            N < P::PIN_COUNT,
    {
        Pin { port: core::marker::PhantomData }
    }

    /// Configure the pin as a GPIO.
    pub fn configure<E>(&self, config: Config) -> (r: Vec<Step<E>>)
        requires
            in_block::<P>(N),
        ensures
            r@ == configure_steps::<E>(P::DATA_OFFSET, P::PCR_OFFSET, N, config),
    {
        let bit: u16 = 1u16 << N;
        let control: usize = GPIO_BASE + P::PCR_OFFSET + 4 * (N as usize);
        let enable: usize = GPIO_BASE + P::DATA_OFFSET + POER_OFF;
        let output: bool = matches!(config.mode, Mode::Output | Mode::OpenDrain);
        let steps: Vec<Step<E>> =
            vec![
            Step::Do(half(control + 2, 0)),
            Step::Do(half(control, build_pcr_value(config))),
            Step::Do(
                if output {
                    change_half(enable, 0, bit)
                } else {
                    change_half(enable, bit, 0)
                },
            ),
        ];
        with_unlocked(steps)
    }

    /// Write the bit of the pin to a data register.
    fn write_bit<E>(&self, offset: usize) -> (r: Vec<Step<E>>)
        requires
            in_block::<P>(N),
            offset <= 0x0c,
        ensures
            r@ == data_steps::<E>(P::DATA_OFFSET, offset, N),
    {
        let bit: u16 = 1u16 << N;
        let steps: Vec<Step<E>> =
            vec![Step::Do(half(GPIO_BASE + P::DATA_OFFSET + offset, bit))];
        with_unlocked(steps)
    }

    /// Drive the pin high.
    pub fn set_high<E>(&self) -> (r: Vec<Step<E>>)
        requires
            in_block::<P>(N),
        ensures
            r@ == data_steps::<E>(P::DATA_OFFSET, 0x08, N),
    {
        self.write_bit(POSR_OFF)
    }

    /// Drive the pin low.
    pub fn set_low<E>(&self) -> (r: Vec<Step<E>>)
        requires
            in_block::<P>(N),
        ensures
            r@ == data_steps::<E>(P::DATA_OFFSET, 0x0a, N),
    {
        self.write_bit(PORR_OFF)
    }

    /// Invert the level of the pin.
    pub fn toggle<E>(&self) -> (r: Vec<Step<E>>)
        requires
            in_block::<P>(N),
        ensures
            r@ == data_steps::<E>(P::DATA_OFFSET, 0x0c, N),
    {
        self.write_bit(POTR_OFF)
    }

    /// Where the levels of the port are read.
    pub fn input(&self) -> (r: Place)
        requires
            in_block::<P>(N),
        ensures
            r == (Place {
                addr: (0x4005_3800 + P::DATA_OFFSET) as usize,
                width: Width::Half,
            }),
    {
        Place { addr: GPIO_BASE + P::DATA_OFFSET + PIDR_OFF, width: Width::Half }
    }

    /// Whether the pin is high, given the levels of its port.
    pub fn is_high(&self, levels: u16) -> (r: bool)
        requires
            N < 16,
        ensures
            r == (levels & bit_of(N) != 0),
    {
        levels & (1u16 << N) != 0
    }

    /// Whether the pin is low, given the levels of its port.
    pub fn is_low(&self, levels: u16) -> (r: bool)
        requires
            N < 16,
        ensures
            r == (levels & bit_of(N) == 0),
    {
        !self.is_high(levels)
    }

    /// The level of the pin, given the levels of its port.
    pub fn level(&self, levels: u16) -> (r: Level)
        requires
            N < 16,
        ensures
            r == (if levels & bit_of(N) != 0 {
                Level::High
            } else {
                Level::Low
            }),
    {
        if self.is_high(levels) {
            Level::High
        } else {
            Level::Low
        }
    }

    /// Drive the pin to a level.
    pub fn set_level<E>(&self, level: Level) -> (r: Vec<Step<E>>)
        requires
            in_block::<P>(N),
        ensures
            r@ == data_steps::<E>(
                P::DATA_OFFSET,
                match level {
                    Level::High => 0x08,
                    Level::Low => 0x0a,
                },
                N,
            ),
    {
        match level {
            Level::High => self.set_high(),
            Level::Low => self.set_low(),
        }
    }
}

/// A pin that can be driven.
pub trait OutputPin {
    /// Whether there is such a pin.
    spec fn usable(&self) -> bool;

    /// How the level is driven: the bit of the pin goes to the data register at
    /// this offset.
    spec fn driven(&self, offset: usize) -> Seq<Step<()>>;

    /// Drive the pin high.
    fn set_high(&self) -> (r: Vec<Step<()>>)
        requires
            self.usable(),
        ensures
            r@ == self.driven(0x08),
    ;

    /// Drive the pin low.
    fn set_low(&self) -> (r: Vec<Step<()>>)
        requires
            self.usable(),
        ensures
            r@ == self.driven(0x0a),
    ;

    /// Invert the level of the pin.
    fn toggle(&self) -> (r: Vec<Step<()>>)
        requires
            self.usable(),
        ensures
            r@ == self.driven(0x0c),
    ;
}

/// A pin that can be read.
pub trait InputPin {
    /// Whether there is such a pin.
    spec fn readable(&self) -> bool;

    /// Whether the pin is high in the levels of its port.
    spec fn high_in(&self, levels: u16) -> bool;

    /// Whether the pin is high, given the levels of its port.
    fn is_high(&self, levels: u16) -> (r: bool)
        requires
            self.readable(),
        ensures
            r == self.high_in(levels),
    ;

    /// Whether the pin is low, given the levels of its port.
    fn is_low(&self, levels: u16) -> (r: bool)
        requires
            self.readable(),
        ensures
            r == !self.high_in(levels),
    ;
}

impl<P: Port, const N: u8> OutputPin for Pin<P, N> {
    open spec fn usable(&self) -> bool {
        in_block::<P>(N)
    }

    open spec fn driven(&self, offset: usize) -> Seq<Step<()>> {
        data_steps::<()>(P::DATA_OFFSET, offset, N)
    }

    fn set_high(&self) -> Vec<Step<()>> {
        self.write_bit(POSR_OFF)
    }

    fn set_low(&self) -> Vec<Step<()>> {
        self.write_bit(PORR_OFF)
    }

    fn toggle(&self) -> Vec<Step<()>> {
        self.write_bit(POTR_OFF)
    }
}

impl<P: Port, const N: u8> InputPin for Pin<P, N> {
    open spec fn readable(&self) -> bool {
        N < 16
    }

    open spec fn high_in(&self, levels: u16) -> bool {
        levels & bit_of(N) != 0
    }

    fn is_high(&self, levels: u16) -> bool {
        levels & (1u16 << N) != 0
    }

    fn is_low(&self, levels: u16) -> bool {
        levels & (1u16 << N) == 0
    }
}

/// The right to use pins.
pub struct Gpio {
    private: (),
}

impl Gpio {
    /// The right to use pins.
    pub fn take() -> (r: Self) {
        Gpio { private: () }
    }

    /// A pin; it must be one that the port has.
    pub fn pin<P: Port, const N: u8>(&self) -> (r: Pin<P, N>)
        requires
            N < P::PIN_COUNT,
    {
        Pin::new()
    }
}

/// Every part of a configuration can be told from the control register: no field
/// reaches into another.
pub proof fn law_control_register_fields(config: Config)
    ensures
        pcr_of(config) & 0x0001 != 0 <==> config.initial_level == Level::High,
        pcr_of(config) & 0x0002 != 0 <==> drives(config.mode),
        pcr_of(config) & 0x0040 != 0 <==> config.pull_up,
        pcr_of(config) & 0x0004 != 0 <==> config.mode == Mode::OpenDrain,
        pcr_of(config) & 0x8000 != 0 <==> config.mode == Mode::Analog,
        pcr_of(config) & 0x0030 == (match config.drive {
            Drive::Low => 0x00u16,
            Drive::Medium => 0x10,
            Drive::High => 0x20,
        }),
{
    let high = config.initial_level == Level::High;
    let out = drives(config.mode);
    let up = config.pull_up;
    let drain = config.mode == Mode::OpenDrain;
    let analog = config.mode == Mode::Analog;
    let drive: u16 = match config.drive {
        Drive::Low => 0x00u16,
        Drive::Medium => 0x10,
        Drive::High => 0x20,
    };
    assert({
        let r = (if high {
            0x0001u16
        } else {
            0
        }) | (if out {
            0x0002u16
        } else {
            0
        }) | (if up {
            0x0040u16
        } else {
            0
        }) | drive | (if drain {
            0x0004u16
        } else {
            0
        }) | (if analog {
            0x8000u16
        } else {
            0
        });
        &&& (r & 0x0001 != 0) == high
        &&& (r & 0x0002 != 0) == out
        &&& (r & 0x0040 != 0) == up
        &&& (r & 0x0004 != 0) == drain
        &&& (r & 0x8000 != 0) == analog
        &&& r & 0x0030 == drive
    }) by (bit_vector)
        requires
            drive == 0x00u16 || drive == 0x10u16 || drive == 0x20u16,
    ;
}

/// Pins of a port have different bits.
pub proof fn law_pins_do_not_share_bits(a: u8, b: u8)
    requires
        a < 16,
        b < 16,
        a != b,
    ensures
        bit_of(a) & bit_of(b) == 0,
        bit_of(a) != 0,
{
    lemma_pin_bits(0, b, a);
    lemma_pin_bits(0, a, b);
}

/// Where the ports are and how many pins they have.
pub proof fn law_ports()
    ensures
        PortA::DATA_OFFSET == 0x000 && PortA::PCR_OFFSET == 0x400 && PortA::PIN_COUNT == 16,
        PortB::DATA_OFFSET == 0x010 && PortB::PCR_OFFSET == 0x440 && PortB::PIN_COUNT == 16,
        PortC::DATA_OFFSET == 0x020 && PortC::PCR_OFFSET == 0x480 && PortC::PIN_COUNT == 16,
        PortD::DATA_OFFSET == 0x030 && PortD::PCR_OFFSET == 0x4c0 && PortD::PIN_COUNT == 16,
        PortE::DATA_OFFSET == 0x040 && PortE::PCR_OFFSET == 0x500 && PortE::PIN_COUNT == 16,
        PortH::DATA_OFFSET == 0x050 && PortH::PCR_OFFSET == 0x540 && PortH::PIN_COUNT == 3,
{
}

// ---------------------------------------------------------------------------
// What becomes of the pins
// ---------------------------------------------------------------------------

/// The registers of the port lie where those of the ports are.
pub open spec fn is_port<P: Port>() -> bool {
    P::DATA_OFFSET <= 0x050 && 0x400 <= P::PCR_OFFSET <= 0x540
}

/// The outputs of a port after a step: three registers set, clear and invert the outputs
/// whose bits are written to them.
pub open spec fn outputs_by<E>(step: Step<E>, data: usize, outputs: u16) -> u16 {
    match step {
        Step::Do(access) => if access.place == crate::mmio::half_at(
            (0x4005_3800 + data + 0x08) as usize,
        ) {
            outputs | access.set as u16
        } else if access.place == crate::mmio::half_at((0x4005_3800 + data + 0x0a) as usize) {
            outputs & !(access.set as u16)
        } else if access.place == crate::mmio::half_at((0x4005_3800 + data + 0x0c) as usize) {
            outputs ^ (access.set as u16)
        } else {
            outputs
        },
        _ => outputs,
    }
}

/// The outputs of a port after the first `n` steps.
pub open spec fn outputs_after<E>(steps: Seq<Step<E>>, n: int, data: usize, outputs: u16) -> u16
    decreases n,
{
    if n <= 0 {
        outputs
    } else {
        outputs_by(steps[n - 1], data, outputs_after(steps, n - 1, data, outputs))
    }
}

/// Setting, clearing and inverting a bit does that and leaves the other bits alone.
pub proof fn lemma_pin_bits(outputs: u16, n: u8, a: u8)
    requires
        n < 16,
        a < 16,
    ensures
        (outputs | bit_of(n)) & bit_of(n) != 0,
        (outputs & !bit_of(n)) & bit_of(n) == 0,
        (outputs ^ bit_of(n)) & bit_of(n) != 0 <==> outputs & bit_of(n) == 0,
        a != n ==> {
            &&& (outputs | bit_of(n)) & bit_of(a) == outputs & bit_of(a)
            &&& (outputs & !bit_of(n)) & bit_of(a) == outputs & bit_of(a)
            &&& (outputs ^ bit_of(n)) & bit_of(a) == outputs & bit_of(a)
            &&& bit_of(a) & bit_of(n) == 0
        },
        bit_of(n) != 0,
        ({
            let v = outputs as u32;
            let on = (v & ((!0u16) as u32)) | bit_of(n) as u32;
            let off = (v & ((!bit_of(n)) as u32)) | 0u32;
            &&& on == (outputs | bit_of(n)) as u32
            &&& off == (outputs & !bit_of(n)) as u32
        }),
        (bit_of(n) as u32) as u16 == bit_of(n),
{
    assert({
        let b = 1u16 << n;
        let c = 1u16 << a;
        let v = outputs as u32;
        let on = (v & ((!0u16) as u32)) | b as u32;
        let off = (v & ((!b) as u32)) | 0u32;
        &&& (outputs | b) & b != 0 && (outputs & !b) & b == 0 && ((outputs ^ b) & b != 0) == (outputs
            & b == 0)
        &&& a != n ==> (outputs | b) & c == outputs & c && (outputs & !b) & c == outputs & c && (
        outputs ^ b) & c == outputs & c && c & b == 0
        &&& b != 0 && on == (outputs | b) as u32 && off == (outputs & !b) as u32 && (b as u32) as u16
            == b
    }) by (bit_vector)
        requires
            n < 16u8,
            a < 16u8,
    ;
}

/// A pin that is driven high is high, one that is driven low is low, one that is inverted
/// is what it was not, and the other pins of the port stay as they are. A level that is
/// set reads back.
pub proof fn law_pins_are_driven<P: Port, const N: u8, E>(
    pin: Pin<P, N>,
    high: Vec<Step<E>>,
    low: Vec<Step<E>>,
    other: Vec<Step<E>>,
    level: Level,
    set: Vec<Step<E>>,
    outputs: u16,
    a: u8,
    shown: Level,
)
    requires
        is_port::<P>(),
        N < 16,
        a < 16,
        a != N,
        call_ensures(Pin::<P, N>::set_high::<E>, (&pin,), high),
        call_ensures(Pin::<P, N>::set_low::<E>, (&pin,), low),
        call_ensures(Pin::<P, N>::toggle::<E>, (&pin,), other),
        call_ensures(Pin::<P, N>::set_level::<E>, (&pin, level), set),
        call_ensures(
            Pin::<P, N>::level,
            (&pin, outputs_after(set@, set@.len() as int, P::DATA_OFFSET, outputs)),
            shown,
        ),
    ensures
        ({
            let up = outputs_after(high@, high@.len() as int, P::DATA_OFFSET, outputs);
            let down = outputs_after(low@, low@.len() as int, P::DATA_OFFSET, outputs);
            let over = outputs_after(other@, other@.len() as int, P::DATA_OFFSET, outputs);
            &&& up & (1u16 << N) != 0
            &&& down & (1u16 << N) == 0
            &&& over & (1u16 << N) != 0 <==> outputs & (1u16 << N) == 0
            &&& up & (1u16 << a) == outputs & (1u16 << a)
            &&& down & (1u16 << a) == outputs & (1u16 << a)
            &&& over & (1u16 << a) == outputs & (1u16 << a)
        }),
        shown == level,
{
    lemma_pin_bits(outputs, N, a);
    reveal_with_fuel(outputs_after, 6);
}

/// A pin that is configured is a GPIO, its control register holds its configuration in
/// the fields of [`law_control_register_fields`], it is driven exactly if it is an
/// output, and the registers are protected again. Other pins keep their direction.
pub proof fn law_pins_are_configured<P: Port, const N: u8, E>(
    pin: Pin<P, N>,
    config: Config,
    steps: Vec<Step<E>>,
    enabled: u16,
    before: u32,
)
    requires
        is_port::<P>(),
        N < 16,
        call_ensures(Pin::<P, N>::configure::<E>, (&pin, config), steps),
    ensures
        ({
            let control = (0x4005_3800 + P::PCR_OFFSET + 4 * N) as usize;
            let function = (0x4005_3802 + P::PCR_OFFSET + 4 * N) as usize;
            let direction = (0x4005_3806 + P::DATA_OFFSET) as usize;
            let v = crate::mmio::left_in(steps@, crate::mmio::half_at(control), before) as u16;
            let on = crate::mmio::left_in(steps@, crate::mmio::half_at(direction), enabled as u32);
            &&& v & 0x0001 != 0 <==> config.initial_level == Level::High
            &&& v & 0x0002 != 0 <==> config.mode == Mode::Output || config.mode == Mode::OpenDrain
            &&& v & 0x0004 != 0 <==> config.mode == Mode::OpenDrain
            &&& v & 0x0040 != 0 <==> config.pull_up
            &&& v & 0x8000 != 0 <==> config.mode == Mode::Analog
            &&& v & 0x0030 == (match config.drive {
                Drive::Low => 0x00u16,
                Drive::Medium => 0x10,
                Drive::High => 0x20,
            })
            &&& crate::mmio::left_in(steps@, crate::mmio::half_at(function), before) == 0
            &&& on == (if config.mode == Mode::Output || config.mode == Mode::OpenDrain {
                enabled | (1u16 << N)
            } else {
                enabled & !(1u16 << N)
            })
            &&& crate::mmio::left_in(steps@, crate::mmio::half_at(0x4005_3bfc), before) == 0xa500
        }),
{
    broadcast use crate::mmio::lemma_written;

    law_control_register_fields(config);
    lemma_pin_bits(enabled, N, 0);
    reveal_with_fuel(crate::mmio::left_after, 8);
    let control = (0x4005_3800 + P::PCR_OFFSET + 4 * N) as usize;
    let v = crate::mmio::left_in(steps@, crate::mmio::half_at(control), before);
    assert(v == pcr_of(config) as u32);
}

} // verus!
