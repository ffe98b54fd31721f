//! Clocks: oscillators, the PLL, and the frequencies that follow from them.
//!
//! The system clock comes from an internal oscillator (MRC, 8 MHz, after reset, or
//! HRC, 16 or 20 MHz), an external crystal (XTAL), or the PLL, which multiplies HRC
//! or XTAL. Before the clock becomes faster, flash, SRAM and pins are given the
//! wait cycles that they will need.
//!
//! The clock registers are write-protected; they are unlocked for the time of a
//! program only, and locked again also when an oscillator does not start.

use vstd::prelude::*;

use crate::efm;
use crate::gpio;
use crate::gpio::{Config, Drive, Level, Mode, Pin, PortH};
use crate::mmio::{Cleanup, Limit, Otherwise, Step, byte, change_byte, change_half, change_word, half, when_byte, word};

verus! {

/// The internal oscillator after reset, in Hz.
pub const MRC_HZ: u32 = 8_000_000;

const LRC_HZ: u32 = 32_768;

const XTAL32_HZ: u32 = 32_768;

const FPRC: usize = 0x4005_43fe;

const FPRC_UNLOCK: u16 = 0xa503;

const FPRC_LOCK: u16 = 0xa500;

const SCFGR: usize = 0x4005_4020;

const CKSWR: usize = 0x4005_4026;

const PLLCR: usize = 0x4005_402a;

const XTALCR: usize = 0x4005_4032;

const HRCCR: usize = 0x4005_4036;

const OSCSTBSR: usize = 0x4005_403c;

const MCO1CFGR: usize = 0x4005_403d;

const XTALSTBCR: usize = 0x4005_40a2;

const PLLCFGR: usize = 0x4005_4100;

const XTALCFGR: usize = 0x4005_4410;

const XTAL32CR: usize = 0x4005_4420;

const LRCCR: usize = 0x4005_4427;

const FCG0: usize = 0x4004_8000;

const FCG0PC: usize = 0x4004_8010;

const GPIO_PCCR: usize = 0x4005_3bf8;

const GPIO_PWPR: usize = 0x4005_3bfc;

const PWC_PWRC2: usize = 0x4005_4402;

const PWC_MDSWCR: usize = 0x4005_440f;

const HRC_STABLE: u8 = 0x01;

const XTAL_STABLE: u8 = 0x08;

const PLL_STABLE: u8 = 0x20;

/// Numbers of the sources of the system clock.
pub const CLK_SRC_HRC: u8 = 0;

pub const CLK_SRC_MRC: u8 = 1;

pub const CLK_SRC_LRC: u8 = 2;

pub const CLK_SRC_XTAL: u8 = 3;

pub const CLK_SRC_XTAL32: u8 = 4;

pub const CLK_SRC_PLL: u8 = 5;

/// Where the system clock is to come from.
#[derive(Clone, Copy, Debug, PartialEq, Eq, Structural)]
pub enum ClockSource {
    Mrc,
    Hrc,
    Xtal,
    Pll,
}

impl ClockSource {
    /// The name in the configuration.
    pub fn name(self) -> (r: &'static str)
        ensures
            r@ == (match self {
                ClockSource::Mrc => "mrc"@,
                ClockSource::Hrc => "hrc"@,
                ClockSource::Xtal => "xtal"@,
                ClockSource::Pll => "pll"@,
            }),
    {
        match self {
            ClockSource::Mrc => "mrc",
            ClockSource::Hrc => "hrc",
            ClockSource::Xtal => "xtal",
            ClockSource::Pll => "pll",
        }
    }
}

/// Why a clock could not be set up.
#[derive(Clone, Copy, Debug, PartialEq, Eq, Structural)]
pub enum ClkError {
    XtalStableTimeout,
    HrcStableTimeout,
    PllStableTimeout,
    /// The low-speed oscillator is the system clock and cannot be stopped.
    LrcBusy,
    /// The low-speed crystal is the system clock and cannot be stopped.
    Xtal32Busy,
}

/// What became of the external crystal.
#[derive(Clone, Copy, Debug, PartialEq, Eq, Structural)]
pub enum XtalStatus {
    NotAttempted,
    Active,
    Failed,
}

/// What is recorded when the crystal is in use.
pub const STATUS_ACTIVE: u8 = 1;

/// What is recorded when the crystal did not start.
pub const STATUS_FAILED: u8 = 2;

/// What became of the external crystal, given what was recorded.
pub fn xtal_status(record: u8) -> (r: XtalStatus)
    ensures
        r == (if record == 1 {
            XtalStatus::Active
        } else if record == 2 {
            XtalStatus::Failed
        } else {
            XtalStatus::NotAttempted
        }),
{
    if record == STATUS_ACTIVE {
        XtalStatus::Active
    } else if record == STATUS_FAILED {
        XtalStatus::Failed
    } else {
        XtalStatus::NotAttempted
    }
}

/// The parameters of the PLL: each divider and the multiplier stand for one more
/// than their value.
#[derive(Clone, Copy, Debug, PartialEq, Eq, Structural)]
pub struct PllConfig {
    /// 0 for XTAL, 1 for HRC.
    pub src: u32,
    pub m: u32,
    pub n: u32,
    pub p: u32,
    pub q: u32,
    pub r: u32,
}

/// The dividers of the buses: 1, 2, 4, 8 or 16.
#[derive(Clone, Copy, Debug, PartialEq, Eq, Structural)]
pub struct Dividers {
    pub hclk: u32,
    pub pclk0: u32,
    pub pclk1: u32,
    pub pclk2: u32,
    pub pclk3: u32,
    pub pclk4: u32,
    pub exclk: u32,
}

/// The external crystal.
#[derive(Clone, Copy, Debug, PartialEq, Eq, Structural)]
pub struct Crystal {
    pub hz: u32,
    /// The code of the time in which it becomes stable.
    pub stable_time: u8,
    /// The code of its drive strength, 0 to 3.
    pub drive: u8,
    /// Whether it is driven more strongly than that.
    pub super_drive: bool,
}

/// The registers that the frequencies follow from.
#[derive(Clone, Copy, Debug, PartialEq, Eq, Structural)]
pub struct ClockRegs {
    /// The source of the system clock.
    pub ckswr: u8,
    /// The dividers of the buses.
    pub scfgr: u32,
    /// The parameters of the PLL.
    pub pllcfgr: u32,
    /// The hardware configuration, which says how fast HRC is.
    pub icg1: u32,
}

// ---------------------------------------------------------------------------
// Frequencies
// ---------------------------------------------------------------------------

/// The frequency of HRC.
pub open spec fn hrc_of(icg1: u32) -> u32 {
    if icg1 & 1 != 0 {
        16_000_000
    } else {
        20_000_000
    }
}

/// What the PLL multiplies.
pub open spec fn pll_source(pllcfgr: u32, icg1: u32, xtal_hz: u32) -> u32 {
    if pllcfgr & 0x80 != 0 {
        hrc_of(icg1)
    } else {
        xtal_hz
    }
}

/// The frequency of the oscillator in the PLL.
pub open spec fn pll_vco(pllcfgr: u32, icg1: u32, xtal_hz: u32) -> int {
    (pll_source(pllcfgr, icg1, xtal_hz) as int / ((pllcfgr & 0x1f) + 1)) * (((pllcfgr >> 8u32)
        & 0x1ff) + 1)
}

/// The frequency of the PLL.
pub open spec fn pll_of(pllcfgr: u32, icg1: u32, xtal_hz: u32) -> int {
    pll_vco(pllcfgr, icg1, xtal_hz) / (((pllcfgr >> 28u32) & 0xf) + 1)
}

/// The frequency of the PLL fits into 32 bits, if it is the system clock.
pub open spec fn in_bounds(regs: ClockRegs, xtal_hz: u32) -> bool {
    regs.ckswr & 0x7 == 5 ==> pll_vco(regs.pllcfgr, regs.icg1, xtal_hz) <= u32::MAX
}

/// The frequency of the system clock; 0 for a source that does not exist.
pub open spec fn system_of(regs: ClockRegs, xtal_hz: u32) -> int {
    let source = regs.ckswr & 0x7;
    if source == 0 {
        hrc_of(regs.icg1) as int
    } else if source == 1 {
        8_000_000
    } else if source == 2 {
        32_768
    } else if source == 3 {
        xtal_hz as int
    } else if source == 4 {
        32_768
    } else if source == 5 {
        pll_of(regs.pllcfgr, regs.icg1, xtal_hz)
    } else {
        0
    }
}

fn hrc_hz(icg1: u32) -> (r: u32)
    ensures
        r == hrc_of(icg1),
{
    if icg1 & 1 != 0 {
        16_000_000
    } else {
        20_000_000
    }
}

/// The frequency of the PLL.
pub fn pll_hz(pllcfgr: u32, icg1: u32, xtal_hz: u32) -> (r: u32)
    requires
        pll_vco(pllcfgr, icg1, xtal_hz) <= u32::MAX,
    ensures
        r == pll_of(pllcfgr, icg1, xtal_hz),
{
    let m: u32 = pllcfgr & 0x1f;
    let n: u32 = (pllcfgr >> 8u32) & 0x1ff;
    let p: u32 = (pllcfgr >> 28u32) & 0xf;
    assert(pllcfgr & 0x1f <= 0x1f && (pllcfgr >> 8u32) & 0x1ff <= 0x1ff && (pllcfgr >> 28u32) & 0xf
        <= 0xf) by (bit_vector);
    let source: u32 = if pllcfgr & 0x80 != 0 {
        hrc_hz(icg1)
    } else {
        xtal_hz
    };
    let input: u32 = source / (m + 1);
    let vco: u32 = input * (n + 1);
    vco / (p + 1)
}

/// Whether the oscillator in the PLL keeps within 32 bits.
pub fn pll_fits(pllcfgr: u32, icg1: u32, xtal_hz: u32) -> (r: bool)
    ensures
        r == (pll_vco(pllcfgr, icg1, xtal_hz) <= u32::MAX),
{
    let source: u32 = if pllcfgr & 0x80 != 0 {
        hrc_hz(icg1)
    } else {
        xtal_hz
    };
    assert((pllcfgr & 0x1f) <= 0x1f && ((pllcfgr >> 8u32) & 0x1ff) <= 0x1ff) by (bit_vector);
    let divided: u32 = source / ((pllcfgr & 0x1f) + 1);
    let factor: u32 = ((pllcfgr >> 8u32) & 0x1ff) + 1;
    assert(0 <= divided * factor <= u32::MAX * 0x200) by (nonlinear_arith)
        requires
            divided <= u32::MAX,
            factor <= 0x200,
    ;
    divided as u64 * factor as u64 <= u32::MAX as u64
}

/// What drives the system clock, given the register that selects it; `None` if it is
/// none of the sources that can be configured.
pub fn active_source(ckswr: u8) -> (r: Option<ClockSource>)
    ensures
        r == (if ckswr & 0x7 == CLK_SRC_HRC {
            Some(ClockSource::Hrc)
        } else if ckswr & 0x7 == CLK_SRC_MRC {
            Some(ClockSource::Mrc)
        } else if ckswr & 0x7 == CLK_SRC_XTAL {
            Some(ClockSource::Xtal)
        } else if ckswr & 0x7 == CLK_SRC_PLL {
            Some(ClockSource::Pll)
        } else {
            None
        }),
{
    let source: u8 = ckswr & 0x7;
    if source == CLK_SRC_HRC {
        Some(ClockSource::Hrc)
    } else if source == CLK_SRC_MRC {
        Some(ClockSource::Mrc)
    } else if source == CLK_SRC_XTAL {
        Some(ClockSource::Xtal)
    } else if source == CLK_SRC_PLL {
        Some(ClockSource::Pll)
    } else {
        None
    }
}

/// The frequency of the system clock.
pub fn system_clock_hz(regs: ClockRegs, xtal_hz: u32) -> (r: u32)
    requires
        in_bounds(regs, xtal_hz),
    ensures
        r == system_of(regs, xtal_hz),
{
    let source: u8 = regs.ckswr & 0x7;
    if source == CLK_SRC_HRC {
        hrc_hz(regs.icg1)
    } else if source == CLK_SRC_MRC {
        MRC_HZ
    } else if source == CLK_SRC_LRC {
        LRC_HZ
    } else if source == CLK_SRC_XTAL {
        xtal_hz
    } else if source == CLK_SRC_XTAL32 {
        XTAL32_HZ
    } else if source == CLK_SRC_PLL {
        pll_hz(regs.pllcfgr, regs.icg1, xtal_hz)
    } else {
        0
    }
}

/// The frequency of a bus: the system clock, halved as often as its field in the
/// divider register says.
pub open spec fn bus_of(regs: ClockRegs, xtal_hz: u32, pos: u32) -> u32 {
    (system_of(regs, xtal_hz) as u32) >> ((regs.scfgr >> pos) & 0x7)
}

fn bus_hz(regs: ClockRegs, xtal_hz: u32, pos: u32) -> (r: u32)
    requires
        in_bounds(regs, xtal_hz),
        pos < 32,
    ensures
        r == bus_of(regs, xtal_hz, pos),
{
    let scfgr: u32 = regs.scfgr;
    assert((scfgr >> pos) & 0x7 <= 7) by (bit_vector);
    system_clock_hz(regs, xtal_hz) >> ((scfgr >> pos) & 0x7)
}

/// The frequency of HCLK.
pub fn hclk_hz(regs: ClockRegs, xtal_hz: u32) -> (r: u32)
    requires
        in_bounds(regs, xtal_hz),
    ensures
        r == bus_of(regs, xtal_hz, 24),
{
    bus_hz(regs, xtal_hz, 24)
}

/// The frequency of PCLK0.
pub fn pclk0_hz(regs: ClockRegs, xtal_hz: u32) -> (r: u32)
    requires
        in_bounds(regs, xtal_hz),
    ensures
        r == bus_of(regs, xtal_hz, 0),
{
    bus_hz(regs, xtal_hz, 0)
}

/// The frequency of PCLK1.
pub fn pclk1_hz(regs: ClockRegs, xtal_hz: u32) -> (r: u32)
    requires
        in_bounds(regs, xtal_hz),
    ensures
        r == bus_of(regs, xtal_hz, 4),
{
    bus_hz(regs, xtal_hz, 4)
}

/// The frequency of PCLK2.
pub fn pclk2_hz(regs: ClockRegs, xtal_hz: u32) -> (r: u32)
    requires
        in_bounds(regs, xtal_hz),
    ensures
        r == bus_of(regs, xtal_hz, 8),
{
    bus_hz(regs, xtal_hz, 8)
}

/// The frequency of PCLK3.
pub fn pclk3_hz(regs: ClockRegs, xtal_hz: u32) -> (r: u32)
    requires
        in_bounds(regs, xtal_hz),
    ensures
        r == bus_of(regs, xtal_hz, 12),
{
    bus_hz(regs, xtal_hz, 12)
}

/// The frequency of PCLK4.
pub fn pclk4_hz(regs: ClockRegs, xtal_hz: u32) -> (r: u32)
    requires
        in_bounds(regs, xtal_hz),
    ensures
        r == bus_of(regs, xtal_hz, 16),
{
    bus_hz(regs, xtal_hz, 16)
}

/// The frequency of EXCLK.
pub fn exclk_hz(regs: ClockRegs, xtal_hz: u32) -> (r: u32)
    requires
        in_bounds(regs, xtal_hz),
    ensures
        r == bus_of(regs, xtal_hz, 20),
{
    bus_hz(regs, xtal_hz, 20)
}

// ---------------------------------------------------------------------------
// Oscillators
// ---------------------------------------------------------------------------

/// The clock registers are unlocked.
pub open spec fn unlocking() -> Step<ClkError> {
    Step::Do(half(0x4005_43fe, 0xa503))
}

/// The clock registers are locked.
pub open spec fn locking() -> Step<ClkError> {
    Step::Do(half(0x4005_43fe, 0xa500))
}

/// An oscillator is waited for, for about a million readings; if it does not become
/// stable, the registers are locked.
pub open spec fn stable_wait(flag: u8, error: ClkError) -> Step<ClkError> {
    Step::Wait {
        check: when_byte(0x4005_403c, flag, flag),
        limit: Limit::Readings(1_000_001),
        otherwise: Otherwise::Fail { cleanup: Cleanup::One(half(0x4005_43fe, 0xa500)), error },
    }
}

fn unlock() -> (r: Step<ClkError>)
    ensures
        r == unlocking(),
{
    Step::Do(half(FPRC, FPRC_UNLOCK))
}

fn lock() -> (r: Step<ClkError>)
    ensures
        r == locking(),
{
    Step::Do(half(FPRC, FPRC_LOCK))
}

fn wait_stable(flag: u8, error: ClkError) -> (r: Step<ClkError>)
    ensures
        r == stable_wait(flag, error),
{
    Step::Wait {
        check: when_byte(OSCSTBSR, flag, flag),
        limit: Limit::Readings(1_000_001),
        otherwise: Otherwise::Fail { cleanup: Cleanup::One(half(FPRC, FPRC_LOCK)), error },
    }
}

/// An oscillator is switched by its register; 0 lets it run. If it is to run, it is
/// waited for.
pub open spec fn oscillator_steps(register: usize, enable: bool, flag: u8, error: ClkError) -> Seq<
    Step<ClkError>,
> {
    if enable {
        seq![unlocking(), Step::Do(byte(register, 0)), stable_wait(flag, error), locking()]
    } else {
        seq![unlocking(), Step::Do(byte(register, 1)), locking()]
    }
}

fn oscillator(register: usize, enable: bool, flag: u8, error: ClkError) -> (r: Vec<Step<ClkError>>)
    ensures
        r@ == oscillator_steps(register, enable, flag, error),
{
    if enable {
        vec![unlock(), Step::Do(byte(register, 0)), wait_stable(flag, error), lock()]
    } else {
        vec![unlock(), Step::Do(byte(register, 1)), lock()]
    }
}

/// Switch HRC on or off.
pub fn hrc_cmd(enable: bool) -> (r: Vec<Step<ClkError>>)
    ensures
        r@ == oscillator_steps(0x4005_4036, enable, 0x01, ClkError::HrcStableTimeout),
{
    oscillator(HRCCR, enable, HRC_STABLE, ClkError::HrcStableTimeout)
}

/// Switch XTAL on or off, after it has been set up once. A failure is recorded as
/// [`STATUS_FAILED`].
pub fn xtal_cmd(enable: bool) -> (r: Vec<Step<ClkError>>)
    ensures
        r@ == oscillator_steps(0x4005_4032, enable, 0x08, ClkError::XtalStableTimeout),
{
    oscillator(XTALCR, enable, XTAL_STABLE, ClkError::XtalStableTimeout)
}

/// A low-speed oscillator is switched, and given time to start.
pub open spec fn slow_steps(register: usize, enable: bool) -> Seq<Step<ClkError>> {
    seq![
        unlocking(),
        Step::Do(
            byte(
                register,
                if enable {
                    0
                } else {
                    1
                },
            ),
        ),
        locking(),
        Step::Pause(160),
    ]
}

fn slow(register: usize, enable: bool) -> (r: Vec<Step<ClkError>>)
    ensures
        r@ == slow_steps(register, enable),
{
    let value: u8 = if enable {
        0
    } else {
        1
    };
    vec![unlock(), Step::Do(byte(register, value)), lock(), Step::Pause(160)]
}

/// Switch LRC on or off; off only if it is not the system clock.
pub fn lrc_cmd(enable: bool, system_hz: u32) -> (r: Result<Vec<Step<ClkError>>, ClkError>)
    ensures
        match r {
            Ok(steps) => (enable || system_hz != 32_768) && steps@ == slow_steps(
                0x4005_4427,
                enable,
            ),
            Err(e) => e == ClkError::LrcBusy && !enable && system_hz == 32_768,
        },
{
    if !enable && system_hz == LRC_HZ {
        return Err(ClkError::LrcBusy);
    }
    Ok(slow(LRCCR, enable))
}

/// Switch XTAL32 on or off; off only if it is not the system clock.
pub fn xtal32_cmd(enable: bool, system_hz: u32) -> (r: Result<Vec<Step<ClkError>>, ClkError>)
    ensures
        match r {
            Ok(steps) => (enable || system_hz != 32_768) && steps@ == slow_steps(
                0x4005_4420,
                enable,
            ),
            Err(e) => e == ClkError::Xtal32Busy && !enable && system_hz == 32_768,
        },
{
    if !enable && system_hz == XTAL32_HZ {
        return Err(ClkError::Xtal32Busy);
    }
    Ok(slow(XTAL32CR, enable))
}

/// A pin that the crystal is connected to.
pub open spec fn crystal_pin() -> Config {
    Config {
        mode: Mode::Analog,
        pull_up: false,
        drive: Drive::Low,
        initial_level: Level::Low,
    }
}

/// How the crystal is driven, as its register holds it.
pub open spec fn drive_register(crystal: Crystal) -> u8 {
    (crystal.drive << 4u8) | (if crystal.super_drive {
        0x80u8
    } else {
        0
    })
}

/// The crystal is set up and started: its pins, the time it takes, its drive.
pub open spec fn xtal_steps(crystal: Crystal) -> Seq<Step<ClkError>> {
    gpio::configure_steps::<ClkError>(0x050, 0x540, 0, crystal_pin()) + gpio::configure_steps::<
        ClkError,
    >(0x050, 0x540, 1, crystal_pin()) + seq![
        unlocking(),
        Step::Do(byte(0x4005_40a2, crystal.stable_time)),
        Step::Do(byte(0x4005_4410, drive_register(crystal))),
        Step::Do(byte(0x4005_4032, 0)),
        stable_wait(0x08, ClkError::XtalStableTimeout),
        locking(),
    ]
}

/// Set up and start the external crystal. A failure is recorded as
/// [`STATUS_FAILED`].
pub fn xtal_init(crystal: Crystal) -> (r: Vec<Step<ClkError>>)
    ensures
        r@ == xtal_steps(crystal),
{
    let pin: Config = Config {
        mode: Mode::Analog,
        pull_up: false,
        drive: Drive::Low,
        initial_level: Level::Low,
    };
    proof {
        gpio::law_ports();
    }
    let output: Pin<PortH, 0> = Pin::new();
    let input: Pin<PortH, 1> = Pin::new();
    let mut out: Vec<Step<ClkError>> = output.configure(pin);
    let mut second: Vec<Step<ClkError>> = input.configure(pin);
    out.append(&mut second);
    out.push(unlock());
    out.push(Step::Do(byte(XTALSTBCR, crystal.stable_time)));
    let strong: u8 = if crystal.super_drive {
        0x80
    } else {
        0
    };
    out.push(Step::Do(byte(XTALCFGR, (crystal.drive << 4u8) | strong)));
    out.push(Step::Do(byte(XTALCR, 0)));
    out.push(wait_stable(XTAL_STABLE, ClkError::XtalStableTimeout));
    out.push(lock());
    assert(out@ =~= xtal_steps(crystal));
    out
}

// ---------------------------------------------------------------------------
// PLL
// ---------------------------------------------------------------------------

/// The parameters of the PLL as its register holds them.
pub open spec fn pll_register(cfg: PllConfig) -> u32 {
    (cfg.m & 0x1f) | ((cfg.src & 0x1) << 7u32) | ((cfg.n & 0x1ff) << 8u32) | ((cfg.r & 0xf)
        << 20u32) | ((cfg.q & 0xf) << 24u32) | ((cfg.p & 0xf) << 28u32)
}

/// The parameters of the PLL as its register holds them.
pub fn pllcfgr_value(cfg: PllConfig) -> (r: u32)
    ensures
        r == pll_register(cfg),
{
    (cfg.m & 0x1f) | ((cfg.src & 0x1) << 7u32) | ((cfg.n & 0x1ff) << 8u32) | ((cfg.r & 0xf)
        << 20u32) | ((cfg.q & 0xf) << 24u32) | ((cfg.p & 0xf) << 28u32)
}

/// The PLL is set up; once what it multiplies is stable it is started and waited
/// for.
pub open spec fn pll_steps(cfg: PllConfig) -> Seq<Step<ClkError>> {
    seq![
        unlocking(),
        Step::Do(word(0x4005_4100, pll_register(cfg))),
        stable_wait(
            if cfg.src == 0 {
                0x08
            } else {
                0x01
            },
            ClkError::XtalStableTimeout,
        ),
        Step::Do(byte(0x4005_402a, 0)),
        stable_wait(0x20, ClkError::PllStableTimeout),
        locking(),
    ]
}

/// Set up and start the PLL.
pub fn pll_init(cfg: PllConfig) -> (r: Vec<Step<ClkError>>)
    ensures
        r@ == pll_steps(cfg),
{
    let flag: u8 = if cfg.src == 0 {
        XTAL_STABLE
    } else {
        HRC_STABLE
    };
    vec![
        unlock(),
        Step::Do(word(PLLCFGR, pllcfgr_value(cfg))),
        wait_stable(flag, ClkError::XtalStableTimeout),
        Step::Do(byte(PLLCR, 0)),
        wait_stable(PLL_STABLE, ClkError::PllStableTimeout),
        lock(),
    ]
}

/// Parameters that fit into their fields can be read back from the register, and
/// the frequency of the PLL is what they say.
pub proof fn law_pll_frequency(cfg: PllConfig, icg1: u32, xtal_hz: u32)
    requires
        cfg.src <= 1,
        cfg.m <= 31,
        cfg.n <= 511,
        cfg.p <= 15,
        cfg.q <= 15,
        cfg.r <= 15,
    ensures
        ({
            let source = if cfg.src == 0 {
                xtal_hz
            } else {
                hrc_of(icg1)
            };
            pll_of(pll_register(cfg), icg1, xtal_hz) == (source as int / (cfg.m + 1)) * (cfg.n + 1)
                / (cfg.p + 1)
        }),
{
    lemma_pll_fields(cfg);
}

proof fn lemma_pll_fields(cfg: PllConfig)
    requires
        cfg.src <= 1,
        cfg.m <= 31,
        cfg.n <= 511,
        cfg.p <= 15,
        cfg.q <= 15,
        cfg.r <= 15,
    ensures
        ({
            let v = pll_register(cfg);
            &&& v & 0x1f == cfg.m
            &&& (v >> 7u32) & 0x1 == cfg.src
            &&& v & 0x80 != 0 <==> cfg.src == 1
            &&& (v >> 8u32) & 0x1ff == cfg.n
            &&& (v >> 20u32) & 0xf == cfg.r
            &&& (v >> 24u32) & 0xf == cfg.q
            &&& (v >> 28u32) & 0xf == cfg.p
        }),
{
    let src = cfg.src;
    let m = cfg.m;
    let n = cfg.n;
    let p = cfg.p;
    let q = cfg.q;
    let r = cfg.r;
    assert({
        let v = (m & 0x1f) | ((src & 0x1) << 7u32) | ((n & 0x1ff) << 8u32) | ((r & 0xf) << 20u32)
            | ((q & 0xf) << 24u32) | ((p & 0xf) << 28u32);
        v & 0x1f == m && (v >> 8u32) & 0x1ff == n && (v >> 28u32) & 0xf == p && ((v & 0x80 != 0) == (
        src == 1)) && (v >> 7u32) & 0x1 == src && (v >> 20u32) & 0xf == r && (v >> 24u32) & 0xf == q
    }) by (bit_vector)
        requires
            src <= 1u32,
            m <= 31u32,
            n <= 511u32,
            p <= 15u32,
            q <= 15u32,
            r <= 15u32,
    ;
}

// ---------------------------------------------------------------------------
// Switching
// ---------------------------------------------------------------------------

/// `div` is a divider of a bus.
pub open spec fn is_divider(div: u32) -> bool {
    div == 1 || div == 2 || div == 4 || div == 8 || div == 16
}

pub open spec fn are_dividers(d: Dividers) -> bool {
    is_divider(d.hclk) && is_divider(d.pclk0) && is_divider(d.pclk1) && is_divider(d.pclk2)
        && is_divider(d.pclk3) && is_divider(d.pclk4) && is_divider(d.exclk)
}

/// The code of a divider: how often the clock is halved.
pub open spec fn code_of(div: u32) -> u32 {
    if div == 1 {
        0
    } else if div == 2 {
        1
    } else if div == 4 {
        2
    } else if div == 8 {
        3
    } else {
        4
    }
}

fn div_code(div: u32) -> (r: u32)
    requires
        is_divider(div),
    ensures
        r == code_of(div),
{
    if div == 1 {
        0
    } else if div == 2 {
        1
    } else if div == 4 {
        2
    } else if div == 8 {
        3
    } else {
        4
    }
}

/// The dividers as their register holds them.
pub open spec fn divider_register(d: Dividers) -> u32 {
    (code_of(d.pclk0) << 0u32) | (code_of(d.pclk1) << 4u32) | (code_of(d.pclk2) << 8u32) | (code_of(
        d.pclk3,
    ) << 12u32) | (code_of(d.pclk4) << 16u32) | (code_of(d.exclk) << 20u32) | (code_of(d.hclk)
        << 24u32)
}

/// The dividers of the buses are set.
pub open spec fn divider_steps(d: Dividers) -> Seq<Step<ClkError>> {
    seq![
        unlocking(),
        Step::Do(word(0x4005_4020, divider_register(d))),
        Step::Spin(200),
        locking(),
    ]
}

/// Set the dividers of the buses.
pub fn set_bus_clock_div(d: Dividers) -> (r: Vec<Step<ClkError>>)
    requires
        are_dividers(d),
    ensures
        r@ == divider_steps(d),
{
    let scfgr: u32 = (div_code(d.pclk0) << 0u32) | (div_code(d.pclk1) << 4u32) | (div_code(d.pclk2)
        << 8u32) | (div_code(d.pclk3) << 12u32) | (div_code(d.pclk4) << 16u32) | (div_code(d.exclk)
        << 20u32) | (div_code(d.hclk) << 24u32);
    vec![unlock(), Step::Do(word(SCFGR, scfgr)), Step::Spin(200), lock()]
}

/// The system clock is taken from a source.
pub open spec fn source_steps(source: u8) -> Seq<Step<ClkError>> {
    seq![unlocking(), Step::Do(byte(0x4005_4026, source)), Step::Spin(200), locking()]
}

fn select_source(source: u8) -> (r: Vec<Step<ClkError>>)
    ensures
        r@ == source_steps(source),
{
    vec![unlock(), Step::Do(byte(CKSWR, source)), Step::Spin(200), lock()]
}

/// A switch to a clock of `hz`: flash and SRAM are given their wait cycles first.
pub open spec fn switch_steps(hz: u32, sram: Seq<Step<ClkError>>, source: u8) -> Seq<
    Step<ClkError>,
> {
    efm::wait_cycle_steps::<ClkError>(hz) + sram + source_steps(source)
}

fn switch_to(hz: u32, sram: Vec<Step<ClkError>>, source: u8) -> (r: Vec<Step<ClkError>>)
    ensures
        r@ == switch_steps(hz, sram@, source),
{
    let mut out: Vec<Step<ClkError>> = efm::set_wait_cycle(hz);
    let mut sram: Vec<Step<ClkError>> = sram;
    let mut select: Vec<Step<ClkError>> = select_source(source);
    out.append(&mut sram);
    out.append(&mut select);
    out
}

/// Take the system clock from HRC; `sram` gives the SRAM its wait cycles.
pub fn switch_to_hrc(icg1: u32, sram: Vec<Step<ClkError>>) -> (r: Vec<Step<ClkError>>)
    ensures
        r@ == switch_steps(hrc_of(icg1), sram@, 0),
{
    switch_to(hrc_hz(icg1), sram, CLK_SRC_HRC)
}

/// Take the system clock from the crystal; `sram` gives the SRAM its wait cycles.
/// This is recorded as [`STATUS_ACTIVE`].
pub fn switch_to_xtal(xtal_hz: u32, sram: Vec<Step<ClkError>>) -> (r: Vec<Step<ClkError>>)
    ensures
        r@ == switch_steps(xtal_hz, sram@, 3),
{
    switch_to(xtal_hz, sram, CLK_SRC_XTAL)
}

/// Pins are read with three wait cycles, and power is supplied for the highest
/// clock.
pub open spec fn performance_steps() -> Seq<Step<ClkError>> {
    seq![
        Step::Do(half(0x4005_3bfc, 0xa501)),
        Step::Do(change_half(0x4005_3bf8, 0xc000, 0xc000)),
        Step::Do(half(0x4005_3bfc, 0xa500)),
        Step::Do(change_byte(0x4005_4402, 0x3f, 0x0f)),
        Step::Do(byte(0x4005_440f, 0x10)),
        Step::Spin(200),
        Step::Spin(200),
    ]
}

fn high_performance() -> (r: Vec<Step<ClkError>>)
    ensures
        r@ == performance_steps(),
{
    vec![
        Step::Do(half(GPIO_PWPR, 0xa501)),
        Step::Do(change_half(GPIO_PCCR, 0xc000, 0xc000)),
        Step::Do(half(GPIO_PWPR, 0xa500)),
        Step::Do(change_byte(PWC_PWRC2, 0x3f, 0x0f)),
        Step::Do(byte(PWC_MDSWCR, 0x10)),
        Step::Spin(200),
        Step::Spin(200),
    ]
}

/// The system clock is taken from the PLL, which runs at `hz`.
pub open spec fn pll_switch_steps(hz: u32, sram: Seq<Step<ClkError>>) -> Seq<Step<ClkError>> {
    efm::wait_cycle_steps::<ClkError>(hz) + sram + performance_steps() + source_steps(5)
}

/// Take the system clock from the PLL, given the register with its parameters;
/// `sram` gives the SRAM its wait cycles. If the PLL multiplies the crystal, this
/// is recorded as [`STATUS_ACTIVE`].
pub fn switch_to_pll(pllcfgr: u32, icg1: u32, xtal_hz: u32, sram: Vec<Step<ClkError>>) -> (r: Vec<
    Step<ClkError>,
>)
    requires
        pll_vco(pllcfgr, icg1, xtal_hz) <= u32::MAX,
    ensures
        r@ == pll_switch_steps(pll_of(pllcfgr, icg1, xtal_hz) as u32, sram@),
{
    let mut out: Vec<Step<ClkError>> = efm::set_wait_cycle(pll_hz(pllcfgr, icg1, xtal_hz));
    let mut sram: Vec<Step<ClkError>> = sram;
    let mut power: Vec<Step<ClkError>> = high_performance();
    let mut select: Vec<Step<ClkError>> = select_source(CLK_SRC_PLL);
    out.append(&mut sram);
    out.append(&mut power);
    out.append(&mut select);
    out
}

// ---------------------------------------------------------------------------
// Setting up everything
// ---------------------------------------------------------------------------

/// What gives the SRAM its wait cycles for the clocks there may be.
pub struct SramWaits {
    pub hrc: Vec<Step<ClkError>>,
    pub xtal: Vec<Step<ClkError>>,
    pub pll: Vec<Step<ClkError>>,
}

/// How the clocks are set up. `start` comes first; if it fails, so does the whole.
/// `pll` comes next, where there is one, and then `switch`, or `fallback` if the
/// PLL did not start.
pub struct Plan {
    pub start: Vec<Step<ClkError>>,
    pub pll: Option<Vec<Step<ClkError>>>,
    pub switch: Vec<Step<ClkError>>,
    pub fallback: Vec<Step<ClkError>>,
}

/// The plan leaves the clock as it is after reset.
pub open spec fn is_idle(plan: Plan) -> bool {
    plan.start@.len() == 0 && plan.pll is None && plan.switch@.len() == 0 && plan.fallback@.len()
        == 0
}

/// Set up the clocks.
///
/// With the PLL, what it multiplies is started and the buses are divided before it;
/// if it does not start, the system runs on what it would have multiplied.
pub fn init(
    source: ClockSource,
    pll: PllConfig,
    crystal: Crystal,
    dividers: Dividers,
    icg1: u32,
    sram: SramWaits,
) -> (r: Plan)
    requires
        source == ClockSource::Pll ==> {
            &&& are_dividers(dividers)
            &&& pll_vco(pll_register(pll), icg1, crystal.hz) <= u32::MAX
        },
    ensures
        match source {
            ClockSource::Mrc => is_idle(r),
            ClockSource::Hrc => {
                &&& r.start@ == oscillator_steps(
                    0x4005_4036,
                    true,
                    0x01,
                    ClkError::HrcStableTimeout,
                )
                &&& r.pll is None
                &&& r.switch@ == switch_steps(hrc_of(icg1), sram.hrc@, 0)
                &&& r.fallback@.len() == 0
            },
            ClockSource::Xtal => {
                &&& r.start@ == xtal_steps(crystal)
                &&& r.pll is None
                &&& r.switch@ == switch_steps(crystal.hz, sram.xtal@, 3)
                &&& r.fallback@.len() == 0
            },
            ClockSource::Pll => {
                &&& r.start@ == (if pll.src == 0 {
                    xtal_steps(crystal)
                } else {
                    oscillator_steps(0x4005_4036, true, 0x01, ClkError::HrcStableTimeout)
                }) + divider_steps(dividers)
                &&& r.pll matches Some(steps) && steps@ == pll_steps(pll)
                &&& r.switch@ == pll_switch_steps(
                    pll_of(pll_register(pll), icg1, crystal.hz) as u32,
                    sram.pll@,
                )
                &&& r.fallback@ == (if pll.src == 0 {
                    switch_steps(crystal.hz, sram.xtal@, 3)
                } else {
                    switch_steps(hrc_of(icg1), sram.hrc@, 0)
                })
            },
        },
{
    match source {
        ClockSource::Mrc => Plan {
            start: Vec::new(),
            pll: None,
            switch: Vec::new(),
            fallback: Vec::new(),
        },
        ClockSource::Hrc => Plan {
            start: hrc_cmd(true),
            pll: None,
            switch: switch_to_hrc(icg1, sram.hrc),
            fallback: Vec::new(),
        },
        ClockSource::Xtal => Plan {
            start: xtal_init(crystal),
            pll: None,
            switch: switch_to_xtal(crystal.hz, sram.xtal),
            fallback: Vec::new(),
        },
        ClockSource::Pll => {
            let mut start: Vec<Step<ClkError>> = if pll.src == 0 {
                xtal_init(crystal)
            } else {
                hrc_cmd(true)
            };
            let mut divide: Vec<Step<ClkError>> = set_bus_clock_div(dividers);
            start.append(&mut divide);
            let fallback: Vec<Step<ClkError>> = if pll.src == 0 {
                switch_to_xtal(crystal.hz, sram.xtal)
            } else {
                switch_to_hrc(icg1, sram.hrc)
            };
            Plan {
                start,
                pll: Some(pll_init(pll)),
                switch: switch_to_pll(pllcfgr_value(pll), icg1, crystal.hz, sram.pll),
                fallback,
            }
        },
    }
}

impl Plan {
    /// What comes after the PLL, given what came of it.
    pub fn after_pll(self, outcome: Result<(), ClkError>) -> (r: Vec<Step<ClkError>>)
        ensures
            r == (if outcome is Ok {
                self.switch
            } else {
                self.fallback
            }),
    {
        if outcome.is_ok() {
            self.switch
        } else {
            self.fallback
        }
    }
}

/// What is recorded of the crystal when the plan has been carried out, given what
/// came of its start.
pub fn record_after(
    source: ClockSource,
    pll_src: u32,
    start: Result<(), ClkError>,
) -> (r: u8)
    ensures
        r == (if source == ClockSource::Xtal || (source == ClockSource::Pll && pll_src == 0) {
            if start is Ok {
                1u8
            } else {
                2
            }
        } else {
            0
        }),
{
    let crystal: bool = match source {
        ClockSource::Xtal => true,
        ClockSource::Pll => pll_src == 0,
        _ => false,
    };
    if !crystal {
        return 0;
    }
    if start.is_ok() {
        STATUS_ACTIVE
    } else {
        STATUS_FAILED
    }
}

/// Peripherals are given their clock, with the protection of the clock gates lifted
/// for the moment.
pub open spec fn gate_steps<E>(bits: u32) -> Seq<Step<E>> {
    seq![
        Step::<E>::Do(word(0x4004_8010, 0xa5a5_0001)),
        Step::<E>::Do(change_word(0x4004_8000, bits, 0)),
        Step::<E>::Do(word(0x4004_8010, 0xa5a5_0000)),
    ]
}

/// Give peripherals their clock; `bits` are their gates.
pub fn fcg0_enable<E>(bits: u32) -> (r: Vec<Step<E>>)
    ensures
        r@ == gate_steps::<E>(bits),
{
    vec![
        Step::Do(word(FCG0PC, 0xa5a5_0001)),
        Step::Do(change_word(FCG0, bits, 0)),
        Step::Do(word(FCG0PC, 0xa5a5_0000)),
    ]
}

// ---------------------------------------------------------------------------
// Clock output
// ---------------------------------------------------------------------------

/// The clock that is put out.
#[derive(Clone, Copy, Debug, PartialEq, Eq, Structural)]
pub enum McoSource {
    Hrc,
    Mrc,
    Lrc,
    Xtal,
    Xtal32,
    PllP,
    PllQ,
    Hclk,
}

/// The divider of the clock output.
#[derive(Clone, Copy, Debug, PartialEq, Eq, Structural)]
pub enum McoDiv {
    Div1,
    Div2,
    Div4,
    Div8,
    Div16,
    Div32,
    Div64,
    Div128,
}

/// The number of a clock output.
pub open spec fn mco_code(source: McoSource) -> u8 {
    match source {
        McoSource::Hrc => 0x0,
        McoSource::Mrc => 0x1,
        McoSource::Lrc => 0x2,
        McoSource::Xtal => 0x3,
        McoSource::Xtal32 => 0x4,
        McoSource::PllP => 0x6,
        McoSource::PllQ => 0x8,
        McoSource::Hclk => 0xb,
    }
}

/// The number of a divider.
pub open spec fn mco_div_code(div: McoDiv) -> u8 {
    match div {
        McoDiv::Div1 => 0,
        McoDiv::Div2 => 1,
        McoDiv::Div4 => 2,
        McoDiv::Div8 => 3,
        McoDiv::Div16 => 4,
        McoDiv::Div32 => 5,
        McoDiv::Div64 => 6,
        McoDiv::Div128 => 7,
    }
}

/// Put out a clock.
pub fn mco1_config(source: McoSource, div: McoDiv) -> (r: Vec<Step<ClkError>>)
    ensures
        r@ == seq![
            unlocking(),
            Step::Do(byte(0x4005_403d, mco_code(source) | mco_div_code(div) << 4u8 | 0x80)),
            locking(),
        ],
{
    let code: u8 = match source {
        McoSource::Hrc => 0x0,
        McoSource::Mrc => 0x1,
        McoSource::Lrc => 0x2,
        McoSource::Xtal => 0x3,
        McoSource::Xtal32 => 0x4,
        McoSource::PllP => 0x6,
        McoSource::PllQ => 0x8,
        McoSource::Hclk => 0xb,
    };
    let divider: u8 = match div {
        McoDiv::Div1 => 0,
        McoDiv::Div2 => 1,
        McoDiv::Div4 => 2,
        McoDiv::Div8 => 3,
        McoDiv::Div16 => 4,
        McoDiv::Div32 => 5,
        McoDiv::Div64 => 6,
        McoDiv::Div128 => 7,
    };
    vec![unlock(), Step::Do(byte(MCO1CFGR, code | divider << 4u8 | 0x80)), lock()]
}

/// Switch the clock output on or off.
pub fn mco1_cmd(enable: bool) -> (r: Vec<Step<ClkError>>)
    ensures
        r@ == seq![
            unlocking(),
            Step::Do(
                if enable {
                    change_byte(0x4005_403d, 0, 0x80)
                } else {
                    change_byte(0x4005_403d, 0x80, 0)
                },
            ),
            locking(),
        ],
{
    let access = if enable {
        change_byte(MCO1CFGR, 0, 0x80)
    } else {
        change_byte(MCO1CFGR, 0x80, 0)
    };
    vec![unlock(), Step::Do(access), lock()]
}

/// Whether an oscillator or the PLL starts or not, the clock registers are locked
/// again.
pub proof fn law_clock_registers_end_locked(
    pll: PllConfig,
    crystal: Crystal,
    dividers: Dividers,
    enable: bool,
)
    ensures
        crate::mmio::guarded(pll_steps(pll), half(0x4005_43fe, 0xa500)),
        crate::mmio::guarded(xtal_steps(crystal), half(0x4005_43fe, 0xa500)),
        crate::mmio::guarded(divider_steps(dividers), half(0x4005_43fe, 0xa500)),
        crate::mmio::guarded(
            oscillator_steps(0x4005_4036, enable, 0x01, ClkError::HrcStableTimeout),
            half(0x4005_43fe, 0xa500),
        ),
        crate::mmio::guarded(
            oscillator_steps(0x4005_4032, enable, 0x08, ClkError::XtalStableTimeout),
            half(0x4005_43fe, 0xa500),
        ),
{
}

// ---------------------------------------------------------------------------
// What the registers come to say
// ---------------------------------------------------------------------------

/// Dividers that are set show in the frequencies of the buses: each is the system clock
/// divided by its divider, whatever the system clock is. The divider register holds
/// the power of two of each divider in a field of its own.
pub proof fn law_dividers_read_back(
    d: Dividers,
    steps: Vec<Step<ClkError>>,
    before: u32,
    regs: ClockRegs,
    xtal_hz: u32,
    system: u32,
    hclk: u32,
    pclk0: u32,
    pclk1: u32,
    pclk2: u32,
    pclk3: u32,
    pclk4: u32,
    exclk: u32,
)
    requires
        are_dividers(d),
        in_bounds(regs, xtal_hz),
        call_ensures(set_bus_clock_div, (d,), steps),
        regs.scfgr == crate::mmio::left_in(steps@, crate::mmio::word_at(0x4005_4020), before),
        call_ensures(system_clock_hz, (regs, xtal_hz), system),
        call_ensures(hclk_hz, (regs, xtal_hz), hclk),
        call_ensures(pclk0_hz, (regs, xtal_hz), pclk0),
        call_ensures(pclk1_hz, (regs, xtal_hz), pclk1),
        call_ensures(pclk2_hz, (regs, xtal_hz), pclk2),
        call_ensures(pclk3_hz, (regs, xtal_hz), pclk3),
        call_ensures(pclk4_hz, (regs, xtal_hz), pclk4),
        call_ensures(exclk_hz, (regs, xtal_hz), exclk),
    ensures
        hclk == system / d.hclk,
        pclk0 == system / d.pclk0,
        pclk1 == system / d.pclk1,
        pclk2 == system / d.pclk2,
        pclk3 == system / d.pclk3,
        pclk4 == system / d.pclk4,
        exclk == system / d.exclk,
        d.hclk == 1u32 << ((regs.scfgr >> 24u32) & 0x7),
        d.exclk == 1u32 << ((regs.scfgr >> 20u32) & 0x7),
        d.pclk4 == 1u32 << ((regs.scfgr >> 16u32) & 0x7),
        d.pclk3 == 1u32 << ((regs.scfgr >> 12u32) & 0x7),
        d.pclk2 == 1u32 << ((regs.scfgr >> 8u32) & 0x7),
        d.pclk1 == 1u32 << ((regs.scfgr >> 4u32) & 0x7),
        d.pclk0 == 1u32 << (regs.scfgr & 0x7),
{
    broadcast use crate::mmio::lemma_written;

    reveal_with_fuel(crate::mmio::left_after, 5);
    let c0 = code_of(d.pclk0);
    let c1 = code_of(d.pclk1);
    let c2 = code_of(d.pclk2);
    let c3 = code_of(d.pclk3);
    let c4 = code_of(d.pclk4);
    let c5 = code_of(d.exclk);
    let c6 = code_of(d.hclk);
    assert({
        let v = (c0 << 0u32) | (c1 << 4u32) | (c2 << 8u32) | (c3 << 12u32) | (c4 << 16u32) | (c5
            << 20u32) | (c6 << 24u32);
        &&& (v >> 0u32) & 0x7 == c0 && v & 0x7 == c0
        &&& (v >> 4u32) & 0x7 == c1
        &&& (v >> 8u32) & 0x7 == c2
        &&& (v >> 12u32) & 0x7 == c3
        &&& (v >> 16u32) & 0x7 == c4
        &&& (v >> 20u32) & 0x7 == c5
        &&& (v >> 24u32) & 0x7 == c6
        &&& system >> 0u32 == system / 1 && system >> 1u32 == system / 2 && system >> 2u32
            == system / 4 && system >> 3u32 == system / 8 && system >> 4u32 == system / 16
        &&& 1u32 << 0u32 == 1 && 1u32 << 1u32 == 2 && 1u32 << 2u32 == 4 && 1u32 << 3u32 == 8 && 1u32
            << 4u32 == 16
    }) by (bit_vector)
        requires
            c0 <= 4u32,
            c1 <= 4u32,
            c2 <= 4u32,
            c3 <= 4u32,
            c4 <= 4u32,
            c5 <= 4u32,
            c6 <= 4u32,
    ;
    assert(regs.scfgr == divider_register(d));
    assert(system_of(regs, xtal_hz) as u32 == system);
}

/// Setting up the PLL writes its parameters to their fields, starts it, and the
/// frequency that is read from the register afterwards is what they say.
pub proof fn law_pll_is_set_up(
    cfg: PllConfig,
    steps: Vec<Step<ClkError>>,
    before: u32,
    icg1: u32,
    xtal_hz: u32,
    hz: u32,
)
    requires
        cfg.src <= 1,
        cfg.m <= 31,
        cfg.n <= 511,
        cfg.p <= 15,
        cfg.q <= 15,
        cfg.r <= 15,
        call_ensures(pll_init, (cfg,), steps),
        ({
            let v = crate::mmio::left_in(steps@, crate::mmio::word_at(0x4005_4100), before);
            pll_vco(v, icg1, xtal_hz) <= u32::MAX && call_ensures(pll_hz, (v, icg1, xtal_hz), hz)
        }),
    ensures
        ({
            let v = crate::mmio::left_in(steps@, crate::mmio::word_at(0x4005_4100), before);
            &&& v & 0x1f == cfg.m
            &&& (v >> 7u32) & 0x1 == cfg.src
            &&& (v >> 8u32) & 0x1ff == cfg.n
            &&& (v >> 20u32) & 0xf == cfg.r
            &&& (v >> 24u32) & 0xf == cfg.q
            &&& (v >> 28u32) & 0xf == cfg.p
        }),
        crate::mmio::left_in(steps@, crate::mmio::byte_at(0x4005_402a), before) == 0,
        hz == ((if cfg.src == 0 {
            xtal_hz as int
        } else if icg1 & 1 != 0 {
            16_000_000
        } else {
            20_000_000
        }) / (cfg.m + 1)) * (cfg.n + 1) / (cfg.p + 1),
{
    broadcast use crate::mmio::lemma_written;

    reveal_with_fuel(crate::mmio::left_after, 7);
    lemma_pll_fields(cfg);
    law_pll_frequency(cfg, icg1, xtal_hz);
}

/// An oscillator runs or rests as it was told, and the crystal gets its settling time,
/// its drive strength in bits 4 and 5, and the stronger drive in bit 7.
pub proof fn law_oscillators_are_switched(
    enable: bool,
    system_hz: u32,
    crystal: Crystal,
    hrc: Vec<Step<ClkError>>,
    xtal: Vec<Step<ClkError>>,
    lrc: Result<Vec<Step<ClkError>>, ClkError>,
    xtal32: Result<Vec<Step<ClkError>>, ClkError>,
    set_up: Vec<Step<ClkError>>,
    before: u32,
)
    requires
        call_ensures(hrc_cmd, (enable,), hrc),
        call_ensures(xtal_cmd, (enable,), xtal),
        call_ensures(lrc_cmd, (enable, system_hz), lrc),
        call_ensures(xtal32_cmd, (enable, system_hz), xtal32),
        call_ensures(xtal_init, (crystal,), set_up),
        crystal.drive <= 3,
    ensures
        crate::mmio::left_in(hrc@, crate::mmio::byte_at(0x4005_4036), before) == (if enable {
            0int
        } else {
            1
        }),
        crate::mmio::left_in(xtal@, crate::mmio::byte_at(0x4005_4032), before) == (if enable {
            0int
        } else {
            1
        }),
        lrc is Err <==> !enable && system_hz == 32_768,
        xtal32 is Err <==> !enable && system_hz == 32_768,
        lrc is Ok ==> crate::mmio::left_in(lrc->Ok_0@, crate::mmio::byte_at(0x4005_4427), before)
            == (if enable {
            0int
        } else {
            1
        }),
        xtal32 is Ok ==> crate::mmio::left_in(
            xtal32->Ok_0@,
            crate::mmio::byte_at(0x4005_4420),
            before,
        ) == (if enable {
            0int
        } else {
            1
        }),
        crate::mmio::left_in(set_up@, crate::mmio::byte_at(0x4005_4032), before) == 0,
        crate::mmio::left_in(set_up@, crate::mmio::byte_at(0x4005_40a2), before)
            == crystal.stable_time,
        crate::mmio::left_in(set_up@, crate::mmio::byte_at(0x4005_4410), before) == 16
            * crystal.drive + (if crystal.super_drive {
            128int
        } else {
            0
        }),
{
    broadcast use crate::mmio::lemma_written;

    reveal_with_fuel(crate::mmio::left_after, 7);
    let drive = crystal.drive;
    lemma_clock_bits(before, before, drive);
    let output = gpio::configure_steps::<ClkError>(0x050, 0x540, 0, crystal_pin());
    let input = gpio::configure_steps::<ClkError>(0x050, 0x540, 1, crystal_pin());
    let rest = seq![
        unlocking(),
        Step::Do(byte(0x4005_40a2, crystal.stable_time)),
        Step::Do(byte(0x4005_4410, drive_register(crystal))),
        Step::Do(byte(0x4005_4032, 0)),
        stable_wait(0x08, ClkError::XtalStableTimeout),
        locking(),
    ];
    assert(set_up@ =~= output + input + rest);
    crate::mmio::lemma_left_add(
        output + input,
        rest,
        crate::mmio::byte_at(0x4005_4032),
        before,
    );
    crate::mmio::lemma_left_add(
        output + input,
        rest,
        crate::mmio::byte_at(0x4005_40a2),
        before,
    );
    crate::mmio::lemma_left_add(
        output + input,
        rest,
        crate::mmio::byte_at(0x4005_4410),
        before,
    );
}

/// The steps leave the selection of the system clock alone.
pub open spec fn spares_source(steps: Seq<Step<ClkError>>) -> bool {
    forall|before: u32| #[trigger]
        crate::mmio::left_in(steps, crate::mmio::byte_at(0x4005_4026), before) == before
}

proof fn lemma_source_is_selected(
    hz: u32,
    sram: Seq<Step<ClkError>>,
    power: Seq<Step<ClkError>>,
    source: u8,
    before: u32,
)
    requires
        spares_source(sram),
        power == performance_steps() || power.len() == 0,
    ensures
        crate::mmio::left_in(
            efm::wait_cycle_steps::<ClkError>(hz) + sram + power + source_steps(source),
            crate::mmio::byte_at(0x4005_4026),
            before,
        ) == source,
{
    broadcast use crate::mmio::lemma_written;

    reveal_with_fuel(crate::mmio::left_after, 8);
    let head = efm::wait_cycle_steps::<ClkError>(hz);
    let place = crate::mmio::byte_at(0x4005_4026);
    crate::mmio::lemma_left_add(head + sram + power, source_steps(source), place, before);
}

/// After a switch the system clock is that of the source that was asked for, and the
/// source reads back.
pub proof fn law_switches_take_the_source(
    icg1: u32,
    xtal_hz: u32,
    pllcfgr: u32,
    sram: Vec<Step<ClkError>>,
    to_hrc: Vec<Step<ClkError>>,
    to_xtal: Vec<Step<ClkError>>,
    to_pll: Vec<Step<ClkError>>,
    before: u32,
    regs: ClockRegs,
    hz: u32,
    source: Option<ClockSource>,
)
    requires
        spares_source(sram@),
        call_ensures(switch_to_hrc, (icg1, sram), to_hrc),
        call_ensures(switch_to_xtal, (xtal_hz, sram), to_xtal),
        pll_vco(pllcfgr, icg1, xtal_hz) <= u32::MAX,
        call_ensures(switch_to_pll, (pllcfgr, icg1, xtal_hz, sram), to_pll),
        regs.icg1 == icg1,
        regs.pllcfgr == pllcfgr,
        call_ensures(system_clock_hz, (regs, xtal_hz), hz),
        call_ensures(active_source, (regs.ckswr,), source),
    ensures
        ({
            let place = crate::mmio::byte_at(0x4005_4026);
            &&& regs.ckswr == crate::mmio::left_in(to_hrc@, place, before) ==> {
                &&& source == Some(ClockSource::Hrc)
                &&& hz == if icg1 & 1 != 0 {
                    16_000_000int
                } else {
                    20_000_000
                }
            }
            &&& regs.ckswr == crate::mmio::left_in(to_xtal@, place, before) ==> {
                &&& source == Some(ClockSource::Xtal)
                &&& hz == xtal_hz
            }
            &&& regs.ckswr == crate::mmio::left_in(to_pll@, place, before) ==> {
                &&& source == Some(ClockSource::Pll)
                &&& hz == pll_of(pllcfgr, icg1, xtal_hz)
            }
        }),
{
    let none = Seq::<Step<ClkError>>::empty();
    lemma_source_is_selected(hrc_of(icg1), sram@, none, 0, before);
    assert(to_hrc@ =~= efm::wait_cycle_steps::<ClkError>(hrc_of(icg1)) + sram@ + none
        + source_steps(0));
    lemma_source_is_selected(xtal_hz, sram@, none, 3, before);
    assert(to_xtal@ =~= efm::wait_cycle_steps::<ClkError>(xtal_hz) + sram@ + none + source_steps(
        3,
    ));
    lemma_source_is_selected(
        pll_of(pllcfgr, icg1, xtal_hz) as u32,
        sram@,
        performance_steps(),
        5,
        before,
    );
    lemma_clock_bits(0, 0, 0);
}

proof fn lemma_clock_bits(held: u32, bits: u32, drive: u8)
    ensures
        0u8 & 0x7 == 0,
        3u8 & 0x7 == 3,
        5u8 & 0x7 == 5,
        (held & !bits) | 0u32 == held & !bits,
        drive <= 3 ==> (drive << 4u8) | 0x80u8 == 16 * drive + 128,
        drive <= 3 ==> (drive << 4u8) | 0u8 == 16 * drive,
{
    assert(0u8 & 0x7 == 0 && 3u8 & 0x7 == 3 && 5u8 & 0x7 == 5 && (held & !bits) | 0u32 == held
        & !bits && (drive <= 3u8 ==> (drive << 4u8) | 0x80u8 == 16 * drive + 128 && (drive << 4u8)
        | 0u8 == 16 * drive)) by (bit_vector);
}

/// Setting up the clocks ends on the source that was asked for; if the PLL does not
/// start, on what it would have multiplied. HRC, or the crystal, is started before it
/// is used, and nothing happens for the clock that runs after reset.
pub proof fn law_plans_end_on_their_source(
    source: ClockSource,
    pll: PllConfig,
    crystal: Crystal,
    dividers: Dividers,
    icg1: u32,
    sram: SramWaits,
    plan: Plan,
    before: u32,
    ckswr: u8,
    active: Option<ClockSource>,
)
    requires
        source == ClockSource::Pll ==> are_dividers(dividers) && pll_vco(
            pll_register(pll),
            icg1,
            crystal.hz,
        ) <= u32::MAX,
        call_ensures(init, (source, pll, crystal, dividers, icg1, sram), plan),
        spares_source(sram.hrc@),
        spares_source(sram.xtal@),
        spares_source(sram.pll@),
        call_ensures(active_source, (ckswr,), active),
    ensures
        source == ClockSource::Mrc ==> plan.start@.len() == 0 && plan.pll is None
            && plan.switch@.len() == 0,
        plan.pll is Some <==> source == ClockSource::Pll,
        source != ClockSource::Mrc && ckswr == crate::mmio::left_in(
            plan.switch@,
            crate::mmio::byte_at(0x4005_4026),
            before,
        ) ==> active == Some(source),
        source == ClockSource::Pll && ckswr == crate::mmio::left_in(
            plan.fallback@,
            crate::mmio::byte_at(0x4005_4026),
            before,
        ) ==> active == Some(
            if pll.src == 0 {
                ClockSource::Xtal
            } else {
                ClockSource::Hrc
            },
        ),
        source == ClockSource::Hrc || (source == ClockSource::Pll && pll.src != 0)
            ==> crate::mmio::left_in(plan.start@, crate::mmio::byte_at(0x4005_4036), before) == 0,
        source == ClockSource::Xtal || (source == ClockSource::Pll && pll.src == 0)
            ==> crate::mmio::left_in(plan.start@, crate::mmio::byte_at(0x4005_4032), before) == 0,
{
    broadcast use crate::mmio::lemma_written;

    let none = Seq::<Step<ClkError>>::empty();
    lemma_clock_bits(0, 0, 0);
    lemma_source_is_selected(hrc_of(icg1), sram.hrc@, none, 0, before);
    lemma_source_is_selected(crystal.hz, sram.xtal@, none, 3, before);
    lemma_source_is_selected(
        pll_of(pll_register(pll), icg1, crystal.hz) as u32,
        sram.pll@,
        performance_steps(),
        5,
        before,
    );
    assert(switch_steps(hrc_of(icg1), sram.hrc@, 0) =~= efm::wait_cycle_steps::<ClkError>(
        hrc_of(icg1),
    ) + sram.hrc@ + none + source_steps(0));
    assert(switch_steps(crystal.hz, sram.xtal@, 3) =~= efm::wait_cycle_steps::<ClkError>(
        crystal.hz,
    ) + sram.xtal@ + none + source_steps(3));
    lemma_start(crystal, dividers, before);
}

proof fn lemma_start(crystal: Crystal, dividers: Dividers, before: u32)
    ensures
        ({
            let hrc = oscillator_steps(0x4005_4036, true, 0x01, ClkError::HrcStableTimeout);
            let first = crate::mmio::byte_at(0x4005_4036);
            let second = crate::mmio::byte_at(0x4005_4032);
            &&& crate::mmio::left_in(hrc, first, before) == 0
            &&& crate::mmio::left_in(hrc + divider_steps(dividers), first, before) == 0
            &&& crate::mmio::left_in(xtal_steps(crystal), second, before) == 0
            &&& crate::mmio::left_in(xtal_steps(crystal) + divider_steps(dividers), second, before)
                == 0
        }),
{
    broadcast use crate::mmio::lemma_written;

    reveal_with_fuel(crate::mmio::left_after, 9);
    let second = crate::mmio::byte_at(0x4005_4032);
    let output = gpio::configure_steps::<ClkError>(0x050, 0x540, 0, crystal_pin());
    let input = gpio::configure_steps::<ClkError>(0x050, 0x540, 1, crystal_pin());
    let rest = seq![
        unlocking(),
        Step::Do(byte(0x4005_40a2, crystal.stable_time)),
        Step::Do(byte(0x4005_4410, drive_register(crystal))),
        Step::Do(byte(0x4005_4032, 0)),
        stable_wait(0x08, ClkError::XtalStableTimeout),
        locking(),
    ];
    assert(xtal_steps(crystal) =~= output + input + rest);
    crate::mmio::lemma_left_add(output + input, rest, second, before);
    crate::mmio::lemma_left_add(xtal_steps(crystal), divider_steps(dividers), second, before);
}

/// What is recorded of the crystal is read as what became of it: it is in use or has
/// failed exactly if it was wanted, by itself or for the PLL, and did or did not start.
pub proof fn law_crystal_status_reads_back(
    source: ClockSource,
    pll_src: u32,
    start: Result<(), ClkError>,
    record: u8,
    status: XtalStatus,
)
    requires
        call_ensures(record_after, (source, pll_src, start), record),
        call_ensures(xtal_status, (record,), status),
    ensures
        ({
            let wanted = source == ClockSource::Xtal || (source == ClockSource::Pll && pll_src
                == 0);
            &&& status == XtalStatus::Active <==> wanted && start is Ok
            &&& status == XtalStatus::Failed <==> wanted && start is Err
        }),
{
}

/// Peripherals get their clock when their gates are cleared, the other gates stay as
/// they are, and the gates are protected again.
pub proof fn law_gates_are_opened<E>(bits: u32, steps: Vec<Step<E>>, before: u32)
    requires
        call_ensures(fcg0_enable::<E>, (bits,), steps),
    ensures
        crate::mmio::left_in(steps@, crate::mmio::word_at(0x4004_8000), before) == before & !bits,
        crate::mmio::left_in(steps@, crate::mmio::word_at(0x4004_8010), before) == 0xa5a5_0000,
        steps@[0] == Step::<E>::Do(word(0x4004_8010, 0xa5a5_0001)),
{
    broadcast use crate::mmio::lemma_written;

    reveal_with_fuel(crate::mmio::left_after, 4);
    lemma_clock_bits(before, bits, 0);
}

/// The clock output is divided by the power of two that its register holds in bits 4 to
/// 6; it is on with bit 7, which can be switched without changing the rest.
pub proof fn law_clock_output(
    source: McoSource,
    div: McoDiv,
    on: bool,
    set_up: Vec<Step<ClkError>>,
    switched: Vec<Step<ClkError>>,
    before: u32,
)
    requires
        call_ensures(mco1_config, (source, div), set_up),
        call_ensures(mco1_cmd, (on,), switched),
        before < 256,
    ensures
        ({
            let v = crate::mmio::left_in(set_up@, crate::mmio::byte_at(0x4005_403d), before);
            &&& v & 0x80 != 0
            &&& v & 0x0f == (match source {
                McoSource::Hrc => 0u32,
                McoSource::Mrc => 1,
                McoSource::Lrc => 2,
                McoSource::Xtal => 3,
                McoSource::Xtal32 => 4,
                McoSource::PllP => 6,
                McoSource::PllQ => 8,
                McoSource::Hclk => 11,
            })
            &&& 1u32 << ((v >> 4u32) & 0x7) == (match div {
                McoDiv::Div1 => 1u32,
                McoDiv::Div2 => 2,
                McoDiv::Div4 => 4,
                McoDiv::Div8 => 8,
                McoDiv::Div16 => 16,
                McoDiv::Div32 => 32,
                McoDiv::Div64 => 64,
                McoDiv::Div128 => 128,
            })
        }),
        ({
            let v = crate::mmio::left_in(switched@, crate::mmio::byte_at(0x4005_403d), before);
            &&& v & 0x80 != 0 <==> on
            &&& v & 0x7f == before & 0x7f
        }),
{
    broadcast use crate::mmio::lemma_written;

    reveal_with_fuel(crate::mmio::left_after, 4);
    let s = mco_code(source);
    let d = mco_div_code(div);
    assert({
        let v = (s | d << 4u8 | 0x80u8) as u32;
        &&& v & 0x80 != 0 && v & 0x0f == s && (v >> 4u32) & 0x7 == d
        &&& 1u32 << 0u32 == 1 && 1u32 << 1u32 == 2 && 1u32 << 2u32 == 4 && 1u32 << 3u32 == 8 && 1u32
            << 4u32 == 16 && 1u32 << 5u32 == 32 && 1u32 << 6u32 == 64 && 1u32 << 7u32 == 128
        &&& ((before & ((!0u8) as u32)) | 0x80u32) & 0x80 != 0 && ((before & ((!0u8) as u32))
            | 0x80u32) & 0x7f == before & 0x7f
        &&& ((before & ((!0x80u8) as u32)) | 0u32) & 0x80 == 0 && ((before & ((!0x80u8) as u32))
            | 0u32) & 0x7f == before & 0x7f
    }) by (bit_vector)
        requires
            s < 16u8,
            d < 8u8,
            before < 256u32,
    ;
}

/// The system clock has the frequency of its source: 8 MHz for the internal oscillator
/// after reset, 32,768 Hz for the two slow ones, and none for a source that does not
/// exist.
pub proof fn law_sources_have_their_frequency(regs: ClockRegs, xtal_hz: u32, hz: u32)
    requires
        in_bounds(regs, xtal_hz),
        call_ensures(system_clock_hz, (regs, xtal_hz), hz),
    ensures
        regs.ckswr & 0x7 == 1 ==> hz == 8_000_000,
        regs.ckswr & 0x7 == 2 || regs.ckswr & 0x7 == 4 ==> hz == 32_768,
        regs.ckswr & 0x7 == 6 || regs.ckswr & 0x7 == 7 ==> hz == 0,
{
}

/// The PLL is started only when what it multiplies is stable, and used only when it is
/// stable itself; if either takes too long the set-up fails.
pub proof fn law_pll_waits_for_its_source(cfg: PllConfig, steps: Vec<Step<ClkError>>)
    requires
        call_ensures(pll_init, (cfg,), steps),
    ensures
        steps@.len() == 6,
        steps@[2] matches Step::Wait { check, otherwise, .. } && {
            &&& check.place == crate::mmio::byte_at(0x4005_403c)
            &&& check.mask == check.value
            &&& check.mask == (if cfg.src == 0 {
                0x08u32
            } else {
                0x01
            })
            &&& otherwise is Fail
        },
        steps@[3] == Step::<ClkError>::Do(byte(0x4005_402a, 0)),
        steps@[4] matches Step::Wait { check, otherwise, .. } && {
            &&& check.place == crate::mmio::byte_at(0x4005_403c)
            &&& check.mask == 0x20
            &&& check.value == 0x20
            &&& otherwise is Fail
        },
{
}

/// Before the PLL becomes the system clock, the pins are read with three wait cycles and
/// the power supply is raised.
pub proof fn law_power_is_raised_for_the_pll(
    pllcfgr: u32,
    icg1: u32,
    xtal_hz: u32,
    sram: Vec<Step<ClkError>>,
    steps: Vec<Step<ClkError>>,
    before: u32,
)
    requires
        pll_vco(pllcfgr, icg1, xtal_hz) <= u32::MAX,
        call_ensures(switch_to_pll, (pllcfgr, icg1, xtal_hz, sram), steps),
    ensures
        crate::mmio::left_in(steps@, crate::mmio::half_at(0x4005_3bf8), before) & 0xc000 == 0xc000,
        crate::mmio::left_in(steps@, crate::mmio::half_at(0x4005_3bfc), before) == 0xa500,
        crate::mmio::left_in(steps@, crate::mmio::byte_at(0x4005_4402), before) & 0x0f == 0x0f,
        crate::mmio::left_in(steps@, crate::mmio::byte_at(0x4005_440f), before) == 0x10,
{
    broadcast use crate::mmio::lemma_written;

    let hz = pll_of(pllcfgr, icg1, xtal_hz) as u32;
    let head = efm::wait_cycle_steps::<ClkError>(hz) + sram@;
    let tail = performance_steps() + source_steps(5);
    assert(steps@ =~= head + tail);
    let a = crate::mmio::half_at(0x4005_3bf8);
    let b = crate::mmio::half_at(0x4005_3bfc);
    let c = crate::mmio::byte_at(0x4005_4402);
    let d = crate::mmio::byte_at(0x4005_440f);
    crate::mmio::lemma_left_add(head, tail, a, before);
    crate::mmio::lemma_left_add(head, tail, b, before);
    crate::mmio::lemma_left_add(head, tail, c, before);
    crate::mmio::lemma_left_add(head, tail, d, before);
    crate::mmio::law_accesses_set_and_keep(
        change_half(0x4005_3bf8, 0xc000, 0xc000),
        crate::mmio::left_in(head, a, before),
    );
    crate::mmio::law_accesses_set_and_keep(
        change_byte(0x4005_4402, 0x3f, 0x0f),
        crate::mmio::left_in(head, c, before),
    );
    reveal_with_fuel(crate::mmio::left_after, 12);
}

} // verus!
