//! The flash controller: erasing sectors, programming words, and reading fast enough.
//!
//! Flash is mapped into memory. Writing to an address while the controller is in a
//! programming or erasing mode starts the operation; until it has ended the bus is
//! held. The controller is unlocked for the time of an operation only.

use vstd::prelude::*;

use crate::mmio::{Access, Cleanup, Limit, Otherwise, Place, Step, Width, change_word, when_word, word};

verus! {

/// Bytes of flash.
pub const FLASH_SIZE: u32 = 0x0008_0000;

/// Bytes that are erased at once.
pub const SECTOR_SIZE: u32 = 0x0000_2000;

/// Sectors of flash.
pub const SECTOR_COUNT: u32 = 64;

const FAPRT: usize = 0x4001_0400;

const FRMC: usize = 0x4001_0408;

const FWMC: usize = 0x4001_040c;

const FSR: usize = 0x4001_0410;

const FSCLR: usize = 0x4001_0414;

const UQID0: usize = 0x4001_0450;

const FSR_OPTEND: u32 = 0x10;

const FSR_RDY: u32 = 0x100;

/// All errors and the end of an operation.
const FSR_RESULTS: u32 = 0x3f;

/// What writing to flash does.
#[derive(Clone, Copy, Debug, PartialEq, Eq, Structural)]
pub enum OpMode {
    ReadOnly,
    /// Programs a word.
    Program,
    /// Programs a word and reads it back.
    ProgramReadBack,
    /// Programs a row.
    SequenceProgram,
    /// Erases a sector.
    SectorErase,
    /// Erases everything.
    ChipErase,
}

/// Why an operation failed.
#[derive(Clone, Copy, Debug, PartialEq, Eq, Structural)]
pub enum EfmError {
    /// The controller did not become ready, or the operation did not end.
    Timeout,
    /// Programming or erasing failed.
    ProgramEraseError,
    /// The address is protected.
    ProtectViolation,
    /// The size of the protected area is wrong.
    SizeError,
    /// What was programmed does not read back.
    Mismatch,
    /// Flash was read while it was written.
    ReadCollision,
    /// The address is no word address, or lies beyond flash.
    InvalidAddr,
}

/// The error that the status register shows, the most severe one.
pub open spec fn error_of(status: u32) -> Option<EfmError> {
    if status & 0x01 != 0 {
        Some(EfmError::ProgramEraseError)
    } else if status & 0x02 != 0 {
        Some(EfmError::ProtectViolation)
    } else if status & 0x04 != 0 {
        Some(EfmError::SizeError)
    } else if status & 0x08 != 0 {
        Some(EfmError::Mismatch)
    } else if status & 0x20 != 0 {
        Some(EfmError::ReadCollision)
    } else {
        None
    }
}

fn map_error(status: u32) -> (r: Option<EfmError>)
    ensures
        r == error_of(status),
{
    if status & 0x01 != 0 {
        Some(EfmError::ProgramEraseError)
    } else if status & 0x02 != 0 {
        Some(EfmError::ProtectViolation)
    } else if status & 0x04 != 0 {
        Some(EfmError::SizeError)
    } else if status & 0x08 != 0 {
        Some(EfmError::Mismatch)
    } else if status & 0x20 != 0 {
        Some(EfmError::ReadCollision)
    } else {
        None
    }
}

/// What came of an operation whose steps have been carried out, given the status
/// register.
pub fn finish(status: u32) -> (r: Result<(), EfmError>)
    ensures
        match r {
            Ok(_) => error_of(status) is None,
            Err(e) => error_of(status) == Some(e),
        },
{
    match map_error(status) {
        Some(e) => Err(e),
        None => Ok(()),
    }
}

/// Where the status is read.
pub fn status() -> (r: Place)
    ensures
        r == (Place { addr: 0x4001_0410, width: Width::Word }),
{
    Place { addr: FSR, width: Width::Word }
}

/// Clear flags of the status.
pub fn clear_status(flags: u32) -> (r: Access)
    ensures
        r == word(0x4001_0414, flags),
{
    word(FSCLR, flags)
}

/// Whether an operation can be started, given the status.
pub fn ready(status: u32) -> (r: bool)
    ensures
        r == (status & 0x100 != 0),
{
    status & FSR_RDY != 0
}

/// The controller is waited for, for some 50 microseconds.
pub open spec fn ready_wait(hclk_hz: u32) -> Step<EfmError> {
    Step::Wait {
        check: when_word(0x4001_0410, 0x100, 0x100),
        limit: Limit::Readings((hclk_hz / 20_000 + 1) as u64),
        otherwise: Otherwise::Fail { cleanup: Cleanup::Nothing, error: EfmError::Timeout },
    }
}

/// Wait until an operation can be started.
pub fn wait_ready(hclk_hz: u32) -> (r: Step<EfmError>)
    ensures
        r == ready_wait(hclk_hz),
{
    Step::Wait {
        check: when_word(FSR, FSR_RDY, FSR_RDY),
        limit: Limit::Readings(hclk_hz as u64 / 20_000 + 1),
        otherwise: Otherwise::Fail { cleanup: Cleanup::Nothing, error: EfmError::Timeout },
    }
}

/// The controller is unlocked with two keys.
pub open spec fn unlock_steps<E>() -> Seq<Step<E>> {
    seq![Step::<E>::Do(word(0x4001_0400, 0x0123)), Step::<E>::Do(word(0x4001_0400, 0x3210))]
}

/// Unlock the controller.
pub fn unlock<E>() -> (r: Vec<Step<E>>)
    ensures
        r@ == unlock_steps::<E>(),
{
    vec![Step::Do(word(FAPRT, 0x0123)), Step::Do(word(FAPRT, 0x3210))]
}

/// Lock the controller.
pub fn lock() -> (r: Access)
    ensures
        r == word(0x4001_0400, 0),
{
    word(FAPRT, 0)
}

/// Allow programming and erasing.
pub fn enable_program_mode() -> (r: Access)
    ensures
        r == change_word(0x4001_040c, 0, 0x01),
{
    change_word(FWMC, 0, 0x01)
}

/// Do not allow programming and erasing any longer.
pub fn disable_program_mode() -> (r: Access)
    ensures
        r == change_word(0x4001_040c, 0x01, 0),
{
    change_word(FWMC, 0x01, 0)
}

/// The number of a mode.
pub open spec fn mode_code(mode: OpMode) -> u32 {
    match mode {
        OpMode::ReadOnly => 0,
        OpMode::Program => 1,
        OpMode::ProgramReadBack => 2,
        OpMode::SequenceProgram => 3,
        OpMode::SectorErase => 4,
        OpMode::ChipErase => 5,
    }
}

/// The mode is set.
pub open spec fn mode_access(mode: OpMode) -> Access {
    change_word(0x4001_040c, 0x70, mode_code(mode) << 4u32)
}

/// Choose what writing to flash does.
pub fn set_op_mode(mode: OpMode) -> (r: Access)
    ensures
        r == mode_access(mode),
{
    let code: u32 = match mode {
        OpMode::ReadOnly => 0,
        OpMode::Program => 1,
        OpMode::ProgramReadBack => 2,
        OpMode::SequenceProgram => 3,
        OpMode::SectorErase => 4,
        OpMode::ChipErase => 5,
    };
    change_word(FWMC, 0x70, code << 4u32)
}

/// After an operation, also a failed one: reading only, no programming, locked.
pub open spec fn closing() -> Cleanup {
    Cleanup::Three(
        mode_access(OpMode::ReadOnly),
        change_word(0x4001_040c, 0x01, 0),
        word(0x4001_0400, 0),
    )
}

/// The status shows `flag` within so many readings, or the operation has failed.
pub open spec fn flag_wait(flag: u32, readings: u64) -> Step<EfmError> {
    Step::Wait {
        check: when_word(0x4001_0410, flag, flag),
        limit: Limit::Readings(readings),
        otherwise: Otherwise::Fail { cleanup: closing(), error: EfmError::Timeout },
    }
}

fn closing_accesses() -> (r: Cleanup)
    ensures
        r == closing(),
{
    Cleanup::Three(set_op_mode(OpMode::ReadOnly), disable_program_mode(), lock())
}

fn wait_flag(flag: u32, readings: u64) -> (r: Step<EfmError>)
    ensures
        r == flag_wait(flag, readings),
{
    Step::Wait {
        check: when_word(FSR, flag, flag),
        limit: Limit::Readings(readings),
        otherwise: Otherwise::Fail { cleanup: closing_accesses(), error: EfmError::Timeout },
    }
}

/// An operation is started by writing `value` to `addr`. It has ended when the
/// controller is ready and says so.
pub open spec fn operation_step(addr: u32, value: u32, patience: u32, j: int) -> Step<EfmError> {
    if j == 0 {
        Step::Do(word(addr as usize, value))
    } else if j == 1 {
        flag_wait(0x100, (patience + 1) as u64)
    } else if j == 2 {
        flag_wait(0x10, 1)
    } else {
        Step::Do(word(0x4001_0414, 0x10))
    }
}

/// Before an operation: the controller is ready, unlocked, without old errors and
/// in the mode.
pub open spec fn opening_steps(mode: OpMode, hclk_hz: u32) -> Seq<Step<EfmError>> {
    seq![
        ready_wait(hclk_hz),
        Step::Do(word(0x4001_0400, 0x0123)),
        Step::Do(word(0x4001_0400, 0x3210)),
        Step::Do(change_word(0x4001_040c, 0, 0x01)),
        Step::Do(word(0x4001_0414, 0x3f)),
        Step::Do(mode_access(mode)),
    ]
}

/// After an operation.
pub open spec fn closing_steps() -> Seq<Step<EfmError>> {
    seq![
        Step::Do(mode_access(OpMode::ReadOnly)),
        Step::Do(change_word(0x4001_040c, 0x01, 0)),
        Step::Do(word(0x4001_0400, 0)),
    ]
}

/// A sector is erased.
pub open spec fn erase_steps(addr: u32, hclk_hz: u32) -> Seq<Step<EfmError>> {
    opening_steps(OpMode::SectorErase, hclk_hz) + Seq::new(
        4,
        |j: int| operation_step(addr, 0, hclk_hz / 50, j),
    ) + closing_steps()
}

/// Word `k` of the data, its bytes in little-endian order and filled up with 0xff,
/// which changes nothing.
pub open spec fn word_of(data: Seq<u8>, k: int) -> int {
    padded(data, 4 * k) + 0x100 * padded(data, 4 * k + 1) + 0x1_0000 * padded(data, 4 * k + 2)
        + 0x100_0000 * padded(data, 4 * k + 3)
}

pub open spec fn padded(data: Seq<u8>, i: int) -> int {
    if i < data.len() {
        data[i] as int
    } else {
        0xff
    }
}

/// Words that the data takes.
pub open spec fn word_count(len: int) -> int {
    (len + 3) / 4
}

/// Data is programmed word by word.
pub open spec fn word_steps(addr: u32, data: Seq<u8>, hclk_hz: u32, count: int) -> Seq<
    Step<EfmError>,
> {
    Seq::new(
        (4 * count) as nat,
        |j: int|
            operation_step(
                (addr + 4 * (j / 4)) as u32,
                word_of(data, j / 4) as u32,
                hclk_hz / 20_000,
                j % 4,
            ),
    )
}

/// Data is programmed.
pub open spec fn program_steps(addr: u32, data: Seq<u8>, hclk_hz: u32) -> Seq<Step<EfmError>> {
    opening_steps(OpMode::Program, hclk_hz) + word_steps(
        addr,
        data,
        hclk_hz,
        word_count(data.len() as int),
    ) + closing_steps()
}

fn open_operation(mode: OpMode, hclk_hz: u32) -> (r: Vec<Step<EfmError>>)
    ensures
        r@ == opening_steps(mode, hclk_hz),
{
    vec![
        wait_ready(hclk_hz),
        Step::Do(word(FAPRT, 0x0123)),
        Step::Do(word(FAPRT, 0x3210)),
        Step::Do(enable_program_mode()),
        Step::Do(clear_status(FSR_RESULTS)),
        Step::Do(set_op_mode(mode)),
    ]
}

fn push_operation(out: &mut Vec<Step<EfmError>>, addr: u32, value: u32, patience: u32)
    ensures
        final(out)@ == old(out)@ + Seq::new(
            4,
            |j: int| operation_step(addr, value, patience, j),
        ),
{
    let ghost before = out@;
    out.push(Step::Do(word(addr as usize, value)));
    out.push(wait_flag(FSR_RDY, patience as u64 + 1));
    out.push(wait_flag(FSR_OPTEND, 1));
    out.push(Step::Do(clear_status(FSR_OPTEND)));
    assert(out@ =~= before + Seq::new(4, |j: int| operation_step(addr, value, patience, j)));
}

fn push_closing(out: &mut Vec<Step<EfmError>>)
    ensures
        final(out)@ == old(out)@ + closing_steps(),
{
    let ghost before = out@;
    out.push(Step::Do(set_op_mode(OpMode::ReadOnly)));
    out.push(Step::Do(disable_program_mode()));
    out.push(Step::Do(lock()));
    assert(out@ =~= before + closing_steps());
}

/// Whether an operation can take place at an address.
fn check_addr(addr: u32) -> (r: Result<(), EfmError>)
    ensures
        match r {
            Ok(_) => addr % 4 == 0 && addr < 0x0008_0000,
            Err(e) => e == EfmError::InvalidAddr && (addr % 4 != 0 || addr >= 0x0008_0000),
        },
{
    if addr % 4 != 0 || addr >= FLASH_SIZE {
        return Err(EfmError::InvalidAddr);
    }
    Ok(())
}

/// Where a byte of flash is read.
pub fn read_byte(addr: u32) -> (r: Place)
    ensures
        r == (Place { addr: addr as usize, width: Width::Byte }),
{
    Place { addr: addr as usize, width: Width::Byte }
}

/// Where a word of flash is read.
pub fn read_word(addr: u32) -> (r: Place)
    ensures
        r == (Place { addr: addr as usize, width: Width::Word }),
{
    Place { addr: addr as usize, width: Width::Word }
}

/// Where the three words are read that identify the chip.
pub fn uid() -> (r: [Place; 3])
    ensures
        r@ == seq![
            Place { addr: 0x4001_0450, width: Width::Word },
            Place { addr: 0x4001_0454, width: Width::Word },
            Place { addr: 0x4001_0458, width: Width::Word },
        ],
{
    [
        Place { addr: UQID0, width: Width::Word },
        Place { addr: UQID0 + 4, width: Width::Word },
        Place { addr: UQID0 + 8, width: Width::Word },
    ]
}

/// Erase the sector that holds a word. [`finish`] says what came of it.
pub fn sector_erase(addr: u32, hclk_hz: u32) -> (r: Result<Vec<Step<EfmError>>, EfmError>)
    ensures
        match r {
            Ok(steps) => {
                &&& addr % 4 == 0
                &&& addr < 0x0008_0000
                &&& steps@ == erase_steps(addr, hclk_hz)
            },
            Err(e) => e == EfmError::InvalidAddr && (addr % 4 != 0 || addr >= 0x0008_0000),
        },
{
    match check_addr(addr) {
        Ok(_) => {},
        Err(e) => {
            return Err(e);
        },
    }
    let mut out: Vec<Step<EfmError>> = open_operation(OpMode::SectorErase, hclk_hz);
    push_operation(&mut out, addr, 0, hclk_hz / 50);
    push_closing(&mut out);
    Ok(out)
}

/// A byte of the data, or what fills it up.
fn byte_or_fill(data: &[u8], i: usize) -> (r: u32)
    ensures
        r == padded(data@, i as int),
        r <= 0xff,
{
    if i < data.len() {
        data[i] as u32
    } else {
        0xff
    }
}

/// Program data; an incomplete word at the end is filled up. [`finish`] says what
/// came of it.
pub fn program(addr: u32, data: &[u8], hclk_hz: u32) -> (r: Result<Vec<Step<EfmError>>, EfmError>)
    ensures
        match r {
            Ok(steps) => {
                &&& addr % 4 == 0
                &&& addr + data@.len() <= 0x0008_0000
                &&& steps@ == program_steps(addr, data@, hclk_hz)
            },
            Err(e) => e == EfmError::InvalidAddr && (addr % 4 != 0 || addr + data@.len()
                > 0x0008_0000),
        },
{
    let len: usize = data.len();
    if addr % 4 != 0 || addr > FLASH_SIZE || len > (FLASH_SIZE - addr) as usize {
        return Err(EfmError::InvalidAddr);
    }
    let mut out: Vec<Step<EfmError>> = open_operation(OpMode::Program, hclk_hz);
    let ghost opening = out@;
    let count: usize = (len + 3) / 4;
    let mut k: usize = 0;
    assert(out@ =~= opening + word_steps(addr, data@, hclk_hz, 0));
    while k < count
        invariant
            k <= count,
            len == data@.len(),
            count == word_count(len as int),
            addr + len <= 0x0008_0000,
            out@ == opening + word_steps(addr, data@, hclk_hz, k as int),
        decreases count - k,
    {
        let b0: u32 = byte_or_fill(data, 4 * k);
        let b1: u32 = byte_or_fill(data, 4 * k + 1);
        let b2: u32 = byte_or_fill(data, 4 * k + 2);
        let b3: u32 = byte_or_fill(data, 4 * k + 3);
        let value: u32 = b0 + 0x100 * b1 + 0x1_0000 * b2 + 0x100_0000 * b3;
        let at: u32 = addr + 4 * (k as u32);
        let ghost done = word_steps(addr, data@, hclk_hz, k as int);
        push_operation(&mut out, at, value, hclk_hz / 20_000);
        proof {
            let one = Seq::new(
                4,
                |j: int| operation_step(at, value, hclk_hz / 20_000, j),
            );
            let next = word_steps(addr, data@, hclk_hz, k + 1);
            assert forall|j: int| 0 <= j < next.len() implies next[j] == (done + one)[j] by {
                if j >= 4 * k {
                    assert(j / 4 == k && j % 4 == j - 4 * k);
                }
            }
            assert(next =~= done + one);
            assert(opening + done + one =~= opening + next);
        }
        k += 1;
    }
    push_closing(&mut out);
    Ok(out)
}

/// Program a word.
pub fn program_word(addr: u32, value: u32, hclk_hz: u32) -> (r: Result<
    Vec<Step<EfmError>>,
    EfmError,
>)
    ensures
        match r {
            Ok(steps) => {
                &&& addr % 4 == 0
                &&& addr + 4 <= 0x0008_0000
                &&& steps@ == opening_steps(OpMode::Program, hclk_hz) + Seq::new(
                    4,
                    |j: int| operation_step(addr, value, hclk_hz / 20_000, j),
                ) + closing_steps()
            },
            Err(e) => e == EfmError::InvalidAddr && (addr % 4 != 0 || addr + 4 > 0x0008_0000),
        },
{
    let bytes: [u8; 4] = [
        (value % 0x100) as u8,
        (value / 0x100 % 0x100) as u8,
        (value / 0x1_0000 % 0x100) as u8,
        (value / 0x100_0000) as u8,
    ];
    let r = program(addr, &bytes, hclk_hz);
    proof {
        assert(word_of(bytes@, 0) == value);
        if r is Ok {
            let words = word_steps(addr, bytes@, hclk_hz, 1);
            let one = Seq::new(4, |j: int| operation_step(addr, value, hclk_hz / 20_000, j));
            assert forall|j: int| 0 <= j < 4 implies words[j] == one[j] by {
                assert(j / 4 == 0 && j % 4 == j);
            }
            assert(words =~= one);
        }
    }
    r
}

/// Wait cycles that reading flash takes at a clock frequency.
pub open spec fn cycles_for(hclk_hz: u32) -> u32 {
    if hclk_hz <= 33_000_000 {
        0
    } else if hclk_hz <= 66_000_000 {
        1
    } else if hclk_hz <= 99_000_000 {
        2
    } else if hclk_hz <= 132_000_000 {
        3
    } else if hclk_hz <= 168_000_000 {
        4
    } else {
        5
    }
}

/// Wait cycles that reading flash takes at a clock frequency.
pub fn wait_cycle(hclk_hz: u32) -> (r: u32)
    ensures
        r == cycles_for(hclk_hz),
{
    if hclk_hz <= 33_000_000 {
        0
    } else if hclk_hz <= 66_000_000 {
        1
    } else if hclk_hz <= 99_000_000 {
        2
    } else if hclk_hz <= 132_000_000 {
        3
    } else if hclk_hz <= 168_000_000 {
        4
    } else {
        5
    }
}

/// The wait cycles are set and read back.
pub open spec fn wait_cycle_steps<E>(hclk_hz: u32) -> Seq<Step<E>> {
    seq![
        Step::<E>::Do(word(0x4001_0400, 0x0123)),
        Step::<E>::Do(word(0x4001_0400, 0x3210)),
        Step::<E>::Do(change_word(0x4001_0408, 0xf0, cycles_for(hclk_hz) << 4u32)),
        Step::<E>::Wait {
            check: when_word(0x4001_0408, 0xf0, cycles_for(hclk_hz) << 4u32),
            limit: Limit::Never,
            otherwise: Otherwise::GoOn,
        },
        Step::<E>::Do(word(0x4001_0400, 0)),
    ]
}

/// Set the wait cycles of flash for a clock frequency.
pub fn set_wait_cycle<E>(hclk_hz: u32) -> (r: Vec<Step<E>>)
    ensures
        r@ == wait_cycle_steps::<E>(hclk_hz),
{
    let cycles: u32 = wait_cycle(hclk_hz) << 4u32;
    vec![
        Step::Do(word(FAPRT, 0x0123)),
        Step::Do(word(FAPRT, 0x3210)),
        Step::Do(change_word(FRMC, 0xf0, cycles)),
        Step::Wait {
            check: when_word(FRMC, 0xf0, cycles),
            limit: Limit::Never,
            otherwise: Otherwise::GoOn,
        },
        Step::Do(lock()),
    ]
}

/// Once the controller has been waited for, an operation leaves it locked, also
/// when it fails.
pub proof fn law_operations_end_locked(addr: u32, data: Seq<u8>, hclk_hz: u32)
    requires
        data.len() <= 0x0008_0000,
    ensures
        crate::mmio::guarded(erase_steps(addr, hclk_hz).skip(1), word(0x4001_0400, 0)),
        crate::mmio::guarded(program_steps(addr, data, hclk_hz).skip(1), word(0x4001_0400, 0)),
        crate::mmio::guarded(wait_cycle_steps::<EfmError>(hclk_hz), word(0x4001_0400, 0)),
{
    let erase = erase_steps(addr, hclk_hz);
    let program = program_steps(addr, data, hclk_hz);
    let words = word_steps(addr, data, hclk_hz, word_count(data.len() as int));
    assert(erase.skip(1).last() == erase.last());
    assert(program.skip(1).last() == program.last());
    assert forall|i: int| 0 <= i < program.skip(1).len() implies (match #[trigger] program.skip(
        1,
    )[i] {
        Step::Wait { otherwise, .. } => crate::mmio::relocks(otherwise, word(0x4001_0400, 0)),
        Step::Insist { otherwise, .. } => crate::mmio::relocks(otherwise, word(0x4001_0400, 0)),
        _ => true,
    }) by {
        assert(program.skip(1)[i] == program[i + 1]);
        if 6 <= i + 1 < 6 + words.len() {
            assert(program[i + 1] == words[i + 1 - 6]);
        }
    }
}

// ---------------------------------------------------------------------------
// What becomes of flash
// ---------------------------------------------------------------------------

proof fn lemma_flash_bits(v: u32, code: u32, cycles: u32, status: u32)
    requires
        code <= 7,
        cycles <= 15,
    ensures
        ({
            let ready = (((v & !0u32) | 0x01u32) & !0x70u32) | (code << 4u32);
            let closed = ((((ready & !0x70u32) | (0u32 << 4u32)) & !0x01u32) | 0u32);
            &&& (ready >> 4u32) & 0x7 == code
            &&& ready & 0x01 == 1
            &&& closed & 0x71 == 0
            &&& closed & 0xffff_ff8e == v & 0xffff_ff8e
        }),
        ({
            let x = (v & !0xf0u32) | (cycles << 4u32);
            &&& (x >> 4u32) & 0xf == cycles
            &&& x & 0xffff_ff0f == v & 0xffff_ff0f
        }),
        status & 0x2f == 0 <==> status & 0x01 == 0 && status & 0x02 == 0 && status & 0x04 == 0
            && status & 0x08 == 0 && status & 0x20 == 0,
        status & 0x2f == 0x01 ==> status & 0x01 != 0,
        status & 0x2f == 0x02 ==> status & 0x01 == 0 && status & 0x02 != 0,
        status & 0x2f == 0x04 ==> status & 0x03 == 0 && status & 0x01 == 0 && status & 0x02 == 0
            && status & 0x04 != 0,
        status & 0x2f == 0x08 ==> status & 0x01 == 0 && status & 0x02 == 0 && status & 0x04 == 0
            && status & 0x08 != 0,
        status & 0x2f == 0x20 ==> status & 0x01 == 0 && status & 0x02 == 0 && status & 0x04 == 0
            && status & 0x08 == 0 && status & 0x20 != 0,
{
    assert({
        let ready = (((v & !0u32) | 0x01u32) & !0x70u32) | (code << 4u32);
        let closed = ((((ready & !0x70u32) | (0u32 << 4u32)) & !0x01u32) | 0u32);
        let x = (v & !0xf0u32) | (cycles << 4u32);
        &&& (ready >> 4u32) & 0x7 == code && ready & 0x01 == 1 && closed & 0x71 == 0 && closed
            & 0xffff_ff8e == v & 0xffff_ff8e
        &&& (x >> 4u32) & 0xf == cycles && x & 0xffff_ff0f == v & 0xffff_ff0f
        &&& (status & 0x2f == 0) == (status & 0x01 == 0 && status & 0x02 == 0 && status & 0x04 == 0
            && status & 0x08 == 0 && status & 0x20 == 0)
        &&& status & 0x2f == 0x01 ==> status & 0x01 != 0
        &&& status & 0x2f == 0x02 ==> status & 0x01 == 0 && status & 0x02 != 0
        &&& status & 0x2f == 0x04 ==> status & 0x03 == 0 && status & 0x01 == 0 && status & 0x02 == 0
            && status & 0x04 != 0
        &&& status & 0x2f == 0x08 ==> status & 0x01 == 0 && status & 0x02 == 0 && status & 0x04 == 0
            && status & 0x08 != 0
        &&& status & 0x2f == 0x20 ==> status & 0x01 == 0 && status & 0x02 == 0 && status & 0x04 == 0
            && status & 0x08 == 0 && status & 0x20 != 0
    }) by (bit_vector)
        requires
            code <= 7u32,
            cycles <= 15u32,
    ;
}

/// What the steps that program words leave at a word of flash.
proof fn lemma_words_are_written(
    addr: u32,
    data: Seq<u8>,
    hclk_hz: u32,
    n: int,
    k: int,
    at: u32,
    before: u32,
)
    requires
        addr % 4 == 0,
        addr + data.len() <= 0x0008_0000,
        0 <= n <= 4 * word_count(data.len() as int),
        at < 0x0008_0000,
        at == addr + 4 * k,
    ensures
        crate::mmio::left_after(
            word_steps(addr, data, hclk_hz, word_count(data.len() as int)),
            n,
            crate::mmio::word_at(at as usize),
            before,
        ) == (if 0 <= 4 * k < n {
            word_of(data, k) as u32
        } else {
            before
        }),
    decreases n,
{
    broadcast use crate::mmio::lemma_written;

    if n > 0 {
        lemma_words_are_written(addr, data, hclk_hz, n - 1, k, at, before);
        let j = n - 1;
        let steps = word_steps(addr, data, hclk_hz, word_count(data.len() as int));
        assert(steps[j] == operation_step(
            (addr + 4 * (j / 4)) as u32,
            word_of(data, j / 4) as u32,
            hclk_hz / 20_000,
            j % 4,
        ));
        if j % 4 == 0 {
            assert(j / 4 == k <==> j == 4 * k);
        }
    }
}

/// The four bytes of a word of the data.
proof fn lemma_word_bytes(data: Seq<u8>, k: int)
    requires
        k >= 0,
    ensures
        0 <= word_of(data, k) <= u32::MAX,
        word_of(data, k) % 0x100 == padded(data, 4 * k),
        word_of(data, k) / 0x100 % 0x100 == padded(data, 4 * k + 1),
        word_of(data, k) / 0x1_0000 % 0x100 == padded(data, 4 * k + 2),
        word_of(data, k) / 0x100_0000 == padded(data, 4 * k + 3),
{
    let a = padded(data, 4 * k);
    let b = padded(data, 4 * k + 1);
    let c = padded(data, 4 * k + 2);
    let d = padded(data, 4 * k + 3);
    let w = a + 0x100 * b + 0x1_0000 * c + 0x100_0000 * d;
    assert(w / 0x100_0000 == d);
    assert(w / 0x1_0000 == c + 0x100 * d);
    assert(w / 0x100 == b + 0x100 * c + 0x1_0000 * d);
}

/// The byte of `data` with an index, or 0xff beyond its end.
pub open spec fn byte_for(data: Seq<u8>, i: int) -> int {
    if 0 <= i < data.len() {
        data[i] as int
    } else {
        0xff
    }
}

/// Programming writes each byte of the data to its own address, from the given one on, in
/// the order of the data; what is left of the last word is 0xff, and no other word of
/// flash is written. Meanwhile the controller programs words; before and afterwards it
/// only reads, and it is locked again.
pub proof fn law_data_is_programmed(
    addr: u32,
    data: &[u8],
    hclk_hz: u32,
    steps: Vec<Step<EfmError>>,
    at: u32,
    before: u32,
    fwmc: u32,
)
    requires
        call_ensures(program, (addr, data, hclk_hz), Ok(steps)),
        at % 4 == 0,
        at < 0x0008_0000,
    ensures
        ({
            let w = crate::mmio::left_in(steps@, crate::mmio::word_at(at as usize), before);
            let i = at - addr;
            if 0 <= i < data@.len() {
                &&& w % 0x100 == byte_for(data@, i)
                &&& w / 0x100 % 0x100 == byte_for(data@, i + 1)
                &&& w / 0x1_0000 % 0x100 == byte_for(data@, i + 2)
                &&& w / 0x100_0000 == byte_for(data@, i + 3)
            } else {
                w == before
            }
        }),
        ({
            let mode = crate::mmio::left_after(steps@, 6, crate::mmio::word_at(0x4001_040c), fwmc);
            let last = crate::mmio::left_in(steps@, crate::mmio::word_at(0x4001_040c), fwmc);
            &&& (mode >> 4u32) & 0x7 == 1
            &&& mode & 0x01 == 1
            &&& last & 0x71 == 0
            &&& last & 0xffff_ff8e == fwmc & 0xffff_ff8e
        }),
        crate::mmio::left_in(steps@, crate::mmio::word_at(0x4001_0400), before) == 0,
{
    lemma_program_word(addr, data@, hclk_hz, at, before);
    lemma_program_mode(addr, data@, hclk_hz, before, fwmc);
    let i = at - addr;
    if 0 <= i < data@.len() {
        assert(i / 4 * 4 == i);
        lemma_word_bytes(data@, i / 4);
    }
}

/// What programming leaves at a word of flash.
proof fn lemma_program_word(addr: u32, data: Seq<u8>, hclk_hz: u32, at: u32, before: u32)
    requires
        addr % 4 == 0,
        addr + data.len() <= 0x0008_0000,
        at % 4 == 0,
        at < 0x0008_0000,
    ensures
        crate::mmio::left_in(
            program_steps(addr, data, hclk_hz),
            crate::mmio::word_at(at as usize),
            before,
        ) == (if addr <= at < addr + data.len() {
            word_of(data, (at - addr) / 4) as u32
        } else {
            before
        }),
{
    let count = word_count(data.len() as int);
    let opening = opening_steps(OpMode::Program, hclk_hz);
    let words = word_steps(addr, data, hclk_hz, count);
    let closing = closing_steps();
    let place = crate::mmio::word_at(at as usize);
    crate::mmio::lemma_left_add(opening + words, closing, place, before);
    crate::mmio::lemma_left_add(opening, words, place, before);
    assert(crate::mmio::left_in(opening, place, before) == before) by {
        reveal_with_fuel(crate::mmio::left_after, 7);
    }
    let v = crate::mmio::left_in(words, place, before);
    assert(crate::mmio::left_in(closing, place, v) == v) by {
        reveal_with_fuel(crate::mmio::left_after, 4);
    }
    let k = (at - addr) / 4;
    lemma_words_are_written(addr, data, hclk_hz, 4 * count, k, at, before);
}

/// The controller around programming.
proof fn lemma_program_mode(addr: u32, data: Seq<u8>, hclk_hz: u32, before: u32, fwmc: u32)
    requires
        addr + data.len() <= 0x0008_0000,
        addr % 4 == 0,
    ensures
        ({
            let steps = program_steps(addr, data, hclk_hz);
            let at = crate::mmio::left_after(steps, 6, crate::mmio::word_at(0x4001_040c), fwmc);
            let last = crate::mmio::left_in(steps, crate::mmio::word_at(0x4001_040c), fwmc);
            &&& (at >> 4u32) & 0x7 == 1
            &&& at & 0x01 == 1
            &&& last & 0x71 == 0
            &&& last & 0xffff_ff8e == fwmc & 0xffff_ff8e
            &&& crate::mmio::left_in(steps, crate::mmio::word_at(0x4001_0400), before) == 0
        }),
{
    let opening = opening_steps(OpMode::Program, hclk_hz);
    let words = word_steps(addr, data, hclk_hz, word_count(data.len() as int));
    let closing = closing_steps();
    assert forall|j: int| 0 <= j < words.len() implies exists|
        a: u32,
        value: u32,
        patience: u32,
        i: int,
    |
        a < 0x0008_0000 && 0 <= i < 4 && #[trigger] words[j] == #[trigger] operation_step(
            a,
            value,
            patience,
            i,
        ) by {
        assert(words[j] == operation_step(
            (addr + 4 * (j / 4)) as u32,
            word_of(data, j / 4) as u32,
            hclk_hz / 20_000,
            j % 4,
        ));
    }
    lemma_mode_around(opening, words, closing, OpMode::Program, hclk_hz, before, fwmc);
}

/// The controller around an operation.
proof fn lemma_mode_around(
    opening: Seq<Step<EfmError>>,
    inside: Seq<Step<EfmError>>,
    closing: Seq<Step<EfmError>>,
    mode: OpMode,
    hclk_hz: u32,
    before: u32,
    fwmc: u32,
)
    requires
        opening == opening_steps(mode, hclk_hz),
        closing == closing_steps(),
        forall|j: int|
            0 <= j < inside.len() ==> exists|addr: u32, value: u32, patience: u32, i: int|
                addr < 0x0008_0000 && 0 <= i < 4 && #[trigger] inside[j] == #[trigger]
                operation_step(addr, value, patience, i),
    ensures
        ({
            let steps = opening + inside + closing;
            let at = crate::mmio::left_after(steps, 6, crate::mmio::word_at(0x4001_040c), fwmc);
            let last = crate::mmio::left_in(steps, crate::mmio::word_at(0x4001_040c), fwmc);
            &&& (at >> 4u32) & 0x7 == mode_code(mode)
            &&& at & 0x01 == 1
            &&& last & 0x71 == 0
            &&& last & 0xffff_ff8e == fwmc & 0xffff_ff8e
            &&& crate::mmio::left_in(steps, crate::mmio::word_at(0x4001_0400), before) == 0
        }),
{
    broadcast use crate::mmio::lemma_written;

    let steps = opening + inside + closing;
    let place = crate::mmio::word_at(0x4001_040c);
    let lock = crate::mmio::word_at(0x4001_0400);
    lemma_flash_bits(fwmc, mode_code(mode), 0, 0);
    crate::mmio::lemma_left_add(opening + inside, closing, place, fwmc);
    crate::mmio::lemma_left_add(opening, inside, place, fwmc);
    crate::mmio::lemma_left_add(opening + inside, closing, lock, before);
    lemma_operations_spare_the_mode(
        inside,
        inside.len() as int,
        crate::mmio::left_in(opening, place, fwmc),
    );
    assert(crate::mmio::left_after(steps, 6, place, fwmc) == crate::mmio::left_in(
        opening,
        place,
        fwmc,
    )) by {
        reveal_with_fuel(crate::mmio::left_after, 7);
    }
    reveal_with_fuel(crate::mmio::left_after, 7);
}

proof fn lemma_operations_spare_the_mode(inside: Seq<Step<EfmError>>, n: int, v: u32)
    requires
        0 <= n <= inside.len(),
        forall|j: int|
            0 <= j < inside.len() ==> exists|addr: u32, value: u32, patience: u32, i: int|
                addr < 0x0008_0000 && 0 <= i < 4 && #[trigger] inside[j] == #[trigger]
                operation_step(addr, value, patience, i),
    ensures
        crate::mmio::left_after(inside, n, crate::mmio::word_at(0x4001_040c), v) == v,
    decreases n,
{
    if n > 0 {
        lemma_operations_spare_the_mode(inside, n - 1, v);
        let (addr, value, patience, i) = choose|addr: u32, value: u32, patience: u32, i: int|
            addr < 0x0008_0000 && 0 <= i < 4 && inside[n - 1] == #[trigger] operation_step(
                addr,
                value,
                patience,
                i,
            );
        assert(inside[n - 1] == operation_step(addr, value, patience, i));
    }
}

/// A sector is erased by a write to its address while the controller is in the erasing
/// mode; no other word of flash is written, and afterwards the controller only reads and
/// is locked.
pub proof fn law_sector_is_erased(
    addr: u32,
    hclk_hz: u32,
    steps: Vec<Step<EfmError>>,
    at: u32,
    before: u32,
    fwmc: u32,
)
    requires
        call_ensures(sector_erase, (addr, hclk_hz), Ok(steps)),
        at < 0x0008_0000,
        at != addr,
    ensures
        steps@[6] == Step::<EfmError>::Do(word(addr as usize, 0)),
        crate::mmio::left_in(steps@, crate::mmio::word_at(at as usize), before) == before,
        ({
            let mode = crate::mmio::left_after(steps@, 6, crate::mmio::word_at(0x4001_040c), fwmc);
            let last = crate::mmio::left_in(steps@, crate::mmio::word_at(0x4001_040c), fwmc);
            &&& (mode >> 4u32) & 0x7 == 4
            &&& mode & 0x01 == 1
            &&& last & 0x71 == 0
            &&& last & 0xffff_ff8e == fwmc & 0xffff_ff8e
        }),
        crate::mmio::left_in(steps@, crate::mmio::word_at(0x4001_0400), before) == 0,
{
    let opening = opening_steps(OpMode::SectorErase, hclk_hz);
    let inside = Seq::new(4, |j: int| operation_step(addr, 0, hclk_hz / 50, j));
    let closing = closing_steps();
    assert(steps@ == opening + inside + closing);
    assert forall|j: int| 0 <= j < inside.len() implies exists|
        a: u32,
        value: u32,
        patience: u32,
        i: int,
    |
        a < 0x0008_0000 && 0 <= i < 4 && #[trigger] inside[j] == #[trigger] operation_step(
            a,
            value,
            patience,
            i,
        ) by {
        assert(inside[j] == operation_step(addr, 0, hclk_hz / 50, j));
    }
    lemma_mode_around(opening, inside, closing, OpMode::SectorErase, hclk_hz, before, fwmc);
    reveal_with_fuel(crate::mmio::left_after, 14);
}

/// An operation has succeeded exactly if the status shows none of the five errors, and
/// every error flag leads to an error.
pub proof fn law_errors_are_reported(status: u32, outcome: Result<(), EfmError>)
    requires
        call_ensures(finish, (status,), outcome),
    ensures
        outcome is Ok <==> status & 0x2f == 0,
        status & 0x2f == 0x01 ==> outcome == Err::<(), EfmError>(EfmError::ProgramEraseError),
        status & 0x2f == 0x02 ==> outcome == Err::<(), EfmError>(EfmError::ProtectViolation),
        status & 0x2f == 0x04 ==> outcome == Err::<(), EfmError>(EfmError::SizeError),
        status & 0x2f == 0x08 ==> outcome == Err::<(), EfmError>(EfmError::Mismatch),
        status & 0x2f == 0x20 ==> outcome == Err::<(), EfmError>(EfmError::ReadCollision),
{
    lemma_flash_bits(0, 0, 0, status);
}

/// Flash is read no faster than it can be: up to 132 MHz there is one wait cycle more for
/// each 33 MHz, and no more than are needed; up to 168 MHz there are four, above that
/// five. The register holds the cycles in bits 4 to 7, and its other bits stay.
pub proof fn law_flash_keeps_up<E>(hclk_hz: u32, cycles: u32, steps: Vec<Step<E>>, before: u32)
    requires
        call_ensures(wait_cycle, (hclk_hz,), cycles),
        call_ensures(set_wait_cycle::<E>, (hclk_hz,), steps),
    ensures
        hclk_hz <= 132_000_000 ==> {
            &&& hclk_hz <= 33_000_000 * (cycles + 1)
            &&& cycles > 0 ==> hclk_hz > 33_000_000 * cycles
        },
        132_000_000 < hclk_hz <= 168_000_000 ==> cycles == 4,
        hclk_hz > 168_000_000 ==> cycles == 5,
        ({
            let v = crate::mmio::left_in(steps@, crate::mmio::word_at(0x4001_0408), before);
            &&& (v >> 4u32) & 0xf == cycles
            &&& v & 0xffff_ff0f == before & 0xffff_ff0f
        }),
        crate::mmio::left_in(steps@, crate::mmio::word_at(0x4001_0400), before) == 0,
{
    broadcast use crate::mmio::lemma_written;

    reveal_with_fuel(crate::mmio::left_after, 6);
    lemma_flash_bits(before, 0, cycles, 0);
}

} // verus!
