//! The interrupt controller: events, lines and priorities.
//!
//! An event reaches the processor over a line: the selection register of the line
//! holds the number of the event, or 0x1ff when there is none. Lines 0 to 127 can
//! be selected freely; 128 to 143 are shared and not served here.

use vstd::prelude::*;

use crate::mmio::{Access, Place, Width, byte, word};

pub mod src;

verus! {

const SEL0: usize = 0x4005_105c;

const SEL_UNMAPPED: u32 = 0x1ff;

const NVIC_ISER: usize = 0xe000_e100;

const NVIC_ICER: usize = 0xe000_e180;

const NVIC_ISPR: usize = 0xe000_e200;

const NVIC_ICPR: usize = 0xe000_e280;

const NVIC_IPR: usize = 0xe000_e400;

/// An interrupt line, 0 to 143.
#[derive(Clone, Copy, Debug, PartialEq, Eq, Structural)]
pub struct Line(u8);

/// Why an interrupt cannot be registered.
#[derive(Clone, Copy, Debug, PartialEq, Eq, Structural)]
pub enum IrqError {
    /// Another event is routed to the line.
    LineTaken,
    /// The line is a shared one.
    LineUnsupported,
}

impl Line {
    pub closed spec fn number(self) -> u8 {
        self.0
    }

    /// The line with a number.
    pub fn new(n: u8) -> (r: Self)
        requires
            n < 144,
        ensures
            r.number() == n,
    {
        Line(n)
    }

    /// The number of the line.
    pub fn n(self) -> (r: u8)
        ensures
            r == self.number(),
    {
        self.0
    }
}

/// The bit of line `n` is written to one of the registers from `base` on, which
/// hold 32 lines each.
pub open spec fn line_access(base: usize, n: u8) -> Access {
    word((base + 4 * (n / 32)) as usize, 1u32 << (n % 32))
}

/// The selection register of line `n` gets an event.
pub open spec fn select_access(n: u8, event: u32) -> Access {
    word((0x4005_105c + 4 * n) as usize, event)
}

/// The priority of line `n`, in the upper half of a byte.
pub open spec fn priority_access(n: u8, priority: u8) -> Access {
    byte((0xe000_e400 + n) as usize, ((priority & 0x0f) << 4) as u8)
}

fn line_bit(base: usize, line: Line) -> (r: Access)
    requires
        base <= 0xe000_e400,
    ensures
        r == line_access(base, line.number()),
{
    let n: u8 = line.n();
    word(base + 4 * ((n / 32) as usize), 1u32 << (n % 32))
}

fn select(line: Line, event: u32) -> (r: Access)
    ensures
        r == select_access(line.number(), event),
{
    word(SEL0 + 4 * (line.n() as usize), event)
}

/// Let a line interrupt.
pub fn enable(line: Line) -> (r: Access)
    ensures
        r == line_access(0xe000_e100, line.number()),
{
    line_bit(NVIC_ISER, line)
}

/// Keep a line from interrupting.
pub fn disable(line: Line) -> (r: Access)
    ensures
        r == line_access(0xe000_e180, line.number()),
{
    line_bit(NVIC_ICER, line)
}

/// Make an interrupt pending.
pub fn pend(line: Line) -> (r: Access)
    ensures
        r == line_access(0xe000_e200, line.number()),
{
    line_bit(NVIC_ISPR, line)
}

/// Withdraw a pending interrupt.
pub fn clear_pend(line: Line) -> (r: Access)
    ensures
        r == line_access(0xe000_e280, line.number()),
{
    line_bit(NVIC_ICPR, line)
}

/// Set the priority of a line: 0 to 15, the smaller the more urgent.
pub fn set_priority(line: Line, priority: u8) -> (r: Access)
    requires
        priority <= 15,
    ensures
        r == priority_access(line.number(), priority),
{
    byte(NVIC_IPR + line.n() as usize, (priority & 0x0f) << 4)
}

/// Where the priority of a line is read.
pub fn priority_place(line: Line) -> (r: Place)
    ensures
        r == (Place { addr: (0xe000_e400 + line.number()) as usize, width: Width::Byte }),
{
    Place { addr: NVIC_IPR + line.n() as usize, width: Width::Byte }
}

/// The priority that a priority register holds.
pub fn priority(register: u8) -> (r: u8)
    ensures
        r == register / 16,
{
    proof {
        lemma_line_bits(0, 1, 0, register);
    }
    register >> 4
}

/// Where the event of a line is read.
pub fn selection_place(line: Line) -> (r: Place)
    ensures
        r == (Place { addr: (0x4005_105c + 4 * line.number()) as usize, width: Width::Word }),
{
    Place { addr: SEL0 + 4 * (line.n() as usize), width: Width::Word }
}

/// How an interrupt is registered: the event is routed, the handler goes to a
/// slot of the vector table, and the line is armed.
#[derive(Debug, PartialEq, Eq)]
pub struct Registration {
    pub route: Access,
    pub slot: usize,
    pub arm: Vec<Access>,
}

/// How an interrupt is removed: the line is silenced, and the handler leaves a
/// slot of the vector table.
#[derive(Debug, PartialEq, Eq)]
pub struct Removal {
    pub silence: Vec<Access>,
    pub slot: usize,
}

/// Register an interrupt: route the event `source` to a line whose selection
/// register holds `selected`.
///
/// The line must be free, or be routed to the same event already. Only then does the
/// priority matter.
pub fn register(source: u32, line: Line, priority: u8, selected: u32) -> (r: Result<
    Registration,
    IrqError,
>)
    requires
        line.number() < 128 && (selected == 0x1ff || selected == source) ==> priority <= 15,
    ensures
        match r {
            Ok(reg) => {
                &&& line.number() < 128
                &&& selected == 0x1ff || selected == source
                &&& reg.route == select_access(line.number(), source)
                &&& reg.slot == line.number()
                &&& reg.arm@ == seq![
                    line_access(0xe000_e280, line.number()),
                    priority_access(line.number(), priority),
                    line_access(0xe000_e100, line.number()),
                ]
            },
            Err(IrqError::LineUnsupported) => line.number() >= 128,
            Err(IrqError::LineTaken) => line.number() < 128 && selected != 0x1ff && selected
                != source,
        },
{
    let n: u8 = line.n();
    if n >= 128 {
        return Err(IrqError::LineUnsupported);
    }
    if selected != SEL_UNMAPPED && selected != source {
        return Err(IrqError::LineTaken);
    }
    Ok(
        Registration {
            route: select(line, source),
            slot: n as usize,
            arm: vec![clear_pend(line), set_priority(line, priority), enable(line)],
        },
    )
}

/// Remove an interrupt; shared lines have none.
pub fn unregister(line: Line) -> (r: Option<Removal>)
    ensures
        match r {
            Some(removal) => {
                &&& line.number() < 128
                &&& removal.slot == line.number()
                &&& removal.silence@ == seq![
                    line_access(0xe000_e180, line.number()),
                    select_access(line.number(), 0x1ff),
                ]
            },
            None => line.number() >= 128,
        },
{
    let n: u8 = line.n();
    if n >= 128 {
        return None;
    }
    Some(
        Removal { silence: vec![disable(line), select(line, SEL_UNMAPPED)], slot: n as usize },
    )
}

proof fn lemma_line_bits(i: u8, j: u8, p: u8, register: u8)
    requires
        i < 32,
        j < 32,
        i != j,
    ensures
        (1u32 << i) & (1u32 << j) == 0,
        register >> 4 == register / 16,
        p <= 15 ==> ((p & 0x0f) << 4) as u8 == 16 * p,
{
    assert((1u32 << i) & (1u32 << j) == 0 && register >> 4 == register / 16 && (p <= 15u8 ==> ((p
        & 0x0f) << 4) as u8 == 16 * p)) by (bit_vector)
        requires
            i < 32u8,
            j < 32u8,
            i != j,
    ;
}

/// What is done to one line leaves every other line alone.
pub proof fn law_lines_are_independent(base: usize, a: u8, b: u8)
    requires
        base <= 0xe000_e400,
        a != b,
    ensures
        line_access(base, a).place != line_access(base, b).place || line_access(base, a).set
            & line_access(base, b).set == 0,
        select_access(a, 0).place != select_access(b, 0).place,
        priority_access(a, 0).place != priority_access(b, 0).place,
{
    if a / 32 == b / 32 {
        let i = a % 32;
        let j = b % 32;
        lemma_line_bits(i, j, 0, 0);
    }
}

/// A line is reached in the register of its group of 32, by the bit of its place in the
/// group, whether it is enabled, disabled, made pending or withdrawn; its selection and
/// its priority have a register each, and the priority that was set reads back.
pub proof fn law_lines_are_reached(
    line: Line,
    p: u8,
    on: Access,
    off: Access,
    up: Access,
    down: Access,
    set: Access,
    place: Place,
    back: u8,
)
    requires
        line.number() < 144,
        p <= 15,
        call_ensures(enable, (line,), on),
        call_ensures(disable, (line,), off),
        call_ensures(pend, (line,), up),
        call_ensures(clear_pend, (line,), down),
        call_ensures(set_priority, (line, p), set),
        call_ensures(priority_place, (line,), place),
        call_ensures(priority, (set.set as u8,), back),
    ensures
        ({
            let group = line.number() as int / 32;
            let bit = line.number() as int - 32 * group;
            let one = 1u32 << (bit as u8);
            &&& on == word((0xe000_e100 + 4 * group) as usize, one)
            &&& off == word((0xe000_e180 + 4 * group) as usize, one)
            &&& up == word((0xe000_e200 + 4 * group) as usize, one)
            &&& down == word((0xe000_e280 + 4 * group) as usize, one)
        }),
        set.place == place,
        set.keep == 0,
        set.set == 16 * p,
        back == p,
{
    lemma_line_bits(0, 1, p, set.set as u8);
}

/// An interrupt that was registered keeps its line to itself: the same event can be
/// registered again, another one cannot, until it is removed; then any can.
pub proof fn law_lines_serve_one_event(
    source: u32,
    other: u32,
    line: Line,
    p: u8,
    selected: u32,
    first: Registration,
    again: Result<Registration, IrqError>,
    second: Result<Registration, IrqError>,
    removal: Removal,
    later: Result<Registration, IrqError>,
)
    requires
        p <= 15,
        source != 0x1ff,
        other != source,
        call_ensures(register, (source, line, p, selected), Ok(first)),
        call_ensures(register, (source, line, p, first.route.set), again),
        call_ensures(register, (other, line, p, first.route.set), second),
        call_ensures(unregister, (line,), Some(removal)),
        call_ensures(register, (other, line, p, removal.silence@[1].set), later),
    ensures
        again is Ok,
        second == Err::<Registration, IrqError>(IrqError::LineTaken),
        later is Ok,
        first.slot == removal.slot,
        removal.silence@[1].place == first.route.place,
{
}

} // verus!
