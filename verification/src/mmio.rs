//! Register accesses as data.
//!
//! The drivers of this library do not touch registers. They compute *programs*:
//! lists of accesses, waits and pauses that the program around the library carries
//! out in order. [`Runner`] says what to do next, and what has been read back.

use vstd::prelude::*;

verus! {

/// How many bytes an access moves.
#[derive(Clone, Copy, Debug, PartialEq, Eq, Structural)]
pub enum Width {
    Byte,
    Half,
    Word,
}

/// What is read or written at once.
#[derive(Clone, Copy, Debug, PartialEq, Eq, Structural)]
pub struct Place {
    pub addr: usize,
    pub width: Width,
}

/// A register gets the bits of `set` and keeps those of `keep`. When nothing is
/// kept, it is written without being read.
#[derive(Clone, Copy, Debug, PartialEq, Eq, Structural)]
pub struct Access {
    pub place: Place,
    pub keep: u32,
    pub set: u32,
}

/// The bits of `mask` are those of `value`.
#[derive(Clone, Copy, Debug, PartialEq, Eq, Structural)]
pub struct Check {
    pub place: Place,
    pub mask: u32,
    pub value: u32,
}

/// When a wait is given up.
#[derive(Clone, Copy, Debug, PartialEq, Eq, Structural)]
pub enum Limit {
    /// Never.
    Never,
    /// After so many readings that did not satisfy the check.
    Readings(u64),
    /// When so many microseconds have passed.
    Micros(u32),
}

/// A few accesses.
#[derive(Clone, Copy, Debug, PartialEq, Eq, Structural)]
pub enum Cleanup {
    Nothing,
    One(Access),
    Two(Access, Access),
    Three(Access, Access, Access),
}

impl Cleanup {
    /// The accesses, in order.
    pub open spec fn list(self) -> Seq<Access> {
        match self {
            Cleanup::Nothing => Seq::empty(),
            Cleanup::One(a) => seq![a],
            Cleanup::Two(a, b) => seq![a, b],
            Cleanup::Three(a, b, c) => seq![a, b, c],
        }
    }

    /// The access with an index.
    fn get(self, i: usize) -> (r: Option<Access>)
        ensures
            r == (if i < self.list().len() {
                Some(self.list()[i as int])
            } else {
                None
            }),
    {
        match self {
            Cleanup::Nothing => None,
            Cleanup::One(a) => if i == 0 {
                Some(a)
            } else {
                None
            },
            Cleanup::Two(a, b) => if i == 0 {
                Some(a)
            } else if i == 1 {
                Some(b)
            } else {
                None
            },
            Cleanup::Three(a, b, c) => if i == 0 {
                Some(a)
            } else if i == 1 {
                Some(b)
            } else if i == 2 {
                Some(c)
            } else {
                None
            },
        }
    }
}

/// What follows when a wait is given up.
#[derive(Debug, PartialEq, Eq)]
pub enum Otherwise<E> {
    /// The program goes on.
    GoOn,
    /// The program ends with `error`, after the accesses of `cleanup`.
    Fail { cleanup: Cleanup, error: E },
}

/// A step of a program.
#[derive(Debug, PartialEq, Eq)]
pub enum Step<E> {
    /// Mask the interrupts.
    Mask,
    /// Undo the last [`Step::Mask`].
    Unmask,
    /// An access.
    Do(Access),
    /// Read until the check holds.
    Wait { check: Check, limit: Limit, otherwise: Otherwise<E> },
    /// Repeat an access until the check holds, so many times at most.
    Insist { access: Access, check: Check, tries: u32, otherwise: Otherwise<E> },
    /// Idle for so many instructions.
    Spin(u32),
    /// Idle for so many microseconds.
    Pause(u32),
}

/// A program between two others: `after` is carried out whatever came of `inside`,
/// and what came of `inside` is what comes of the whole.
#[derive(Debug, PartialEq, Eq)]
pub struct Bracketed<E> {
    pub before: Vec<Step<E>>,
    pub inside: Vec<Step<E>>,
    pub after: Vec<Step<E>>,
}

/// Write a 32-bit register.
#[verifier::allow_in_spec]
pub fn word(addr: usize, value: u32) -> Access
    returns
        (Access { place: Place { addr, width: Width::Word }, keep: 0, set: value }),
{
    Access { place: Place { addr, width: Width::Word }, keep: 0, set: value }
}

/// Write a 16-bit register.
#[verifier::allow_in_spec]
pub fn half(addr: usize, value: u16) -> Access
    returns
        (Access { place: Place { addr, width: Width::Half }, keep: 0, set: value as u32 }),
{
    Access { place: Place { addr, width: Width::Half }, keep: 0, set: value as u32 }
}

/// Write an 8-bit register.
#[verifier::allow_in_spec]
pub fn byte(addr: usize, value: u8) -> Access
    returns
        (Access { place: Place { addr, width: Width::Byte }, keep: 0, set: value as u32 }),
{
    Access { place: Place { addr, width: Width::Byte }, keep: 0, set: value as u32 }
}

/// Change a 32-bit register.
#[verifier::allow_in_spec]
pub fn change_word(addr: usize, clear: u32, set: u32) -> Access
    returns
        (Access { place: Place { addr, width: Width::Word }, keep: !clear, set }),
{
    Access { place: Place { addr, width: Width::Word }, keep: !clear, set }
}

/// Change a 16-bit register.
#[verifier::allow_in_spec]
pub fn change_half(addr: usize, clear: u16, set: u16) -> Access
    returns
        (Access {
            place: Place { addr, width: Width::Half },
            keep: (!clear) as u32,
            set: set as u32,
        }),
{
    Access { place: Place { addr, width: Width::Half }, keep: (!clear) as u32, set: set as u32 }
}

/// Change an 8-bit register.
#[verifier::allow_in_spec]
pub fn change_byte(addr: usize, clear: u8, set: u8) -> Access
    returns
        (Access {
            place: Place { addr, width: Width::Byte },
            keep: (!clear) as u32,
            set: set as u32,
        }),
{
    Access { place: Place { addr, width: Width::Byte }, keep: (!clear) as u32, set: set as u32 }
}

/// A check of a 32-bit register.
#[verifier::allow_in_spec]
pub fn when_word(addr: usize, mask: u32, value: u32) -> Check
    returns
        (Check { place: Place { addr, width: Width::Word }, mask, value }),
{
    Check { place: Place { addr, width: Width::Word }, mask, value }
}

/// A check of an 8-bit register.
#[verifier::allow_in_spec]
pub fn when_byte(addr: usize, mask: u8, value: u8) -> Check
    returns
        (Check { place: Place { addr, width: Width::Byte }, mask: mask as u32, value: value as u32 }),
{
    Check { place: Place { addr, width: Width::Byte }, mask: mask as u32, value: value as u32 }
}

impl Access {
    /// What the register holds afterwards.
    pub open spec fn result(self, before: u32) -> u32 {
        (before & self.keep) | self.set
    }
}

/// A register at a fixed address.
#[derive(Clone, Copy, Debug, PartialEq, Eq, Structural)]
pub struct Reg {
    addr: usize,
}

impl Reg {
    pub closed spec fn address(self) -> usize {
        self.addr
    }

    /// The register at `addr`.
    pub fn new(addr: usize) -> (r: Self)
        ensures
            r.address() == addr,
    {
        Reg { addr }
    }

    /// The register at `offset` from `base`.
    pub fn at(base: usize, offset: usize) -> (r: Self)
        requires
            base + offset <= usize::MAX,
        ensures
            r.address() == base + offset,
    {
        Self::new(base + offset)
    }

    /// Where to read 32 bits.
    pub fn read(&self) -> (r: Place)
        ensures
            r == (Place { addr: self.address(), width: Width::Word }),
    {
        Place { addr: self.addr, width: Width::Word }
    }

    /// Write 32 bits.
    pub fn write(&self, value: u32) -> (r: Access)
        ensures
            r == word(self.address(), value),
    {
        word(self.addr, value)
    }

    /// Clear bits of a 32-bit register and set others.
    pub fn modify(&self, clear: u32, set: u32) -> (r: Access)
        ensures
            r == change_word(self.address(), clear, set),
    {
        change_word(self.addr, clear, set)
    }

    /// Where to read 16 bits.
    pub fn read_u16(&self) -> (r: Place)
        ensures
            r == (Place { addr: self.address(), width: Width::Half }),
    {
        Place { addr: self.addr, width: Width::Half }
    }

    /// Write 16 bits.
    pub fn write_u16(&self, value: u16) -> (r: Access)
        ensures
            r == half(self.address(), value),
    {
        half(self.addr, value)
    }

    /// Clear bits of a 16-bit register and set others.
    pub fn modify_u16(&self, clear: u16, set: u16) -> (r: Access)
        ensures
            r == change_half(self.address(), clear, set),
    {
        change_half(self.addr, clear, set)
    }

    /// Where to read 8 bits.
    pub fn read_u8(&self) -> (r: Place)
        ensures
            r == (Place { addr: self.address(), width: Width::Byte }),
    {
        Place { addr: self.addr, width: Width::Byte }
    }

    /// Write 8 bits.
    pub fn write_u8(&self, value: u8) -> (r: Access)
        ensures
            r == byte(self.address(), value),
    {
        byte(self.addr, value)
    }

    /// Clear bits of an 8-bit register and set others.
    pub fn modify_u8(&self, clear: u8, set: u8) -> (r: Access)
        ensures
            r == change_byte(self.address(), clear, set),
    {
        change_byte(self.addr, clear, set)
    }
}

// ---------------------------------------------------------------------------
// Running a program
// ---------------------------------------------------------------------------

/// What to do next.
#[derive(Debug, PartialEq, Eq)]
pub enum Action<E> {
    /// Nothing; ask again.
    Nothing,
    Mask,
    Unmask,
    /// Read, and hand in what was read.
    Read(Place),
    Write(Place, u32),
    Spin(u32),
    Pause(u32),
    /// The program is over.
    Done(Result<(), E>),
}

/// Where within a step a run is.
#[derive(Clone, Copy, Debug, PartialEq, Eq, Structural)]
pub enum Phase {
    /// Before the step, or before another try of it.
    Start,
    /// A register is being read to be changed.
    Changing,
    /// The access of the step has been made.
    Made,
    /// A register is being read to be checked.
    Checking,
    /// The step has been given up.
    Cleaning,
    /// As before, and a register is being read to be changed.
    CleaningChange,
}

/// How far a run has come.
#[derive(Clone, Copy, Debug, PartialEq, Eq, Structural)]
pub struct Progress {
    /// The step.
    pub at: usize,
    pub phase: Phase,
    /// Readings of this step that did not satisfy its check.
    pub failed: u64,
    /// Accesses of the clean-up that were made.
    pub cleaned: usize,
}

/// The run goes on with the next step.
#[verifier::allow_in_spec]
fn onward(p: Progress) -> Progress
    requires
        p.at < usize::MAX,
    returns
        (Progress { at: (p.at + 1) as usize, phase: Phase::Start, failed: 0, cleaned: 0 }),
{
    Progress { at: p.at + 1, phase: Phase::Start, failed: 0, cleaned: 0 }
}

pub open spec fn following(p: Progress) -> Progress {
    Progress { at: (p.at + 1) as usize, phase: Phase::Start, failed: 0, cleaned: 0 }
}

pub open spec fn in_phase(p: Progress, phase: Phase) -> Progress {
    Progress { phase, ..p }
}

/// What a step waits for, and how often an unsatisfied check is tolerated.
pub open spec fn given_up(limit: Limit, failed: int, elapsed: u32) -> bool {
    match limit {
        Limit::Never => false,
        Limit::Readings(n) => failed >= n,
        Limit::Micros(us) => elapsed >= us,
    }
}

/// A step is given up.
pub open spec fn abandoned<E>(otherwise: Otherwise<E>, p: Progress) -> (Progress, Action<E>) {
    match otherwise {
        Otherwise::GoOn => (following(p), Action::Nothing),
        Otherwise::Fail { .. } => (in_phase(p, Phase::Cleaning), Action::Nothing),
    }
}

/// An unsatisfied check.
pub open spec fn one_more(p: Progress) -> u64 {
    if p.failed == u64::MAX {
        u64::MAX
    } else {
        (p.failed + 1) as u64
    }
}

/// Cleaning up after a step that was given up.
pub open spec fn cleaning<E>(otherwise: Otherwise<E>, p: Progress, reading: u32) -> (
    Progress,
    Action<E>,
) {
    match otherwise {
        Otherwise::GoOn => (following(p), Action::Nothing),
        Otherwise::Fail { cleanup, error } => if p.cleaned >= cleanup.list().len() {
            (p, Action::Done(Err(error)))
        } else {
            let access = cleanup.list()[p.cleaned as int];
            if p.phase == Phase::CleaningChange || access.keep == 0 {
                (
                    Progress { cleaned: (p.cleaned + 1) as usize, phase: Phase::Cleaning, ..p },
                    Action::Write(
                        access.place,
                        if p.phase == Phase::CleaningChange {
                            access.result(reading)
                        } else {
                            access.set
                        },
                    ),
                )
            } else {
                (in_phase(p, Phase::CleaningChange), Action::Read(access.place))
            }
        },
    }
}

/// What comes next in a run: the progress and the action. `reading` is what was
/// read last, and `elapsed` the time in microseconds since the step began.
pub open spec fn advance<E>(program: Seq<Step<E>>, p: Progress, reading: u32, elapsed: u32) -> (
    Progress,
    Action<E>,
) {
    if p.at >= program.len() {
        (p, Action::Done(Ok(())))
    } else {
        match program[p.at as int] {
            Step::Mask => (following(p), Action::Mask),
            Step::Unmask => (following(p), Action::Unmask),
            Step::Spin(n) => (following(p), Action::Spin(n)),
            Step::Pause(us) => (following(p), Action::Pause(us)),
            Step::Do(access) => if p.phase == Phase::Changing {
                (following(p), Action::Write(access.place, access.result(reading)))
            } else if access.keep == 0 {
                (following(p), Action::Write(access.place, access.set))
            } else {
                (in_phase(p, Phase::Changing), Action::Read(access.place))
            },
            Step::Wait { check, limit, otherwise } => if p.phase == Phase::Cleaning || p.phase
                == Phase::CleaningChange {
                cleaning(otherwise, p, reading)
            } else if p.phase != Phase::Checking {
                if limit == Limit::Readings(0) {
                    abandoned(otherwise, p)
                } else {
                    (in_phase(p, Phase::Checking), Action::Read(check.place))
                }
            } else if reading & check.mask == check.value {
                (following(p), Action::Nothing)
            } else {
                let q = Progress { failed: one_more(p), ..p };
                if given_up(limit, q.failed as int, elapsed) {
                    abandoned(otherwise, q)
                } else {
                    (q, Action::Read(check.place))
                }
            },
            Step::Insist { access, check, tries, otherwise } => if p.phase == Phase::Cleaning
                || p.phase == Phase::CleaningChange {
                cleaning(otherwise, p, reading)
            } else if p.phase == Phase::Start {
                if tries == 0 {
                    abandoned(otherwise, p)
                } else if access.keep == 0 {
                    (in_phase(p, Phase::Made), Action::Write(access.place, access.set))
                } else {
                    (in_phase(p, Phase::Changing), Action::Read(access.place))
                }
            } else if p.phase == Phase::Changing {
                (in_phase(p, Phase::Made), Action::Write(access.place, access.result(reading)))
            } else if p.phase == Phase::Made {
                (in_phase(p, Phase::Checking), Action::Read(check.place))
            } else if reading & check.mask == check.value {
                (following(p), Action::Nothing)
            } else {
                let q = Progress { failed: one_more(p), phase: Phase::Start, ..p };
                if q.failed >= tries {
                    abandoned(otherwise, q)
                } else {
                    (q, Action::Nothing)
                }
            },
        }
    }
}

/// A run of a program.
pub struct Runner<E> {
    program: Vec<Step<E>>,
    progress: Progress,
}

fn abandon<E: Copy>(otherwise: &Otherwise<E>, p: Progress) -> (r: (Progress, Action<E>))
    requires
        p.at < usize::MAX,
    ensures
        r == abandoned(*otherwise, p),
{
    match otherwise {
        Otherwise::GoOn => (onward(p), Action::Nothing),
        Otherwise::Fail { .. } => (Progress { phase: Phase::Cleaning, ..p }, Action::Nothing),
    }
}

fn clean_up<E: Copy>(otherwise: &Otherwise<E>, p: Progress, reading: u32) -> (r: (
    Progress,
    Action<E>,
))
    requires
        p.at < usize::MAX,
    ensures
        r == cleaning(*otherwise, p, reading),
{
    match otherwise {
        Otherwise::GoOn => (onward(p), Action::Nothing),
        Otherwise::Fail { cleanup, error } => {
            let access: Access = match cleanup.get(p.cleaned) {
                Some(access) => access,
                None => {
                    return (p, Action::Done(Err(*error)));
                },
            };
            if p.phase == Phase::CleaningChange {
                (
                    Progress { cleaned: p.cleaned + 1, phase: Phase::Cleaning, ..p },
                    Action::Write(access.place, (reading & access.keep) | access.set),
                )
            } else if access.keep == 0 {
                (
                    Progress { cleaned: p.cleaned + 1, phase: Phase::Cleaning, ..p },
                    Action::Write(access.place, access.set),
                )
            } else {
                (
                    Progress { phase: Phase::CleaningChange, ..p },
                    Action::Read(access.place),
                )
            }
        },
    }
}

fn exhausted(limit: Limit, failed: u64, elapsed: u32) -> (r: bool)
    ensures
        r == given_up(limit, failed as int, elapsed),
{
    match limit {
        Limit::Never => false,
        Limit::Readings(n) => failed >= n,
        Limit::Micros(us) => elapsed >= us,
    }
}

impl<E: Copy> Runner<E> {
    pub closed spec fn steps(self) -> Seq<Step<E>> {
        self.program@
    }

    pub closed spec fn progress(self) -> Progress {
        self.progress
    }

    /// A run that has not begun.
    pub fn new(program: Vec<Step<E>>) -> (r: Self)
        ensures
            r.steps() == program@,
            r.progress() == (Progress { at: 0, phase: Phase::Start, failed: 0, cleaned: 0 }),
    {
        Runner { program, progress: Progress { at: 0, phase: Phase::Start, failed: 0, cleaned: 0 } }
    }

    /// What to do next. `reading` is what was read last, and `elapsed` the time in
    /// microseconds since the step began.
    pub fn next(&mut self, reading: u32, elapsed: u32) -> (r: Action<E>)
        ensures
            final(self).steps() == old(self).steps(),
            (final(self).progress(), r) == advance(
                old(self).steps(),
                old(self).progress(),
                reading,
                elapsed,
            ),
    {
        let p: Progress = self.progress;
        if p.at >= self.program.len() {
            return Action::Done(Ok(()));
        }
        let (q, action) = match &self.program[p.at] {
            Step::Mask => (onward(p), Action::Mask),
            Step::Unmask => (onward(p), Action::Unmask),
            Step::Spin(n) => (onward(p), Action::Spin(*n)),
            Step::Pause(us) => (onward(p), Action::Pause(*us)),
            Step::Do(access) => {
                if p.phase == Phase::Changing {
                    (
                        onward(p),
                        Action::Write(access.place, (reading & access.keep) | access.set),
                    )
                } else if access.keep == 0 {
                    (onward(p), Action::Write(access.place, access.set))
                } else {
                    (Progress { phase: Phase::Changing, ..p }, Action::Read(access.place))
                }
            },
            Step::Wait { check, limit, otherwise } => {
                if p.phase == Phase::Cleaning || p.phase == Phase::CleaningChange {
                    clean_up(otherwise, p, reading)
                } else if p.phase != Phase::Checking {
                    let none: bool = match limit {
                        Limit::Readings(n) => *n == 0,
                        _ => false,
                    };
                    if none {
                        abandon(otherwise, p)
                    } else {
                        (Progress { phase: Phase::Checking, ..p }, Action::Read(check.place))
                    }
                } else if reading & check.mask == check.value {
                    (onward(p), Action::Nothing)
                } else {
                    let failed: u64 = p.failed.saturating_add(1);
                    let q: Progress = Progress { failed, ..p };
                    if exhausted(*limit, failed, elapsed) {
                        abandon(otherwise, q)
                    } else {
                        (q, Action::Read(check.place))
                    }
                }
            },
            Step::Insist { access, check, tries, otherwise } => {
                if p.phase == Phase::Cleaning || p.phase == Phase::CleaningChange {
                    clean_up(otherwise, p, reading)
                } else if p.phase == Phase::Start {
                    if *tries == 0 {
                        abandon(otherwise, p)
                    } else if access.keep == 0 {
                        (
                            Progress { phase: Phase::Made, ..p },
                            Action::Write(access.place, access.set),
                        )
                    } else {
                        (Progress { phase: Phase::Changing, ..p }, Action::Read(access.place))
                    }
                } else if p.phase == Phase::Changing {
                    (
                        Progress { phase: Phase::Made, ..p },
                        Action::Write(access.place, (reading & access.keep) | access.set),
                    )
                } else if p.phase == Phase::Made {
                    (Progress { phase: Phase::Checking, ..p }, Action::Read(check.place))
                } else if reading & check.mask == check.value {
                    (onward(p), Action::Nothing)
                } else {
                    let failed: u64 = p.failed.saturating_add(1);
                    let q: Progress = Progress { failed, phase: Phase::Start, ..p };
                    if failed >= *tries as u64 {
                        abandon(otherwise, q)
                    } else {
                        (q, Action::Nothing)
                    }
                }
            },
        };
        self.progress = q;
        action
    }
}

/// Whichever way a run of the program ends, the last thing it does is `lock`: as
/// its last step, or at the end of the clean-up after a step that was given up.
pub open spec fn guarded<E>(program: Seq<Step<E>>, lock: Access) -> bool {
    &&& program.len() > 0
    &&& program.len() <= usize::MAX
    &&& lock.keep == 0
    &&& program.last() == Step::<E>::Do(lock)
    &&& forall|i: int|
        0 <= i < program.len() ==> (match #[trigger] program[i] {
            Step::Wait { otherwise, .. } => relocks(otherwise, lock),
            Step::Insist { otherwise, .. } => relocks(otherwise, lock),
            _ => true,
        })
}

/// Giving up ends with `lock`.
pub open spec fn relocks<E>(otherwise: Otherwise<E>, lock: Access) -> bool {
    match otherwise {
        Otherwise::GoOn => true,
        Otherwise::Fail { cleanup, .. } => cleanup.list().len() > 0 && cleanup.list().last() == lock,
    }
}

/// Only a step that can be given up is cleaned up after.
pub open spec fn coherent<E>(program: Seq<Step<E>>, p: Progress) -> bool {
    ||| p.cleaned == 0
    ||| {
        &&& p.phase == Phase::Cleaning || p.phase == Phase::CleaningChange
        &&& p.at < program.len()
        &&& program[p.at as int] is Wait || program[p.at as int] is Insist
    }
}

/// A guarded program is over only after `lock` was written.
pub proof fn law_guarded_runs_end_locked<E>(
    program: Seq<Step<E>>,
    lock: Access,
    p: Progress,
    reading: u32,
    elapsed: u32,
    then_reading: u32,
    then_elapsed: u32,
)
    requires
        guarded(program, lock),
        coherent(program, p),
        advance(program, p, reading, elapsed).1 !is Done,
        advance(
            program,
            advance(program, p, reading, elapsed).0,
            then_reading,
            then_elapsed,
        ).1 is Done,
    ensures
        advance(program, p, reading, elapsed).1 == Action::<E>::Write(lock.place, lock.set),
{
    lemma_written(lock, reading);
    let step = program[p.at as int];
    assert(p.at == program.len() - 1 ==> step == program.last());
}

/// A run begins coherent and stays so.
pub proof fn law_runs_stay_coherent<E>(
    program: Seq<Step<E>>,
    p: Progress,
    reading: u32,
    elapsed: u32,
)
    requires
        coherent(program, p),
    ensures
        coherent(program, advance(program, p, reading, elapsed).0),
{
}

// ---------------------------------------------------------------------------
// What a program leaves in a register
// ---------------------------------------------------------------------------

/// The 8-bit register at an address.
pub open spec fn byte_at(addr: usize) -> Place {
    Place { addr, width: Width::Byte }
}

/// The 16-bit register at an address.
pub open spec fn half_at(addr: usize) -> Place {
    Place { addr, width: Width::Half }
}

/// The 32-bit register at an address.
pub open spec fn word_at(addr: usize) -> Place {
    Place { addr, width: Width::Word }
}

/// What a register holds after a step, given what it held before. Waits and pauses
/// do not change it, and repeating an access does what one access does.
pub open spec fn left_by<E>(step: Step<E>, place: Place, held: u32) -> u32 {
    match step {
        Step::Do(access) => if access.place == place {
            access.result(held)
        } else {
            held
        },
        Step::Insist { access, .. } => if access.place == place {
            access.result(held)
        } else {
            held
        },
        _ => held,
    }
}

/// What a register holds when the first `n` steps have been carried out, given what it
/// held before.
pub open spec fn left_after<E>(steps: Seq<Step<E>>, n: int, place: Place, before: u32) -> u32
    decreases n,
{
    if n <= 0 {
        before
    } else {
        left_by(steps[n - 1], place, left_after(steps, n - 1, place, before))
    }
}

/// What a register holds when all steps have been carried out, given what it held
/// before.
pub open spec fn left_in<E>(steps: Seq<Step<E>>, place: Place, before: u32) -> u32 {
    left_after(steps, steps.len() as int, place, before)
}

/// What register number `key` behind a window holds when the first `n` steps have been
/// carried out: an access to the window reaches the register that the selector names at
/// that moment.
pub open spec fn window_after<E>(
    steps: Seq<Step<E>>,
    n: int,
    selector: Place,
    window: Place,
    key: int,
    selected: u32,
    held: u32,
) -> u32
    decreases n,
{
    if n <= 0 {
        held
    } else {
        let v = window_after(steps, n - 1, selector, window, key, selected, held);
        if left_after(steps, n - 1, selector, selected) == key {
            left_by(steps[n - 1], window, v)
        } else {
            v
        }
    }
}

/// What comes second works on what came first left.
pub proof fn lemma_left_add<E>(
    first: Seq<Step<E>>,
    second: Seq<Step<E>>,
    place: Place,
    before: u32,
)
    ensures
        left_in(first + second, place, before) == left_in(
            second,
            place,
            left_in(first, place, before),
        ),
{
    lemma_left_after_first(first, second, first.len() as int, place, before);
    lemma_left_after_second(first, second, second.len() as int, place, before);
}

proof fn lemma_left_after_first<E>(
    first: Seq<Step<E>>,
    second: Seq<Step<E>>,
    n: int,
    place: Place,
    before: u32,
)
    requires
        n <= first.len(),
    ensures
        left_after(first + second, n, place, before) == left_after(first, n, place, before),
    decreases n,
{
    if n > 0 {
        lemma_left_after_first(first, second, n - 1, place, before);
    }
}

proof fn lemma_left_after_second<E>(
    first: Seq<Step<E>>,
    second: Seq<Step<E>>,
    n: int,
    place: Place,
    before: u32,
)
    requires
        0 <= n <= second.len(),
    ensures
        left_after(first + second, first.len() + n, place, before) == left_after(
            second,
            n,
            place,
            left_in(first, place, before),
        ),
    decreases n,
{
    if n > 0 {
        lemma_left_after_second(first, second, n - 1, place, before);
    } else {
        lemma_left_after_first(first, second, first.len() as int, place, before);
    }
}

/// A register that is written without being read holds what was written.
pub broadcast proof fn lemma_written(access: Access, held: u32)
    requires
        access.keep == 0,
    ensures
        #[trigger] access.result(held) == access.set,
{
    let set = access.set;
    assert((held & 0u32) | set == set) by (bit_vector);
}

/// An access sets the bits of `set`, keeps the other bits of `keep`, and clears the rest.
pub proof fn law_accesses_set_and_keep(access: Access, held: u32)
    ensures
        access.result(held) & access.set == access.set,
        access.result(held) & !access.set == held & access.keep & !access.set,
{
    let keep = access.keep;
    let set = access.set;
    assert(((held & keep) | set) & set == set && ((held & keep) | set) & !set == held & keep & !set)
        by (bit_vector);
}

/// A run carries an access out: if nothing of the register is kept it is written at once,
/// otherwise it is read first and then written; either way the register then holds what
/// [`left_by`] says, and the next step follows.
pub proof fn law_runs_carry_accesses_out<E>(
    program: Seq<Step<E>>,
    p: Progress,
    access: Access,
    before: u32,
    elapsed: u32,
    held: u32,
    later: u32,
)
    requires
        p.at < program.len() <= usize::MAX,
        p.phase == Phase::Start,
        program[p.at as int] == Step::<E>::Do(access),
    ensures
        ({
            let (q, action) = advance(program, p, before, elapsed);
            let (r, second) = advance(program, q, held, later);
            let value = left_by(program[p.at as int], access.place, held);
            if access.keep == 0 {
                action == Action::<E>::Write(access.place, value) && q == following(p)
            } else {
                &&& action == Action::<E>::Read(access.place)
                &&& second == Action::<E>::Write(access.place, value)
                &&& r == following(p)
            }
        }),
        following(p).at == p.at + 1,
{
    if access.keep == 0 {
        lemma_written(access, held);
    }
}

/// A wait ends when what was read satisfies the check, and not before, unless it is given
/// up: after as many readings as the limit allows, or when the time is over. What is given
/// up with an error ends the run with that error once its clean-up is done.
pub proof fn law_waits_end_as_they_should<E>(
    program: Seq<Step<E>>,
    p: Progress,
    check: Check,
    limit: Limit,
    cleanup: Cleanup,
    error: E,
    reading: u32,
    elapsed: u32,
)
    requires
        p.at < program.len() <= usize::MAX,
        p.failed < u64::MAX,
        program[p.at as int] == (Step::Wait {
            check,
            limit,
            otherwise: Otherwise::Fail { cleanup, error },
        }),
    ensures
        p.phase == Phase::Start && limit != Limit::Readings(0) ==> {
            &&& advance(program, p, reading, elapsed).1 == Action::<E>::Read(check.place)
            &&& advance(program, p, reading, elapsed).0.phase == Phase::Checking
        },
        p.phase == Phase::Checking ==> {
            let (q, action) = advance(program, p, reading, elapsed);
            let met = reading & check.mask == check.value;
            let over = match limit {
                Limit::Never => false,
                Limit::Readings(n) => p.failed + 1 >= n,
                Limit::Micros(us) => elapsed >= us,
            };
            &&& met <==> q.at == p.at + 1
            &&& !met && !over ==> action == Action::<E>::Read(check.place) && q.failed == p.failed
                + 1 && q.phase == Phase::Checking
            &&& !met && over ==> q.phase == Phase::Cleaning && q.at == p.at
        },
        (p.phase == Phase::Cleaning || p.phase == Phase::CleaningChange) && p.cleaned
            >= cleanup.list().len() ==> advance(program, p, reading, elapsed).1
            == Action::<E>::Done(Err(error)),
{
}

/// A run ends well exactly if all steps are behind it.
pub proof fn law_runs_end_after_their_last_step<E>(
    program: Seq<Step<E>>,
    p: Progress,
    reading: u32,
    elapsed: u32,
)
    ensures
        advance(program, p, reading, elapsed).1 == Action::<E>::Done(Ok(())) <==> p.at
            >= program.len(),
{
}

} // verus!
