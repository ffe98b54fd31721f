//! The processor: its interrupt mask, its cycle counter and its reset.

use vstd::prelude::*;

use crate::mmio::{Step, change_word, word};

verus! {

const DWT_CTRL: usize = 0xe000_1000;

const DWT_CYCCNT: usize = 0xe000_1004;

const DEMCR: usize = 0xe000_edfc;

const AIRCR: usize = 0xe000_ed0c;

/// The interrupt mask as it was before interrupts were masked.
#[derive(Clone, Copy, Debug, PartialEq, Eq, Structural)]
pub struct InterruptState(u32);

impl InterruptState {
    pub closed spec fn mask(self) -> u32 {
        self.0
    }
}

/// Mask the interrupts: the state to restore, and whether they have to be masked
/// now, which is not the case within another critical section.
pub fn acquire_interrupt_lock(primask: u32) -> (r: (InterruptState, bool))
    ensures
        r.0.mask() == primask,
        r.1 == (primask & 1 == 0),
{
    (InterruptState(primask), primask & 1 == 0)
}

/// What the mask register is set to when a critical section ends.
pub fn restore_interrupt_lock(state: InterruptState) -> (r: u32)
    ensures
        r == state.mask(),
{
    state.0
}

/// Whether an exception handler is running, given the exception number.
pub fn in_exception(ipsr: u32) -> (r: bool)
    ensures
        r == (ipsr != 0),
{
    ipsr != 0
}

/// The cycle counter is started from zero.
pub open spec fn counter_steps<E>() -> Seq<Step<E>> {
    seq![
        Step::<E>::Do(change_word(0xe000_edfc, 0, 0x0100_0000)),
        Step::<E>::Do(word(0xe000_1000, 0)),
        Step::<E>::Do(word(0xe000_1004, 0)),
        Step::<E>::Do(word(0xe000_1000, 1)),
    ]
}

/// What has to be done before the cycle counter can be read: it is started unless
/// its control register says that it is running.
pub fn cycles_now<E>(control: u32) -> (r: Vec<Step<E>>)
    ensures
        r@ == (if control & 1 == 0 {
            counter_steps::<E>()
        } else {
            Seq::empty()
        }),
{
    if control & 1 == 0 {
        start_counter()
    } else {
        Vec::new()
    }
}

/// Start the cycle counter from zero.
pub fn start_counter<E>() -> (r: Vec<Step<E>>)
    ensures
        r@ == counter_steps::<E>(),
{
    vec![
        Step::Do(change_word(DEMCR, 0, 0x0100_0000)),
        Step::Do(word(DWT_CTRL, 0)),
        Step::Do(word(DWT_CYCCNT, 0)),
        Step::Do(word(DWT_CTRL, 1)),
    ]
}

/// Reset the system: the priority grouping is kept and the key written with the
/// request.
pub fn system_reset<E>() -> (r: Vec<Step<E>>)
    ensures
        r@ == seq![
            Step::<E>::Mask,
            Step::<E>::Do(change_word(0xe000_ed0c, 0xffff_f8ff, 0x05fa_0004)),
        ],
{
    vec![Step::Mask, Step::Do(change_word(AIRCR, 0xffff_f8ff, 0x05fa_0004))]
}

/// A critical section leaves the interrupts as it found them, and masks them only if they
/// were not masked already.
pub proof fn law_critical_sections_restore_the_mask(
    primask: u32,
    taken: (InterruptState, bool),
    restored: u32,
)
    requires
        call_ensures(acquire_interrupt_lock, (primask,), taken),
        call_ensures(restore_interrupt_lock, (taken.0,), restored),
    ensures
        restored == primask,
        taken.1 <==> primask & 1 == 0,
{
}

/// A counter that was started runs from zero, with tracing switched on; a reset asks for
/// itself with the key, and keeps the grouping of the priorities.
pub proof fn law_counter_and_reset<E>(start: Vec<Step<E>>, reset: Vec<Step<E>>, before: u32)
    requires
        call_ensures(start_counter::<E>, (), start),
        call_ensures(system_reset::<E>, (), reset),
    ensures
        crate::mmio::left_in(start@, crate::mmio::word_at(0xe000_1000), before) == 1,
        crate::mmio::left_in(start@, crate::mmio::word_at(0xe000_1004), before) == 0,
        crate::mmio::left_in(start@, crate::mmio::word_at(0xe000_edfc), before) & 0x0100_0000
            == 0x0100_0000,
        ({
            let v = crate::mmio::left_in(reset@, crate::mmio::word_at(0xe000_ed0c), before);
            &&& v & 0x05fa_0004 == 0x05fa_0004
            &&& v & !0x05fa_0004u32 == before & !0xffff_f8ffu32 & !0x05fa_0004u32
        }),
        reset@[0] == Step::<E>::Mask,
{
    broadcast use crate::mmio::lemma_written;

    reveal_with_fuel(crate::mmio::left_after, 5);
    crate::mmio::law_accesses_set_and_keep(change_word(0xe000_edfc, 0, 0x0100_0000), before);
    crate::mmio::law_accesses_set_and_keep(
        change_word(0xe000_ed0c, 0xffff_f8ff, 0x05fa_0004),
        before,
    );
}

} // verus!
