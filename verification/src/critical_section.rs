//! Sections of code that no interrupt can enter.

use vstd::prelude::*;

use crate::mmio::{Bracketed, Step};

verus! {

/// Evidence that interrupts are masked, for as long as `'cs` lasts.
#[derive(Clone, Copy)]
pub struct CriticalSection<'cs> {
    lifetime: core::marker::PhantomData<&'cs ()>,
}

/// Carry out steps with the interrupts masked; afterwards the mask is as before,
/// so that sections can be nested.
pub fn with<E>(steps: Vec<Step<E>>) -> (r: Bracketed<E>)
    ensures
        r.before@ == seq![Step::<E>::Mask],
        r.inside@ == steps@,
        r.after@ == seq![Step::<E>::Unmask],
{
    Bracketed { before: vec![Step::Mask], inside: steps, after: vec![Step::Unmask] }
}

/// Whether an interrupt handler is running, given the exception number.
pub fn in_isr(ipsr: u32) -> (r: bool)
    ensures
        r == (ipsr != 0),
{
    crate::arch::in_exception(ipsr)
}

} // verus!
