//! A slot for a callback.
//!
//! A driver has one slot for each event that it reports. Installing a callback
//! replaces the one before; an empty slot calls nothing.

use vstd::prelude::*;

verus! {

/// A slot for a callback of type `C`.
pub struct NotifySlot<C> {
    callback: Option<C>,
}

impl<C: Copy> NotifySlot<C> {
    /// The installed callback.
    pub closed spec fn installed(self) -> Option<C> {
        self.callback
    }

    /// An empty slot.
    pub fn new() -> (r: Self)
        ensures
            r.installed() is None,
    {
        NotifySlot { callback: None }
    }

    /// Install a callback in place of the one before.
    pub fn store(&mut self, callback: C)
        ensures
            final(self).installed() == Some(callback),
    {
        self.callback = Some(callback);
    }

    /// Remove the callback.
    pub fn clear(&mut self)
        ensures
            final(self).installed() is None,
    {
        self.callback = None;
    }

    /// The callback to be called now, if there is one.
    pub fn call(&self) -> (r: Option<C>)
        ensures
            r == self.installed(),
    {
        self.callback
    }

    /// Whether a callback is installed.
    pub fn is_installed(&self) -> (r: bool)
        ensures
            r == self.installed() is Some,
    {
        self.callback.is_some()
    }
}

} // verus!
