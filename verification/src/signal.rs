//! The wake-up signal of one place in a waiting line.

use std::ops::Deref;
use tokio::sync::Notify;
use vstd::prelude::*;

verus! {

/// A wake-up signal with its number. Number and signal are made together and stay
/// together, so two signals with different numbers wake different calls.
pub struct Signal {
    notify: Notify,
    number: u64,
}

impl Signal {
    /// The number that the signal was made with.
    pub closed spec fn number(self) -> u64 {
        self.number
    }

    /// What a task waits on.
    pub closed spec fn target(self) -> Notify {
        self.notify
    }

    /// A new signal that nobody has given yet.
    pub fn new(number: u64) -> (signal: Signal)
        ensures
            signal.number() == number,
    {
        Signal { notify: Notify::new(), number }
    }
}

impl Deref for Signal {
    type Target = Notify;

    /// What a task waits on.
    fn deref(&self) -> (target: &Notify)
        ensures
            *target == self.target(),
    {
        &self.notify
    }
}

} // verus!
