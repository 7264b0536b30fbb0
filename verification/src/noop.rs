//! The lock that locks nothing, for programs with a single thread.

use crate::error::LockError;
use std::time::Duration;
use vstd::prelude::*;

verus! {

/// Passthrough: every call enters at once.
#[derive(Clone, Debug, Default)]
pub struct NoopLock;

impl NoopLock {
    /// Starts the critical section at once and hands back what it gives (its
    /// value, or a future of it). There is no error, whatever the name and the
    /// timeout.
    pub fn with_lock<R, F: FnOnce() -> R>(
        &self,
        _name: &str,
        _timeout: Duration,
        op: F,
    ) -> (result: Result<R, LockError>)
        requires
            op.requires(()),
        ensures
            result matches Ok(value) && op.ensures((), value),
    {
        Ok(op())
    }
}

} // verus!
