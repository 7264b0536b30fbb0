//! Guards: a lock that is held until the guard is released.
//!
//! A task of its own takes the lock, tells that it has it, and holds it until it
//! is told to let go.

use crate::error::LockError;
use futures::channel::oneshot::Sender;
use std::marker::PhantomData;
use std::time::Duration;
use vstd::prelude::*;

verus! {

/// `futures::channel::oneshot::Sender`: the sending half of a channel for one
/// value.
#[verifier::external_type_specification]
#[verifier::external_body]
#[verifier::reject_recursive_types(T)]
pub struct ExSender<T>(Sender<T>);

/// Holds the lock of an `L` until it is released.
#[derive(Debug)]
pub struct LockGuard<'a, L> {
    release: Option<Sender<()>>,
    lock: PhantomData<&'a L>,
}

/// What the task that takes the lock reports once its call is over: the error, if
/// the lock was refused. Otherwise it has reported already.
pub fn late_report(result: Result<(), LockError>) -> (report: Option<Result<(), LockError>>)
    ensures
        report == match result {
            Ok(()) => None::<Result<(), LockError>>,
            Err(error) => Some(Err::<(), LockError>(error)),
        },
{
    match result {
        Ok(()) => None,
        Err(error) => Some(Err(error)),
    }
}

impl<'a, L> LockGuard<'a, L> {
    /// Where the holder is to be told to let the lock go; nowhere once the guard
    /// has handed it out.
    pub closed spec fn channel(&self) -> Option<Sender<()>> {
        self.release
    }

    /// The guard, from the report on taking the lock: held if the lock was taken,
    /// else the error reported. Without a report the request counts as timed out.
    pub fn started(
        report: Option<Result<(), LockError>>,
        timeout: Duration,
        release: Sender<()>,
    ) -> (guard: Result<LockGuard<'a, L>, LockError>)
        ensures
            match report {
                Some(Ok(())) => guard matches Ok(taken) && taken.channel()
                    == Some(release),
                Some(Err(error)) => guard == Err::<LockGuard<'a, L>, LockError>(error),
                None => guard == Err::<LockGuard<'a, L>, LockError>(LockError::Timeout(timeout)),
            },
    {
        match report {
            Some(Ok(())) => Ok(LockGuard { release: Some(release), lock: PhantomData }),
            Some(Err(error)) => Err(error),
            None => Err(LockError::Timeout(timeout)),
        }
    }

    /// Lets the lock go: hands out the channel on which the holder is to be told,
    /// once. A second release hands out nothing.
    pub fn release(&mut self) -> (channel: Option<Sender<()>>)
        ensures
            channel == old(self).channel(),
            final(self).channel() is None,
    {
        self.release.take()
    }
}

} // verus!
