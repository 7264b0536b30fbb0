//! The lock of a browser page: what a call asks the page's lock manager for, and
//! what it makes of the answer.
//!
//! The page keeps the set of names that it holds through the lock manager
//! (`active`). Re-entrant calls go by the names that the task holds: see
//! [`reentry`](crate::reentry).

use crate::error::LockError;
use crate::names::NameSet;
use crate::timing::{nanos_of, FOREVER_NANOS, NANOS_PER_MILLI};
use std::time::Duration;
use vstd::prelude::*;
use vstd::string::StringExecFns;

verus! {

/// Lock of a browser page, by its lock manager.
#[derive(Clone, Debug, Default)]
pub struct NavigatorLock;

/// How long the lock manager is to keep a request.
#[derive(Clone, Copy, Debug, PartialEq, Eq)]
pub enum WaitMode {
    /// Answer at once, with no lock if it is taken.
    IfAvailable,
    /// Keep the request until the lock is free.
    Forever,
    /// Abort the request after that many milliseconds.
    AbortAfter(i32),
}

/// What became of a request to the lock manager.
#[derive(Debug, PartialEq, Eq)]
pub enum Outcome<R> {
    /// The lock manager called back, and this is the answer: the value of the
    /// critical section, or the error if there was no lock to give.
    Sent(Result<R, LockError>),
    /// The call's own deadline aborted the request.
    Aborted,
    /// The lock manager rejected the request, for that reason.
    Rejected(String),
}

/// The longest delay that a page's timer takes, in milliseconds.
pub const MAX_DELAY: i32 = 2_147_483_647;

/// How long the lock manager is to keep a request with a timeout of `nanos`
/// nanoseconds. Delays are whole milliseconds, rounded down, up to [`MAX_DELAY`].
pub open spec fn mode_of(nanos: u128) -> WaitMode {
    if nanos == 0 {
        WaitMode::IfAvailable
    } else if nanos == FOREVER_NANOS {
        WaitMode::Forever
    } else if nanos / NANOS_PER_MILLI <= MAX_DELAY {
        WaitMode::AbortAfter((nanos / NANOS_PER_MILLI) as i32)
    } else {
        WaitMode::AbortAfter(MAX_DELAY)
    }
}

/// How long the lock manager is to keep a request with a timeout of `nanos`
/// nanoseconds.
pub fn wait_mode(nanos: u128) -> (mode: WaitMode)
    ensures
        mode == mode_of(nanos),
        mode is IfAvailable <==> nanos == 0,
        mode is Forever <==> nanos == 18_446_744_073_709_551_615_999_999_999,
        mode matches WaitMode::AbortAfter(millis) ==> {
            &&& 0 <= millis <= 2_147_483_647
            &&& millis * 1_000_000 <= nanos
            &&& millis < 2_147_483_647 ==> nanos < (millis + 1) * 1_000_000
        },
{
    if nanos == 0 {
        WaitMode::IfAvailable
    } else if nanos == FOREVER_NANOS {
        WaitMode::Forever
    } else {
        let millis: u128 = nanos / NANOS_PER_MILLI;
        if millis <= MAX_DELAY as u128 {
            WaitMode::AbortAfter(millis as i32)
        } else {
            WaitMode::AbortAfter(MAX_DELAY)
        }
    }
}

impl NavigatorLock {
    /// Begins a call under `name`: decides what to ask the lock manager for. A call
    /// without patience for a name that this page holds is refused here.
    pub fn with_lock(&self, active: &NameSet, name: &str, timeout: Duration) -> (mode: Result<
        WaitMode,
        LockError,
    >)
        ensures
            mode == if nanos_of(timeout) == 0 && active@.contains(name@) {
                Err::<WaitMode, LockError>(LockError::Timeout(timeout))
            } else {
                Ok::<WaitMode, LockError>(mode_of(nanos_of(timeout)))
            },
            mode is Err <==> nanos_of(timeout) == 0 && active@.contains(name@),
            mode matches Err(error) ==> error == LockError::Timeout(timeout),
            mode matches Ok(mode) ==> {
                &&& mode is IfAvailable <==> nanos_of(timeout) == 0
                &&& mode is Forever <==> nanos_of(timeout)
                    == 18_446_744_073_709_551_615_999_999_999
                &&& mode matches WaitMode::AbortAfter(millis) ==> {
                    &&& 0 <= millis <= 2_147_483_647
                    &&& millis * 1_000_000 <= nanos_of(timeout)
                    &&& millis < 2_147_483_647 ==> nanos_of(timeout) < (millis + 1) * 1_000_000
                }
            },
    {
        let nanos: u128 = timeout.as_nanos();
        if nanos == 0 && active.contains(name) {
            Err(LockError::Timeout(timeout))
        } else {
            Ok(wait_mode(nanos))
        }
    }

    /// Takes the lock manager's answer: `held` if it gave the lock. The critical
    /// section runs if and only if it did; else the error is the reply.
    pub fn answered(
        &self,
        active: &mut NameSet,
        name: &str,
        timeout: Duration,
        held: bool,
    ) -> (go: Result<(), LockError>)
        ensures
            go == if held {
                Ok::<(), LockError>(())
            } else {
                Err::<(), LockError>(LockError::Timeout(timeout))
            },
            final(active)@ == if held {
                old(active)@.insert(name@)
            } else {
                old(active)@
            },
    {
        if held {
            active.insert(name);
            Ok(())
        } else {
            Err(LockError::Timeout(timeout))
        }
    }

    /// Notes that the critical section is over.
    pub fn settled(&self, active: &mut NameSet, name: &str)
        ensures
            final(active)@ == old(active)@.remove(name@),
    {
        active.remove(name);
    }

    /// What became of a request that the lock manager rejected: `overdue` if the
    /// call's own deadline had aborted it.
    pub fn rejected<R>(&self, overdue: bool, reason: &str) -> (outcome: Outcome<R>)
        ensures
            match outcome {
                Outcome::Aborted => overdue,
                Outcome::Rejected(text) => !overdue && text@ == reason@,
                Outcome::Sent(_) => false,
            },
    {
        if overdue {
            Outcome::Aborted
        } else {
            Outcome::Rejected(String::from_str(reason))
        }
    }

    /// What became of a request, from what came over its channel. A channel that
    /// closed without a word counts as a rejection.
    pub fn received<R>(&self, sent: Option<Outcome<R>>) -> (outcome: Outcome<R>)
        ensures
            match sent {
                Some(word) => outcome == word,
                None => outcome matches Outcome::Rejected(reason) && reason@
                    == "oneshot cancelled"@,
            },
    {
        match sent {
            Some(word) => word,
            None => Outcome::Rejected(String::from_str("oneshot cancelled")),
        }
    }

    /// The result of a call, from what became of its request.
    pub fn reply<R>(&self, outcome: Outcome<R>, timeout: Duration) -> (result: Result<R, LockError>)
        ensures
            result == match outcome {
                Outcome::Sent(answer) => answer,
                Outcome::Aborted => Err::<R, LockError>(LockError::Timeout(timeout)),
                Outcome::Rejected(reason) => Err::<R, LockError>(LockError::Js(reason)),
            },
    {
        match outcome {
            Outcome::Sent(answer) => answer,
            Outcome::Aborted => Err(LockError::Timeout(timeout)),
            Outcome::Rejected(reason) => Err(LockError::Js(reason)),
        }
    }

    /// The result of a re-entrant call that took the lock: the lock is kept by a
    /// request of its own while the section runs. `kept` is the result of that
    /// request, `out` the value of the section, if it ran.
    pub fn kept_reply<R>(
        &self,
        kept: Result<(), LockError>,
        out: Option<R>,
        timeout: Duration,
    ) -> (result: Result<R, LockError>)
        ensures
            match (kept, out) {
                (Err(error), _) => result == Err::<R, LockError>(error),
                (Ok(()), Some(value)) => result == Ok::<R, LockError>(value),
                (Ok(()), None) => result matches Err(LockError::Js(reason)) && reason@
                    == "oneshot cancelled"@,
            },
    {
        match kept {
            Err(error) => Err(error),
            Ok(()) => {
                let sent = match out {
                    Some(value) => Some(Outcome::Sent(Ok(value))),
                    None => None,
                };
                self.reply(self.received(sent), timeout)
            },
        }
    }
}

/// A call that waits for a while asks for the whole milliseconds of its timeout:
/// never longer than the timeout, and less than a millisecond shorter, unless no
/// timer takes that delay; then it asks for the longest that one takes.
pub proof fn delay_is_the_timeout_in_milliseconds(nanos: u128)
    requires
        0 < nanos,
        nanos != 18_446_744_073_709_551_615_999_999_999,
    ensures
        mode_of(nanos) matches WaitMode::AbortAfter(millis) && {
            &&& 0 <= millis <= 2_147_483_647
            &&& millis * 1_000_000 <= nanos
            &&& nanos < 2_147_483_648_000_000 ==> nanos < (millis + 1) * 1_000_000
            &&& nanos >= 2_147_483_647_000_000 ==> millis == 2_147_483_647
        },
{
}

/// A timeout of so many milliseconds, and any part of the next, is a delay of so
/// many milliseconds.
pub proof fn milliseconds_come_back(millis: i32, part: u128)
    requires
        0 <= millis,
        part < 1_000_000,
        millis > 0 || part > 0,
    ensures
        mode_of((millis * 1_000_000 + part) as u128) == WaitMode::AbortAfter(millis),
{
    let nanos = (millis * 1_000_000 + part) as u128;
    assert(nanos / 1_000_000 == millis);
}

/// Of two calls that wait for a while, the one with the longer timeout does not ask
/// for the shorter delay; and a millisecond more is a delay of one more.
pub proof fn longer_timeouts_wait_longer(a: u128, b: u128)
    requires
        0 < a <= b,
        b < 18_446_744_073_709_551_615_999_999_999,
    ensures
        mode_of(a) matches WaitMode::AbortAfter(x) && mode_of(b) matches WaitMode::AbortAfter(y)
            && {
            &&& x <= y
            &&& b == a + 1_000_000 && x < 2_147_483_647 ==> y == x + 1
        },
{
}

/// Only a call without patience is answered at once, and only one without end is
/// kept for ever.
pub proof fn only_the_extremes_are_not_timed(nanos: u128)
    ensures
        mode_of(nanos) is IfAvailable <==> nanos == 0,
        mode_of(nanos) is Forever <==> nanos == 18_446_744_073_709_551_615_999_999_999,
{
}

/// What happens to the set of names that a page holds.
pub enum PageStep {
    /// The lock manager answered a request for the name.
    Answered { name: Seq<char>, held: bool },
    /// A critical section under the name is over.
    Settled { name: Seq<char> },
}

impl PageStep {
    /// The lock name that the step is about.
    pub open spec fn name(self) -> Seq<char> {
        match self {
            PageStep::Answered { name, held } => name,
            PageStep::Settled { name } => name,
        }
    }

    /// The names that a page holds after the step, given those before it.
    pub open spec fn on(self, active: Set<Seq<char>>) -> Set<Seq<char>> {
        match self {
            PageStep::Answered { name, held } => if held {
                active.insert(name)
            } else {
                active
            },
            PageStep::Settled { name } => active.remove(name),
        }
    }
}

/// What [`NavigatorLock::answered`] does to the names that the page holds is the
/// lock manager's answer, and the section runs just if the lock was given.
pub proof fn answering_is_a_step(
    before: Set<Seq<char>>,
    name: Seq<char>,
    timeout: Duration,
    held: bool,
    go: Result<(), LockError>,
    after: Set<Seq<char>>,
)
    requires
        go == if held {
            Ok::<(), LockError>(())
        } else {
            Err::<(), LockError>(LockError::Timeout(timeout))
        },
        after == if held {
            before.insert(name)
        } else {
            before
        },
    ensures
        after == (PageStep::Answered { name, held: go is Ok }).on(before),
        go is Ok ==> after.contains(name),
{
}

/// What [`NavigatorLock::settled`] does to the names that the page holds is a
/// section that is over.
pub proof fn settling_is_a_step(before: Set<Seq<char>>, name: Seq<char>, after: Set<Seq<char>>)
    requires
        after == before.remove(name),
    ensures
        after == (PageStep::Settled { name }).on(before),
        !after.contains(name),
{
}

/// The names that a page holds after all of `steps`.
pub open spec fn active_after(steps: Seq<PageStep>) -> Set<Seq<char>>
    decreases steps.len(),
{
    if steps.len() == 0 {
        Set::empty()
    } else {
        steps.last().on(active_after(steps.drop_last()))
    }
}

/// What happens under one name does not change whether a page holds another: a
/// call under the other name is begun in the same way.
pub proof fn names_are_held_apart(steps: Seq<PageStep>, step: PageStep, other: Seq<char>)
    requires
        step.name() != other,
    ensures
        active_after(steps.push(step)).contains(other) == active_after(steps).contains(other),
{
    assert(steps.push(step).drop_last() =~= steps);
}

/// From the moment it gets the lock of a name until its section is over, a page
/// holds the name, whatever else happens: calls without patience are refused.
pub proof fn held_until_settled(steps: Seq<PageStep>, at: int, name: Seq<char>)
    requires
        0 <= at < steps.len(),
        steps[at] == (PageStep::Answered { name, held: true }),
        forall|j: int| at < j < steps.len() ==> steps[j] != (PageStep::Settled { name }),
    ensures
        active_after(steps).contains(name),
    decreases steps.len(),
{
    if at < steps.len() - 1 {
        held_until_settled(steps.drop_last(), at, name);
        assert(steps[steps.len() - 1] != (PageStep::Settled { name }));
    }
}

/// From the moment a section is over until it gets the lock again, a page does
/// not hold the name, whatever else happens: no call is refused by the page.
pub proof fn free_until_held(steps: Seq<PageStep>, at: int, name: Seq<char>)
    requires
        0 <= at < steps.len(),
        steps[at] == (PageStep::Settled { name }),
        forall|j: int|
            at < j < steps.len() ==> steps[j] != (PageStep::Answered { name, held: true }),
    ensures
        !active_after(steps).contains(name),
    decreases steps.len(),
{
    if at < steps.len() - 1 {
        free_until_held(steps.drop_last(), at, name);
        assert(steps[steps.len() - 1] != (PageStep::Answered { name, held: true }));
    }
}

} // verus!
