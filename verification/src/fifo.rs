//! The first-come-first-served lock: what a call decides when it arrives, when
//! its wait ends, and when its critical section is over.
//!
//! A call goes through these values:
//!
//! * [`FifoLock::with_lock`] joins the line and gives an [`Arrival`]: enter at once,
//!   or wait;
//! * [`Queued::resume`] takes how the wait ended and gives an [`Entered`] or an
//!   [`Overdue`];
//! * [`Overdue::withdraw`] leaves the line and gives the error, and the place to
//!   wake if it was this call's turn;
//! * [`Entered::finish`] takes how the critical section ended, leaves the line
//!   and gives the reply and the place to wake.

use crate::error::LockError;
use crate::table::{table_lines_are_in_order, LockTable, Waiter};
use std::time::Duration;
use vstd::prelude::*;

verus! {

/// First-come-first-served lock. All values of this type share one table.
#[derive(Clone, Debug, Default)]
pub struct FifoLock;

/// The lock of native programs.
pub type DefaultLock = FifoLock;

/// What an arriving call does next.
pub enum Arrival {
    /// Nobody stood in line: run the critical section.
    Enter(Entered),
    /// Somebody stood in line: wait for the signal.
    Wait(Queued),
}

/// A call that waits for its signal.
pub struct Queued {
    name: String,
    timeout: Duration,
    waiter: Waiter,
}

/// A call whose wait took too long and which still stands in line.
pub struct Overdue {
    name: String,
    timeout: Duration,
    waiter: Waiter,
}

/// A call that holds the lock.
pub struct Entered {
    name: String,
    waiter: Waiter,
}

/// How a call ends.
pub enum Reply<R, P> {
    /// It returns.
    Return(Result<R, LockError>),
    /// Its critical section panicked, and the panic goes on.
    Unwind(P),
}

/// What a call leaves behind when its critical section is over.
pub struct Finished<R, P> {
    /// The place to wake, if anybody stands in line.
    pub next: Option<Waiter>,
    /// How the call ends.
    pub reply: Reply<R, P>,
}

impl Arrival {
    /// The lock name that the call asked for.
    pub open spec fn name(self) -> Seq<char> {
        match self {
            Arrival::Enter(call) => call.name(),
            Arrival::Wait(call) => call.name(),
        }
    }

    /// The place of the call in line.
    pub open spec fn waiter(self) -> Waiter {
        match self {
            Arrival::Enter(call) => call.waiter(),
            Arrival::Wait(call) => call.waiter(),
        }
    }
}

impl FifoLock {
    /// Begins a call under `name`: joins the line. The call enters at once if the
    /// line was empty, whatever its timeout; else it waits, at most for `timeout`.
    pub fn with_lock(&self, table: &mut LockTable, name: &str, timeout: Duration) -> (arrival:
        Arrival)
        requires
            old(table).wf(),
            old(table)@.next < u64::MAX,
        ensures
            final(table).wf(),
            final(table)@ == old(table)@.joined(name@, arrival.waiter()),
            arrival.name() == name@,
            arrival.waiter().ticket == old(table)@.next,
            arrival is Enter <==> old(table)@.line(name@).len() == 0,
            arrival matches Arrival::Wait(call) ==> call.timeout() == timeout,
            arrival is Enter <==> !(old(table)@.lines.contains_key(name@) && old(
                table,
            )@.lines[name@].len() > 0),
            arrival matches Arrival::Enter(call) ==> {
                &&& call.name() == name@
                &&& call.waiter().ticket == old(table)@.next
                &&& call.waiter().signal.number() == call.waiter().ticket
                &&& final(table)@.lines == old(table)@.lines.insert(name@, seq![call.waiter()])
            },
            arrival matches Arrival::Wait(call) ==> {
                &&& call.name() == name@
                &&& call.waiter().ticket == old(table)@.next
                &&& call.waiter().signal.number() == call.waiter().ticket
                &&& final(table)@.lines == old(table)@.lines.insert(
                    name@,
                    old(table)@.lines[name@].push(call.waiter()),
                )
            },
            final(table)@.next == old(table)@.next + 1,
            forall|n: Seq<char>, i: int|
                #![trigger old(table)@.lines[n][i]]
                old(table)@.lines.contains_key(n) && 0 <= i < old(table)@.lines[n].len() ==> old(
                    table,
                )@.lines[n][i].signal != arrival.waiter().signal,
    {
        let (waiter, position) = table.join(name);
        assert(position == 0 ==> old(table)@.line(name@).push(waiter) =~= seq![waiter]);
        if position != 0 {
            Arrival::Wait(Queued { name: name.to_owned(), timeout, waiter })
        } else {
            Arrival::Enter(Entered { name: name.to_owned(), waiter })
        }
    }
}

impl Queued {
    /// The lock name that the call asked for.
    pub closed spec fn name(self) -> Seq<char> {
        self.name@
    }

    /// How long the call is ready to wait.
    pub closed spec fn timeout(self) -> Duration {
        self.timeout
    }

    /// The place of the call in line.
    pub closed spec fn waiter(self) -> Waiter {
        self.waiter
    }

    /// The place whose signal the call waits for.
    pub fn place(&self) -> (place: Waiter)
        ensures
            place == self.waiter(),
    {
        self.waiter.duplicate()
    }

    /// How long the call is ready to wait.
    pub fn patience(&self) -> (timeout: Duration)
        ensures
            timeout == self.timeout(),
    {
        self.timeout
    }

    /// Goes on after the wait: `woken` if the signal came in time.
    pub fn resume(self, woken: bool) -> (call: Result<Entered, Overdue>)
        ensures
            call is Ok <==> woken,
            call matches Ok(inside) ==> inside.name() == self.name() && inside.waiter()
                == self.waiter(),
            call matches Err(late) ==> late.name() == self.name() && late.waiter() == self.waiter()
                && late.timeout() == self.timeout(),
    {
        if woken {
            Ok(Entered { name: self.name, waiter: self.waiter })
        } else {
            Err(Overdue { name: self.name, timeout: self.timeout, waiter: self.waiter })
        }
    }
}

impl Overdue {
    /// The lock name that the call asked for.
    pub closed spec fn name(self) -> Seq<char> {
        self.name@
    }

    /// How long the call was ready to wait.
    pub closed spec fn timeout(self) -> Duration {
        self.timeout
    }

    /// The place of the call in line.
    pub closed spec fn waiter(self) -> Waiter {
        self.waiter
    }

    /// Leaves the line. Gives the error to answer with and, if the call stood
    /// first, the place that stands first then: the turn of this call passes on
    /// to it, so it is to be woken.
    pub fn withdraw(self, table: &mut LockTable) -> (left: (LockError, Option<Waiter>))
        requires
            old(table).wf(),
        ensures
            final(table).wf(),
            final(table)@ == old(table)@.withdrawn(self.name(), self.waiter().ticket),
            left.0 == LockError::Timeout(self.timeout()),
            left.1 == if old(table)@.is_first(self.name(), self.waiter().ticket) {
                final(table)@.front(self.name())
            } else {
                None
            },
            final(table)@.next == old(table)@.next,
            !old(table)@.lines.contains_key(self.name()) ==> final(table)@.lines == old(
                table,
            )@.lines && left.1 is None,
            old(table)@.lines.contains_key(self.name()) ==> final(table)@.lines == old(
                table,
            )@.lines.insert(self.name(), final(table)@.lines[self.name()]),
            forall|i: int|
                old(table)@.lines.contains_key(self.name()) && 0 <= i < old(
                    table,
                )@.lines[self.name()].len() && (#[trigger] old(table)@.lines[self.name()][i]).ticket
                    == self.waiter().ticket ==> {
                    &&& final(table)@.lines[self.name()] == old(table)@.lines[self.name()].remove(i)
                    &&& left.1 is Some <==> i == 0 && old(table)@.lines[self.name()].len() > 1
                    &&& left.1 matches Some(next) ==> next == old(table)@.lines[self.name()][1]
                },
            old(table)@.lines.contains_key(self.name()) && (forall|i: int|
                0 <= i < old(table)@.lines[self.name()].len() ==> (#[trigger] old(
                    table,
                )@.lines[self.name()][i]).ticket != self.waiter().ticket) ==> final(table)@.lines
                == old(table)@.lines && left.1 is None,
    {
        proof {
            table_lines_are_in_order(*table, self.name());
        }
        let its_turn = match table.first(self.name.as_str()) {
            Some(first) => first.ticket == self.waiter.ticket,
            None => false,
        };
        table.withdraw(self.name.as_str(), self.waiter.ticket);
        let next = if its_turn {
            table.first(self.name.as_str())
        } else {
            None
        };
        (LockError::Timeout(self.timeout), next)
    }
}

impl Entered {
    /// The lock name that the call holds.
    pub closed spec fn name(self) -> Seq<char> {
        self.name@
    }

    /// The place of the call in line.
    pub closed spec fn waiter(self) -> Waiter {
        self.waiter
    }

    /// Leaves the line and gives the place to wake. The line moves on in the
    /// same way whether the critical section returned or panicked.
    pub fn finish<R, P>(self, table: &mut LockTable, outcome: Result<R, P>) -> (end: Finished<R, P>)
        requires
            old(table).wf(),
            old(table)@.lines.contains_key(self.name()),
        ensures
            final(table).wf(),
            final(table)@ == old(table)@.released(self.name()),
            end.next == final(table)@.front(self.name()),
            end.reply == match outcome {
                Ok(value) => Reply::Return(Ok(value)),
                Err(panic) => Reply::Unwind(panic),
            },
            final(table)@.next == old(table)@.next,
            old(table)@.lines[self.name()].len() > 0 ==> final(table)@.lines == old(
                table,
            )@.lines.insert(self.name(), old(table)@.lines[self.name()].skip(1)),
            old(table)@.lines[self.name()].len() == 0 ==> final(table)@.lines == old(table)@.lines,
            end.next is Some <==> old(table)@.lines[self.name()].len() > 1,
            end.next matches Some(next) ==> next == old(table)@.lines[self.name()][1],
    {
        let next = table.release(self.name.as_str());
        let reply = match outcome {
            Ok(value) => Reply::Return(Ok(value)),
            Err(panic) => Reply::Unwind(panic),
        };
        Finished { next, reply }
    }
}

} // verus!
