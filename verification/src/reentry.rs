//! Re-entry by task: a task that holds a lock may enter again under the same name
//! without waiting for itself.
//!
//! Each task carries the set of names that it holds through re-entrant calls, on
//! every backend. The set belongs to the task alone: another task of the program
//! or of the page has a set of its own.

use crate::names::NameSet;
use crate::timing::{forever, nanos_of, FOREVER_NANOS};
use std::time::Duration;
use vstd::prelude::*;

verus! {

/// What a re-entrant call does next.
pub enum Entry {
    /// The task holds the name already: run at once, the lock is not asked again.
    Nested,
    /// The task does not hold the name: take the lock, waiting at most for
    /// `timeout`.
    First { timeout: Duration },
}

/// Decides what a re-entrant call under `name` does, from the names that the task
/// holds.
pub fn reenter(held: &NameSet, name: &str) -> (entry: Entry)
    ensures
        entry is Nested <==> held@.contains(name@),
        entry matches Entry::First { timeout } ==> nanos_of(timeout) == FOREVER_NANOS,
        entry matches Entry::First { timeout } ==> nanos_of(timeout) == u64::MAX * 1_000_000_000
            + 999_999_999,
{
    if held.contains(name) {
        Entry::Nested
    } else {
        Entry::First { timeout: forever() }
    }
}

/// Notes that a re-entrant call of the task has taken the lock of `name`.
pub fn start_section(held: &mut NameSet, name: &str)
    ensures
        final(held)@ == old(held)@.insert(name@),
{
    held.insert(name);
}

/// Notes that the re-entrant call of the task that took the lock of `name` is
/// over.
pub fn end_section(held: &mut NameSet, name: &str)
    ensures
        final(held)@ == old(held)@.remove(name@),
{
    held.remove(name);
}

/// A re-entrant call that runs.
pub struct Frame {
    /// The lock name that it was made under.
    pub name: Seq<char>,
    /// The number of the lock call that it made; none if it is nested.
    pub ticket: Option<u64>,
}

/// Whether one of `frames` was made under `name`.
pub open spec fn has_name(frames: Seq<Frame>, name: Seq<char>) -> bool {
    exists|i: int| 0 <= i < frames.len() && (#[trigger] frames[i]).name == name
}

/// Frame `i` took the lock just if no frame before it was made under its name.
pub open spec fn fits(frames: Seq<Frame>, i: int) -> bool {
    frames[i].ticket is Some <==> !has_name(frames.take(i), frames[i].name)
}

/// Of the frames of each name, the first took the lock and the others did not.
pub open spec fn nested_well(frames: Seq<Frame>) -> bool {
    forall|i: int| 0 <= i < frames.len() ==> #[trigger] fits(frames, i)
}

/// A task with the names that it holds and its re-entrant calls that run, the
/// latest last.
pub struct TaskCalls {
    /// The names that the task holds.
    pub held: Set<Seq<char>>,
    /// The calls that run.
    pub frames: Seq<Frame>,
}

/// A step of one task.
pub enum Move {
    /// A re-entrant call under `name` starts to run, after lock call `ticket` if
    /// it has to take the lock.
    Call { name: Seq<char>, ticket: u64 },
    /// The latest of its calls that run is over.
    Return,
}

impl TaskCalls {
    /// The task after the step.
    pub open spec fn after(self, step: Move) -> TaskCalls {
        match step {
            Move::Call { name, ticket } => if self.held.contains(name) {
                TaskCalls { frames: self.frames.push(Frame { name, ticket: None }), ..self }
            } else {
                TaskCalls {
                    held: self.held.insert(name),
                    frames: self.frames.push(Frame { name, ticket: Some(ticket) }),
                }
            },
            Move::Return => if self.frames.len() == 0 {
                self
            } else if self.frames.last().ticket is Some {
                TaskCalls {
                    held: self.held.remove(self.frames.last().name),
                    frames: self.frames.drop_last(),
                }
            } else {
                TaskCalls { frames: self.frames.drop_last(), ..self }
            },
        }
    }
}

/// What [`reenter`] decides for the names that a task holds, followed by
/// [`start_section`] if the call has to take the lock, is a call of the task.
pub proof fn calling_is_a_step(
    task: TaskCalls,
    name: Seq<char>,
    ticket: u64,
    entry: Entry,
    held: Set<Seq<char>>,
)
    requires
        entry is Nested <==> task.held.contains(name),
        held == if entry is Nested {
            task.held
        } else {
            task.held.insert(name)
        },
    ensures
        ({
            let after = task.after(Move::Call { name, ticket });
            &&& after.held == held
            &&& after.frames == task.frames.push(
                Frame {
                    name,
                    ticket: if entry is Nested {
                        None
                    } else {
                        Some(ticket)
                    },
                },
            )
        }),
{
}

/// The end of a re-entrant call, with [`end_section`] if it took the lock, is a
/// return of the task.
pub proof fn returning_is_a_step(task: TaskCalls, held: Set<Seq<char>>)
    requires
        task.frames.len() > 0,
        held == if task.frames.last().ticket is Some {
            task.held.remove(task.frames.last().name)
        } else {
            task.held
        },
    ensures
        ({
            let after = task.after(Move::Return);
            &&& after.held == held
            &&& after.frames == task.frames.drop_last()
        }),
{
}

/// A task after all of `moves`, starting outside.
pub open spec fn task_after(moves: Seq<Move>) -> TaskCalls
    decreases moves.len(),
{
    if moves.len() == 0 {
        TaskCalls { held: Set::empty(), frames: Seq::empty() }
    } else {
        task_after(moves.drop_last()).after(moves.last())
    }
}

/// Pushing a frame keeps the frames nested well if it takes the lock just when
/// its name is new.
pub proof fn lemma_push_nests(frames: Seq<Frame>, frame: Frame)
    requires
        nested_well(frames),
        frame.ticket is Some <==> !has_name(frames, frame.name),
    ensures
        nested_well(frames.push(frame)),
        forall|n: Seq<char>| #[trigger]
            has_name(frames.push(frame), n) <==> has_name(frames, n) || n == frame.name,
{
    let after = frames.push(frame);
    assert forall|i: int| 0 <= i < after.len() implies #[trigger] fits(after, i) by {
        if i < frames.len() {
            assert(fits(frames, i));
            assert(after.take(i) =~= frames.take(i));
            assert(after[i] == frames[i]);
        } else {
            assert(after.take(i) =~= frames);
        }
    }
    assert forall|n: Seq<char>| #[trigger] has_name(after, n) <==> has_name(frames, n) || n
        == frame.name by {
        if has_name(frames, n) {
            let i = choose|i: int| 0 <= i < frames.len() && (#[trigger] frames[i]).name == n;
            assert(after[i].name == n);
        }
        if n == frame.name {
            assert(after[frames.len() as int].name == n);
        }
        if has_name(after, n) && n != frame.name {
            let i = choose|i: int| 0 <= i < after.len() && (#[trigger] after[i]).name == n;
            assert(frames[i].name == n);
        }
    }
}

/// Dropping the latest frame keeps the frames nested well. Its name goes just if
/// it took the lock.
pub proof fn lemma_pop_nests(frames: Seq<Frame>)
    requires
        nested_well(frames),
        frames.len() > 0,
    ensures
        nested_well(frames.drop_last()),
        forall|n: Seq<char>| #[trigger]
            has_name(frames.drop_last(), n) <==> has_name(frames, n) && !(n == frames.last().name
                && frames.last().ticket is Some),
{
    let before = frames.drop_last();
    let last = frames.len() - 1;
    assert(frames.take(last) =~= before);
    assert(fits(frames, last));
    assert forall|i: int| 0 <= i < before.len() implies #[trigger] fits(before, i) by {
        assert(fits(frames, i));
        assert(before.take(i) =~= frames.take(i));
        assert(before[i] == frames[i]);
    }
    assert forall|n: Seq<char>| #[trigger] has_name(before, n) <==> has_name(frames, n) && !(n
        == frames.last().name && frames.last().ticket is Some) by {
        if has_name(before, n) {
            let i = choose|i: int| 0 <= i < before.len() && (#[trigger] before[i]).name == n;
            assert(frames[i].name == n);
        }
        if n == frames.last().name {
            assert(frames[last].name == n);
        } else if has_name(frames, n) {
            let i = choose|i: int| 0 <= i < frames.len() && (#[trigger] frames[i]).name == n;
            assert(before[i].name == n);
        }
    }
}

/// However a task nests its re-entrant calls, of those under one name only the
/// outermost takes the lock: the task never waits for itself. The task holds a
/// name just while one of its calls runs under it.
pub proof fn lock_is_taken_once(moves: Seq<Move>)
    ensures
        nested_well(task_after(moves).frames),
        forall|n: Seq<char>| #[trigger]
            task_after(moves).held.contains(n) <==> has_name(task_after(moves).frames, n),
    decreases moves.len(),
{
    if moves.len() > 0 {
        lock_is_taken_once(moves.drop_last());
        let before = task_after(moves.drop_last());
        let after = task_after(moves);
        match moves.last() {
            Move::Call { name, ticket } => {
                lemma_push_nests(before.frames, after.frames.last());
                assert(after.frames == before.frames.push(after.frames.last()));
            },
            Move::Return => {
                if before.frames.len() > 0 {
                    lemma_pop_nests(before.frames);
                }
            },
        }
    }
}

/// A re-entrant call is nested just if the task holds its name: holding other
/// names does not stand in for it.
pub proof fn names_are_taken_apart(moves: Seq<Move>, name: Seq<char>, ticket: u64)
    ensures
        task_after(moves).after(Move::Call { name, ticket }).frames.last().ticket == if has_name(
            task_after(moves).frames,
            name,
        ) {
            None
        } else {
            Some(ticket)
        },
{
    lock_is_taken_once(moves);
}

} // verus!
