//! What holds of all calls on one table, in whatever order their steps happen.

use crate::fifo::{Arrival, Entered, Overdue, Queued};
use crate::table::{
    lemma_joined_wf, lemma_released_wf, lemma_withdrawn_wf, lemma_without, lemma_without_absent,
    line_wf, withdrawing_takes_one_out, without, TableView, Waiter,
};
use vstd::prelude::*;

verus! {

/// How far a call has come.
pub enum Stage {
    /// It stands in line and has no signal.
    Waiting,
    /// It stands in line and its signal was given.
    Called,
    /// It runs its critical section.
    Inside,
}

/// A call that has not ended.
pub struct Call {
    /// The lock name that it asked for.
    pub name: Seq<char>,
    /// How far it has come.
    pub stage: Stage,
}

/// A table together with the calls that stand in its lines, by their numbers.
pub struct World {
    /// The waiting lines.
    pub table: TableView,
    /// The calls that have not ended.
    pub calls: Map<u64, Call>,
}

/// One step of one call.
pub enum Step {
    /// A call joins the line of `name`.
    Arrive { name: Seq<char>, waiter: Waiter },
    /// A call that waited gets its signal in time and enters.
    Enter { ticket: u64 },
    /// A call that waited takes too long and leaves the line. If it was its turn,
    /// the turn passes on.
    GiveUp { ticket: u64 },
    /// A critical section is over, by returning or by panicking.
    Finish { ticket: u64 },
}

impl World {
    /// Nobody has asked for anything.
    pub open spec fn start() -> World {
        World { table: TableView { lines: Map::empty(), next: 0 }, calls: Map::empty() }
    }

    /// Whether the step can happen.
    pub open spec fn can(self, step: Step) -> bool {
        match step {
            Step::Arrive { name, waiter } => waiter.ticket == self.table.next,
            Step::Enter { ticket } => self.calls.contains_key(ticket)
                && self.calls[ticket].stage is Called,
            Step::GiveUp { ticket } => self.calls.contains_key(ticket)
                && !(self.calls[ticket].stage is Inside),
            Step::Finish { ticket } => self.calls.contains_key(ticket)
                && self.calls[ticket].stage is Inside,
        }
    }

    /// The lock name that the step is about.
    pub open spec fn subject(self, step: Step) -> Seq<char> {
        match step {
            Step::Arrive { name, waiter } => name,
            Step::Enter { ticket } => self.calls[ticket].name,
            Step::GiveUp { ticket } => self.calls[ticket].name,
            Step::Finish { ticket } => self.calls[ticket].name,
        }
    }

    /// The world after the step.
    pub open spec fn after(self, step: Step) -> World {
        match step {
            Step::Arrive { name, waiter } => World {
                table: self.table.joined(name, waiter),
                calls: self.calls.insert(
                    waiter.ticket,
                    Call {
                        name,
                        stage: if self.table.line(name).len() == 0 {
                            Stage::Inside
                        } else {
                            Stage::Waiting
                        },
                    },
                ),
            },
            Step::Enter { ticket } => World {
                calls: self.calls.insert(
                    ticket,
                    Call { name: self.calls[ticket].name, stage: Stage::Inside },
                ),
                ..self
            },
            Step::GiveUp { ticket } => {
                let name = self.calls[ticket].name;
                let table = self.table.withdrawn(name, ticket);
                let left = self.calls.remove(ticket);
                World {
                    table,
                    calls: if self.table.is_first(name, ticket) {
                        front_called(left, table, name)
                    } else {
                        left
                    },
                }
            },
            Step::Finish { ticket } => {
                let name = self.calls[ticket].name;
                let table = self.table.released(name);
                World { table, calls: front_called(self.calls.remove(ticket), table, name) }
            },
        }
    }

    /// The lines hold exactly the calls that have not ended, each under its own
    /// name, and only the first in a line may have its signal or be inside.
    pub open spec fn inv(self) -> bool {
        &&& self.table.wf()
        &&& forall|name: Seq<char>, i: int|
            #![trigger self.table.line(name)[i]]
            0 <= i < self.table.line(name).len() ==> self.calls.contains_key(
                self.table.line(name)[i].ticket,
            ) && self.calls[self.table.line(name)[i].ticket].name == name
        &&& forall|ticket: u64| #[trigger]
            self.calls.contains_key(ticket) ==> stands(
                self.table.line(self.calls[ticket].name),
                ticket,
            )
        &&& forall|ticket: u64| #[trigger]
            self.calls.contains_key(ticket) && !(self.calls[ticket].stage is Waiting)
                ==> self.table.line(self.calls[ticket].name)[0].ticket == ticket
    }

    /// Whoever stands first in a line has its signal or is inside.
    pub open spec fn moving(self) -> bool {
        forall|name: Seq<char>| #[trigger]
            self.table.line(name).len() > 0 ==> !(self.calls[self.table.line(
                name,
            )[0].ticket].stage is Waiting)
    }
}

/// `calls` once whoever stands first in the line of `name` got its signal.
pub open spec fn front_called(
    calls: Map<u64, Call>,
    table: TableView,
    name: Seq<char>,
) -> Map<u64, Call> {
    match table.front(name) {
        Some(first) => calls.insert(first.ticket, Call { name, stage: Stage::Called }),
        None => calls,
    }
}

/// `ticket` stands somewhere in `line`.
pub open spec fn stands(line: Seq<Waiter>, ticket: u64) -> bool {
    exists|i: int| 0 <= i < line.len() && (#[trigger] line[i]).ticket == ticket
}

/// The world after all of `steps`.
pub open spec fn world(steps: Seq<Step>) -> World
    decreases steps.len(),
{
    if steps.len() == 0 {
        World::start()
    } else {
        world(steps.drop_last()).after(steps.last())
    }
}

/// Each of `steps` can happen when its turn comes.
pub open spec fn possible(steps: Seq<Step>) -> bool
    decreases steps.len(),
{
    steps.len() > 0 ==> possible(steps.drop_last()) && world(steps.drop_last()).can(steps.last())
}

/// What happened up to some moment could happen.
proof fn lemma_prefix_possible(steps: Seq<Step>, at: int)
    requires
        possible(steps),
        0 <= at <= steps.len(),
    ensures
        possible(steps.take(at)),
    decreases steps.len(),
{
    if at == steps.len() {
        assert(steps.take(at) =~= steps);
    } else {
        assert(steps.drop_last().take(at) =~= steps.take(at));
        lemma_prefix_possible(steps.drop_last(), at);
    }
}

/// Whoever stands in a line is a call of that name.
proof fn lemma_in_line(w: World, name: Seq<char>, ticket: u64)
    requires
        w.inv(),
        stands(w.table.line(name), ticket),
    ensures
        w.calls.contains_key(ticket),
        w.calls[ticket].name == name,
{
    let i = choose|i: int|
        0 <= i < w.table.line(name).len() && (#[trigger] w.table.line(name)[i]).ticket == ticket;
    assert(w.table.line(name)[i].ticket == ticket);
}

/// The line of any name is in order.
proof fn lemma_line_wf(table: TableView, name: Seq<char>)
    requires
        table.wf(),
    ensures
        line_wf(table.line(name), table.next),
{
}

/// A number that was not given out yet belongs to no call.
pub proof fn lemma_fresh(w: World, ticket: u64)
    requires
        w.inv(),
        ticket >= w.table.next,
    ensures
        !w.calls.contains_key(ticket),
{
    if w.calls.contains_key(ticket) {
        let n = w.calls[ticket].name;
        lemma_line_wf(w.table, n);
        assert(stands(w.table.line(n), ticket));
    }
}

/// Whoever stands first in a line once a call left it is another call of that
/// name, and was not inside.
pub proof fn lemma_left_is_call(w: World, name: Seq<char>, ticket: u64)
    requires
        w.inv(),
        w.calls.contains_key(ticket),
        w.calls[ticket].name == name,
        w.table.is_first(name, ticket),
    ensures
        w.table.released(name).front(name) matches Some(first) ==> first.ticket != ticket
            && w.calls.contains_key(first.ticket) && w.calls[first.ticket].name == name
            && w.calls[first.ticket].stage is Waiting,
        w.table.withdrawn(name, ticket).front(name) matches Some(first) ==> first.ticket != ticket
            && w.calls.contains_key(first.ticket) && w.calls[first.ticket].name == name
            && w.calls[first.ticket].stage is Waiting,
{
    let line = w.table.line(name);
    lemma_line_wf(w.table, name);
    lemma_without(line, ticket, w.table.next);
    if line.len() > 1 {
        assert(w.table.released(name).line(name) == line.drop_first());
        assert(stands(line, line[1].ticket));
        lemma_in_line(w, name, line[1].ticket);
    }
    let left = without(line, ticket);
    if left.len() > 0 {
        assert(w.table.withdrawn(name, ticket).line(name) == left);
        assert(left.contains(left[0]));
        assert(line.contains(left[0]));
        assert(stands(line, left[0].ticket));
        lemma_in_line(w, name, left[0].ticket);
    }
}

/// An arrival keeps the invariant.
proof fn lemma_arrive(w: World, name: Seq<char>, waiter: Waiter)
    requires
        w.inv(),
        waiter.ticket == w.table.next,
    ensures
        w.after(Step::Arrive { name, waiter }).inv(),
{
    let v = w.after(Step::Arrive { name, waiter });
    let t = waiter.ticket;
    lemma_fresh(w, t);
    assert forall|n: Seq<char>| v.table.line(n) == if n == name {
        w.table.line(name).push(waiter)
    } else {
        w.table.line(n)
    } by {}
    lemma_joined_wf(w.table, name, waiter);
    assert forall|n: Seq<char>, i: int|
        #![trigger v.table.line(n)[i]]
        0 <= i < v.table.line(n).len() implies v.calls.contains_key(v.table.line(n)[i].ticket)
        && v.calls[v.table.line(n)[i].ticket].name == n by {
        if n == name && i == w.table.line(name).len() {
        } else {
            assert(w.table.line(n)[i] == v.table.line(n)[i]);
        }
    }
    assert forall|ticket: u64| #[trigger] v.calls.contains_key(ticket) implies stands(
        v.table.line(v.calls[ticket].name),
        ticket,
    ) by {
        if ticket == t {
            let i = w.table.line(name).len() as int;
            assert(v.table.line(name)[i].ticket == t);
        } else {
            let n = w.calls[ticket].name;
            assert(w.calls.contains_key(ticket));
            let i = choose|i: int|
                0 <= i < w.table.line(n).len() && (#[trigger] w.table.line(n)[i]).ticket == ticket;
            assert(v.table.line(n)[i].ticket == ticket);
        }
    }
    assert forall|ticket: u64| #[trigger]
        v.calls.contains_key(ticket) && !(v.calls[ticket].stage is Waiting) implies v.table.line(
        v.calls[ticket].name,
    )[0].ticket == ticket by {
        if ticket != t {
            assert(w.calls.contains_key(ticket));
            assert(stands(w.table.line(w.calls[ticket].name), ticket));
        }
    }
}

/// An entry keeps the invariant.
proof fn lemma_enter(w: World, ticket: u64)
    requires
        w.inv(),
        w.can(Step::Enter { ticket }),
    ensures
        w.after(Step::Enter { ticket }).inv(),
{
    let v = w.after(Step::Enter { ticket });
    assert(v.table == w.table);
    assert(v.calls.dom() =~= w.calls.dom());
    assert forall|n: Seq<char>, i: int|
        #![trigger v.table.line(n)[i]]
        0 <= i < v.table.line(n).len() implies v.calls.contains_key(v.table.line(n)[i].ticket)
        && v.calls[v.table.line(n)[i].ticket].name == n by {
        assert(w.calls.contains_key(w.table.line(n)[i].ticket));
    }
    assert forall|t: u64| #[trigger] v.calls.contains_key(t) implies stands(
        v.table.line(v.calls[t].name),
        t,
    ) by {
        assert(w.calls.contains_key(t));
    }
    assert forall|t: u64| #[trigger]
        v.calls.contains_key(t) && !(v.calls[t].stage is Waiting) implies v.table.line(
        v.calls[t].name,
    )[0].ticket == t by {
        assert(w.calls.contains_key(t));
    }
}

/// Taking a place out of a line leaves the first one first, unless that is the
/// place taken out.
proof fn lemma_without_front(line: Seq<Waiter>, ticket: u64, next: nat)
    requires
        line_wf(line, next),
        line.len() > 0,
        line[0].ticket != ticket,
    ensures
        without(line, ticket).len() > 0,
        without(line, ticket)[0] == line[0],
{
    lemma_without(line, ticket, next);
    let out = without(line, ticket);
    assert(line.contains(line[0]));
    assert(out.contains(line[0]));
    let k = out.index_of(line[0]);
    assert(out.contains(out[0]));
    let i = line.index_of(out[0]);
    assert(line[i] == out[0]);
}

/// Leaving the line early keeps the invariant.
proof fn lemma_give_up(w: World, ticket: u64)
    requires
        w.inv(),
        w.can(Step::GiveUp { ticket }),
    ensures
        w.after(Step::GiveUp { ticket }).inv(),
{
    let v = w.after(Step::GiveUp { ticket });
    let name = w.calls[ticket].name;
    lemma_line_wf(w.table, name);
    lemma_without(w.table.line(name), ticket, w.table.next);
    assert(stands(w.table.line(name), ticket));
    assert(w.table.lines.contains_key(name));
    assert forall|n: Seq<char>| v.table.line(n) == if n == name {
        without(w.table.line(name), ticket)
    } else {
        w.table.line(n)
    } by {}
    lemma_withdrawn_wf(w.table, name, ticket);
    let line = w.table.line(name);
    if w.table.is_first(name, ticket) {
        lemma_left_is_call(w, name, ticket);
    }
    assert forall|n: Seq<char>, i: int|
        #![trigger v.table.line(n)[i]]
        0 <= i < v.table.line(n).len() implies v.calls.contains_key(v.table.line(n)[i].ticket)
        && v.calls[v.table.line(n)[i].ticket].name == n by {
        let x = v.table.line(n)[i];
        if n == name {
            assert(without(w.table.line(name), ticket).contains(x));
            let k = w.table.line(name).index_of(x);
            assert(w.table.line(name)[k] == x);
        } else {
            assert(w.table.line(n)[i] == x);
        }
        assert(stands(w.table.line(n), x.ticket));
        lemma_in_line(w, n, x.ticket);
    }
    assert forall|t: u64| #[trigger] v.calls.contains_key(t) implies stands(
        v.table.line(v.calls[t].name),
        t,
    ) by {
        let n = w.calls[t].name;
        assert(w.calls.contains_key(t));
        assert(v.calls[t].name == n);
        let i = choose|i: int|
            0 <= i < w.table.line(n).len() && (#[trigger] w.table.line(n)[i]).ticket == t;
        let x = w.table.line(n)[i];
        if n == name {
            assert(w.table.line(n).contains(x));
            assert(v.table.line(n).contains(x));
            let k = v.table.line(n).index_of(x);
            assert(v.table.line(n)[k].ticket == t);
        } else {
            assert(v.table.line(n)[i].ticket == t);
        }
    }
    assert forall|t: u64| #[trigger]
        v.calls.contains_key(t) && !(v.calls[t].stage is Waiting) implies v.table.line(
        v.calls[t].name,
    )[0].ticket == t by {
        assert(w.calls.contains_key(t));
        if w.calls[t].name == name && !w.table.is_first(name, ticket) {
            assert(stands(line, t));
            lemma_without_front(line, ticket, w.table.next);
        }
    }
}

/// The end of a critical section keeps the invariant.
proof fn lemma_finish(w: World, ticket: u64)
    requires
        w.inv(),
        w.can(Step::Finish { ticket }),
    ensures
        w.after(Step::Finish { ticket }).inv(),
{
    let v = w.after(Step::Finish { ticket });
    let name = w.calls[ticket].name;
    let line = w.table.line(name);
    lemma_line_wf(w.table, name);
    assert(stands(line, ticket));
    assert(line[0].ticket == ticket);
    assert forall|n: Seq<char>| v.table.line(n) == if n == name {
        line.drop_first()
    } else {
        w.table.line(n)
    } by {}
    lemma_left_is_call(w, name, ticket);
    lemma_released_wf(w.table, name);
    assert forall|n: Seq<char>, i: int|
        #![trigger v.table.line(n)[i]]
        0 <= i < v.table.line(n).len() implies v.calls.contains_key(v.table.line(n)[i].ticket)
        && v.calls[v.table.line(n)[i].ticket].name == n by {
        let x = v.table.line(n)[i];
        if n == name {
            assert(x == line[i + 1]);
        } else {
            assert(w.table.line(n)[i] == x);
        }
        assert(stands(w.table.line(n), x.ticket));
        lemma_in_line(w, n, x.ticket);
    }
    assert forall|t: u64| #[trigger] v.calls.contains_key(t) implies stands(
        v.table.line(v.calls[t].name),
        t,
    ) by {
        let n = w.calls[t].name;
        assert(w.calls.contains_key(t));
        assert(v.calls[t].name == n);
        let i = choose|i: int|
            0 <= i < w.table.line(n).len() && (#[trigger] w.table.line(n)[i]).ticket == t;
        if n == name {
            assert(v.table.line(n)[i - 1].ticket == t);
        } else {
            assert(v.table.line(n)[i].ticket == t);
        }
    }
    assert forall|t: u64| #[trigger]
        v.calls.contains_key(t) && !(v.calls[t].stage is Waiting) implies v.table.line(
        v.calls[t].name,
    )[0].ticket == t by {
        assert(w.calls.contains_key(t));
    }
}

/// Every step keeps the invariant.
pub proof fn lemma_step(w: World, step: Step)
    requires
        w.inv(),
        w.can(step),
    ensures
        w.after(step).inv(),
{
    match step {
        Step::Arrive { name, waiter } => lemma_arrive(w, name, waiter),
        Step::Enter { ticket } => lemma_enter(w, ticket),
        Step::GiveUp { ticket } => lemma_give_up(w, ticket),
        Step::Finish { ticket } => lemma_finish(w, ticket),
    }
}

/// What [`FifoLock::with_lock`](crate::FifoLock::with_lock) does to the table is an
/// arrival, and it lets the call enter if the arrival does.
pub proof fn arriving_is_a_step(w: World, name: Seq<char>, arrival: Arrival, table: TableView)
    requires
        table == w.table.joined(name, arrival.waiter()),
        arrival.waiter().ticket == w.table.next,
        arrival is Enter <==> w.table.line(name).len() == 0,
    ensures
        ({
            let step = Step::Arrive { name, waiter: arrival.waiter() };
            &&& w.can(step)
            &&& w.after(step).table == table
            &&& table.lines.contains_key(name)
            &&& table.lines[name].len() > 0
            &&& table.lines[name].last() == arrival.waiter()
            &&& w.after(step).calls[arrival.waiter().ticket].stage == if arrival is Enter {
                Stage::Inside
            } else {
                Stage::Waiting
            }
        }),
{
}

/// What [`Queued::resume`](crate::Queued::resume) gives for a call whose signal
/// came in time is a call entering.
pub proof fn resuming_is_a_step(w: World, call: Queued, inside: Entered)
    requires
        w.calls.contains_key(call.waiter().ticket),
        w.calls[call.waiter().ticket].name == call.name(),
        w.calls[call.waiter().ticket].stage is Called,
        inside.name() == call.name(),
        inside.waiter() == call.waiter(),
    ensures
        ({
            let step = Step::Enter { ticket: call.waiter().ticket };
            &&& w.can(step)
            &&& w.after(step).table == w.table
            &&& w.after(step).calls[inside.waiter().ticket] == (Call {
                name: inside.name(),
                stage: Stage::Inside,
            })
        }),
{
}

/// What [`Overdue::withdraw`](crate::Overdue::withdraw) does to the table is a
/// call giving up, and the place that it gives to wake is the one that is called.
pub proof fn withdrawing_is_a_step(w: World, call: Overdue, table: TableView, next: Option<Waiter>)
    requires
        w.calls.contains_key(call.waiter().ticket),
        w.calls[call.waiter().ticket].name == call.name(),
        !(w.calls[call.waiter().ticket].stage is Inside),
        table == w.table.withdrawn(call.name(), call.waiter().ticket),
        next == if w.table.is_first(call.name(), call.waiter().ticket) {
            table.front(call.name())
        } else {
            None
        },
    ensures
        ({
            let ticket = call.waiter().ticket;
            let step = Step::GiveUp { ticket };
            &&& w.can(step)
            &&& w.after(step).table == table
            &&& w.after(step).calls == match next {
                Some(waiter) => w.calls.remove(ticket).insert(
                    waiter.ticket,
                    Call { name: call.name(), stage: Stage::Called },
                ),
                None => w.calls.remove(ticket),
            }
        }),
{
}

/// What [`Entered::finish`](crate::Entered::finish) does to the table is a
/// critical section ending, and the place that it gives to wake is the one that
/// is called.
pub proof fn finishing_is_a_step(w: World, call: Entered, table: TableView, next: Option<Waiter>)
    requires
        w.calls.contains_key(call.waiter().ticket),
        w.calls[call.waiter().ticket].name == call.name(),
        w.calls[call.waiter().ticket].stage is Inside,
        table == w.table.released(call.name()),
        next == table.front(call.name()),
    ensures
        ({
            let step = Step::Finish { ticket: call.waiter().ticket };
            &&& w.can(step)
            &&& w.after(step).table == table
            &&& w.after(step).calls == match next {
                Some(waiter) => w.calls.remove(call.waiter().ticket).insert(
                    waiter.ticket,
                    Call { name: call.name(), stage: Stage::Called },
                ),
                None => w.calls.remove(call.waiter().ticket),
            }
        }),
{
}

/// Whatever happened, the lines hold exactly the calls that have not ended, each
/// under its own name, and only the first in a line may have its signal or be
/// inside.
pub proof fn lines_match_calls(steps: Seq<Step>)
    requires
        possible(steps),
    ensures
        world(steps).inv(),
    decreases steps.len(),
{
    if steps.len() > 0 {
        lines_match_calls(steps.drop_last());
        lemma_step(world(steps.drop_last()), steps.last());
    }
}

/// Two calls are never inside under the same name.
pub proof fn mutual_exclusion(steps: Seq<Step>, a: u64, b: u64)
    requires
        possible(steps),
        world(steps).calls.contains_key(a),
        world(steps).calls.contains_key(b),
        world(steps).calls[a].stage is Inside,
        world(steps).calls[b].stage is Inside,
        world(steps).calls[a].name == world(steps).calls[b].name,
    ensures
        a == b,
{
    lines_match_calls(steps);
}

/// Calls are served in order of arrival: whoever is inside, or has its signal,
/// arrived before everybody else who waits under that name.
pub proof fn first_come_first_served(steps: Seq<Step>, a: u64, b: u64)
    requires
        possible(steps),
        world(steps).calls.contains_key(a),
        world(steps).calls.contains_key(b),
        !(world(steps).calls[a].stage is Waiting),
        world(steps).calls[a].name == world(steps).calls[b].name,
        a != b,
    ensures
        a < b,
{
    lines_match_calls(steps);
    let w = world(steps);
    let line = w.table.line(w.calls[a].name);
    lemma_line_wf(w.table, w.calls[a].name);
    assert(stands(line, b));
}

/// Arrivals get ascending numbers: a call that arrives later has a higher number
/// than every call that has not ended.
pub proof fn numbers_ascend(steps: Seq<Step>, name: Seq<char>, waiter: Waiter, earlier: u64)
    requires
        possible(steps),
        world(steps).can(Step::Arrive { name, waiter }),
        world(steps).calls.contains_key(earlier),
    ensures
        earlier < waiter.ticket,
{
    lines_match_calls(steps);
    let w = world(steps);
    lemma_line_wf(w.table, w.calls[earlier].name);
    assert(stands(w.table.line(w.calls[earlier].name), earlier));
}

/// When a critical section is over, whoever arrived first among those that wait
/// under that name gets its signal.
pub proof fn release_calls_the_next(steps: Seq<Step>, ticket: u64, other: u64)
    requires
        possible(steps),
        world(steps).can(Step::Finish { ticket }),
        world(steps).calls.contains_key(other),
        other != ticket,
        world(steps).calls[other].name == world(steps).calls[ticket].name,
    ensures
        ({
            let w = world(steps);
            let v = w.after(Step::Finish { ticket });
            &&& v.table.front(w.calls[ticket].name) matches Some(next)
            &&& next.ticket <= other
            &&& v.calls[next.ticket].stage is Called
        }),
{
    lines_match_calls(steps);
    let w = world(steps);
    let name = w.calls[ticket].name;
    lemma_line_wf(w.table, name);
    let line = w.table.line(name);
    assert(stands(line, other));
    let i = choose|i: int| 0 <= i < line.len() && (#[trigger] line[i]).ticket == other;
    assert(line[0].ticket == ticket);
    assert(w.after(Step::Finish { ticket }).table.line(name) == line.drop_first());
}

/// A name that no call asks for is free: the next arrival is inside at once. A
/// name that some call asks for is not: the next arrival waits.
pub proof fn free_means_enter_at_once(steps: Seq<Step>, name: Seq<char>, waiter: Waiter)
    requires
        possible(steps),
        world(steps).can(Step::Arrive { name, waiter }),
    ensures
        world(steps).after(Step::Arrive { name, waiter }).calls[waiter.ticket].stage is Inside
            <==> forall|t: u64| #[trigger]
            world(steps).calls.contains_key(t) ==> world(steps).calls[t].name != name,
{
    lines_match_calls(steps);
    let w = world(steps);
    let line = w.table.line(name);
    if line.len() == 0 {
        assert forall|t: u64| #[trigger] w.calls.contains_key(t) implies w.calls[t].name != name by {
            assert(stands(w.table.line(w.calls[t].name), t));
        }
    } else {
        assert(stands(line, line[0].ticket));
        lemma_in_line(w, name, line[0].ticket);
    }
}

/// Steps under one name change nothing under another.
pub proof fn names_are_apart(steps: Seq<Step>, step: Step, other: Seq<char>)
    requires
        possible(steps),
        world(steps).can(step),
        world(steps).subject(step) != other,
    ensures
        world(steps).after(step).table.line(other) == world(steps).table.line(other),
        forall|t: u64|
            #![trigger world(steps).after(step).calls.contains_key(t)]
            #![trigger world(steps).calls.contains_key(t)]
            (world(steps).calls.contains_key(t) && world(steps).calls[t].name == other) <==> (world(
                steps,
            ).after(step).calls.contains_key(t) && world(steps).after(step).calls[t].name == other),
        forall|t: u64| #[trigger]
            world(steps).calls.contains_key(t) && world(steps).calls[t].name == other ==> world(
                steps,
            ).after(step).calls[t] == world(steps).calls[t],
{
    lines_match_calls(steps);
    let w = world(steps);
    let v = w.after(step);
    match step {
        Step::Arrive { name, waiter } => {
            assert(!w.calls.contains_key(waiter.ticket)) by {
                if w.calls.contains_key(waiter.ticket) {
                    numbers_ascend(steps, name, waiter, waiter.ticket);
                }
            }
        },
        Step::GiveUp { ticket } => {
            let name = w.calls[ticket].name;
            if w.table.is_first(name, ticket) {
                lemma_left_is_call(w, name, ticket);
            }
        },
        Step::Finish { ticket } => {
            let name = w.calls[ticket].name;
            assert(stands(w.table.line(name), ticket));
            lemma_left_is_call(w, name, ticket);
        },
        _ => {},
    }
}

/// Whoever stands first in a line has its signal or is inside, whatever happened:
/// no line stalls.
pub proof fn lines_keep_moving(steps: Seq<Step>)
    requires
        possible(steps),
    ensures
        world(steps).moving(),
    decreases steps.len(),
{
    if steps.len() > 0 {
        let before = steps.drop_last();
        lines_keep_moving(before);
        lines_match_calls(before);
        lines_match_calls(steps);
        let w = world(before);
        let v = world(steps);
        assert(v == w.after(steps.last()));
        assert forall|name: Seq<char>| #[trigger] v.table.line(name).len() > 0 implies !(
        v.calls[v.table.line(name)[0].ticket].stage is Waiting) by {
            let x = v.table.line(name)[0];
            assert(stands(v.table.line(name), x.ticket));
            lemma_in_line(v, name, x.ticket);
            if name != w.subject(steps.last()) {
                names_are_apart(before, steps.last(), name);
                assert(w.table.line(name).len() > 0);
                assert(stands(w.table.line(name), x.ticket));
                lemma_in_line(w, name, x.ticket);
            } else {
                match steps.last() {
                    Step::Arrive { name: n, waiter } => {
                        if w.table.line(name).len() > 0 {
                            assert(x == w.table.line(name)[0]);
                            assert(stands(w.table.line(name), x.ticket));
                            lemma_in_line(w, name, x.ticket);
                            numbers_ascend(before, n, waiter, x.ticket);
                        }
                    },
                    Step::Enter { ticket } => {},
                    Step::GiveUp { ticket } => {
                        let line = w.table.line(name);
                        lemma_line_wf(w.table, name);
                        assert(stands(line, ticket));
                        assert(w.table.line(name).len() > 0);
                        if line[0].ticket != ticket {
                            lemma_without_front(line, ticket, w.table.next);
                        }
                    },
                    Step::Finish { ticket } => {},
                }
            }
        }
    }
}

/// When a call whose turn it was gives up, its turn is not lost: whoever arrived
/// first among those that still wait under that name gets its signal.
pub proof fn giving_up_passes_the_turn_on(steps: Seq<Step>, ticket: u64, other: u64)
    requires
        possible(steps),
        world(steps).can(Step::GiveUp { ticket }),
        world(steps).calls[ticket].stage is Called,
        world(steps).calls.contains_key(other),
        other != ticket,
        world(steps).calls[other].name == world(steps).calls[ticket].name,
    ensures
        ({
            let w = world(steps);
            let v = w.after(Step::GiveUp { ticket });
            &&& v.table.front(w.calls[ticket].name) matches Some(next)
            &&& next.ticket <= other
            &&& v.calls[next.ticket].stage is Called
        }),
{
    lines_match_calls(steps);
    let w = world(steps);
    let name = w.calls[ticket].name;
    let line = w.table.line(name);
    lemma_line_wf(w.table, name);
    lemma_without(line, ticket, w.table.next);
    assert(stands(line, other));
    let i = choose|i: int| 0 <= i < line.len() && (#[trigger] line[i]).ticket == other;
    assert(line.contains(line[i]));
    let left = without(line, ticket);
    assert(left.contains(line[i]));
    let k = left.index_of(line[i]);
    assert(left[k].ticket == other);
    assert(w.after(Step::GiveUp { ticket }).table.line(name) == left);
}

/// A call that gives up before its turn disturbs nobody: whoever is inside stays
/// so, the others keep their order and stage, and who is called when the section
/// is over is the first of those that are left.
pub proof fn giving_up_disturbs_nobody(steps: Seq<Step>, holder: u64, ticket: u64)
    requires
        possible(steps),
        world(steps).calls.contains_key(holder),
        world(steps).calls[holder].stage is Inside,
        world(steps).can(Step::GiveUp { ticket }),
        world(steps).calls[ticket].name == world(steps).calls[holder].name,
    ensures
        ({
            let w = world(steps);
            let name = w.calls[holder].name;
            let v = w.after(Step::GiveUp { ticket });
            let left = without(w.table.line(name), ticket);
            &&& v.calls == w.calls.remove(ticket)
            &&& v.table.line(name) == left
            &&& left.len() > 0 && left[0].ticket == holder
            &&& v.can(Step::Finish { ticket: holder })
            &&& v.after(Step::Finish { ticket: holder }).table.line(name) == left.drop_first()
            &&& left.len() > 1 ==> v.after(Step::Finish { ticket: holder }).calls[left[1].ticket]
                == (Call { name, stage: Stage::Called })
        }),
{
    lines_match_calls(steps);
    let w = world(steps);
    let name = w.calls[holder].name;
    lemma_line_wf(w.table, name);
    assert(stands(w.table.line(name), holder));
    assert(stands(w.table.line(name), ticket));
    lemma_without_front(w.table.line(name), ticket, w.table.next);
}

/// A call that has ended does not come back: numbers are not given out twice.
pub proof fn ended_calls_stay_ended(steps: Seq<Step>, at: int, ticket: u64)
    requires
        possible(steps),
        0 <= at <= steps.len(),
        ticket < world(steps.take(at)).table.next,
        !world(steps.take(at)).calls.contains_key(ticket),
    ensures
        ticket < world(steps).table.next,
        !world(steps).calls.contains_key(ticket),
    decreases steps.len(),
{
    if at == steps.len() {
        assert(steps.take(at) =~= steps);
    } else {
        let before = steps.drop_last();
        assert(before.take(at) =~= steps.take(at));
        ended_calls_stay_ended(before, at, ticket);
        lines_match_calls(before);
        lines_match_calls(steps);
        let w = world(before);
        let v = world(steps);
        if v.calls.contains_key(ticket) {
            let name = v.calls[ticket].name;
            assert(stands(v.table.line(name), ticket));
            let line = w.table.line(name);
            let i = choose|i: int|
                0 <= i < v.table.line(name).len() && (#[trigger] v.table.line(name)[i]).ticket
                    == ticket;
            let x = v.table.line(name)[i];
            lemma_line_wf(w.table, name);
            match steps.last() {
                Step::Arrive { name: n, waiter } => {
                    if i < line.len() {
                        assert(line[i] == x);
                    }
                },
                Step::Enter { ticket: t } => {},
                Step::GiveUp { ticket: t } => {
                    if name == w.calls[t].name {
                        lemma_without(line, t, w.table.next);
                        assert(without(line, t).contains(x));
                        assert(line.contains(x));
                        let k = line.index_of(x);
                        assert(line[k] == x);
                    }
                },
                Step::Finish { ticket: t } => {
                    if name == w.calls[t].name {
                        assert(line[i + 1] == x);
                    }
                },
            }
            assert(stands(line, ticket));
            lemma_in_line(w, name, ticket);
        }
    }
}

/// Sections run in order of arrival: from the moment a call has its signal or is
/// inside, no call that arrived before it under that name is waiting or inside,
/// then or ever after.
pub proof fn earlier_calls_are_over(steps: Seq<Step>, at: int, earlier: u64, later: u64)
    requires
        possible(steps),
        0 <= at <= steps.len(),
        world(steps.take(at)).calls.contains_key(later),
        !(world(steps.take(at)).calls[later].stage is Waiting),
        earlier < later,
        world(steps.take(at)).calls.contains_key(earlier) ==> world(
            steps.take(at),
        ).calls[earlier].name == world(steps.take(at)).calls[later].name,
    ensures
        !world(steps).calls.contains_key(earlier),
{
    let then = world(steps.take(at));
    lemma_prefix_possible(steps, at);
    lines_match_calls(steps.take(at));
    if then.calls.contains_key(earlier) {
        first_come_first_served(steps.take(at), later, earlier);
    }
    lemma_line_wf(then.table, then.calls[later].name);
    assert(stands(then.table.line(then.calls[later].name), later));
    ended_calls_stay_ended(steps, at, earlier);
}

/// Numbers that were given out stay below the next one.
proof fn lemma_given_out(steps: Seq<Step>, at: int, name: Seq<char>, waiter: Waiter)
    requires
        possible(steps),
        0 <= at < steps.len(),
        steps[at] == (Step::Arrive { name, waiter }),
    ensures
        waiter.ticket < world(steps).table.next,
    decreases steps.len(),
{
    let before = steps.drop_last();
    if at < before.len() {
        assert(before[at] == steps[at]);
        lemma_given_out(before, at, name, waiter);
    }
}

/// No two calls arrive with one number: later calls have higher numbers.
pub proof fn arrivals_are_numbered_in_order(
    steps: Seq<Step>,
    a: int,
    first: Seq<char>,
    x: Waiter,
    b: int,
    second: Seq<char>,
    y: Waiter,
)
    requires
        possible(steps),
        0 <= a < b < steps.len(),
        steps[a] == (Step::Arrive { name: first, waiter: x }),
        steps[b] == (Step::Arrive { name: second, waiter: y }),
    ensures
        x.ticket < y.ticket,
{
    lemma_prefix_possible(steps, b);
    lemma_prefix_possible(steps, b + 1);
    assert(steps.take(b + 1).drop_last() =~= steps.take(b));
    assert(steps.take(b)[a] == steps[a]);
    lemma_given_out(steps.take(b), a, first, x);
}

/// No two calls wait on one signal, as each signal has the number of its call.
pub proof fn calls_wait_on_signals_of_their_own(
    steps: Seq<Step>,
    a: int,
    first: Seq<char>,
    x: Waiter,
    b: int,
    second: Seq<char>,
    y: Waiter,
)
    requires
        possible(steps),
        0 <= a < steps.len(),
        0 <= b < steps.len(),
        a != b,
        steps[a] == (Step::Arrive { name: first, waiter: x }),
        steps[b] == (Step::Arrive { name: second, waiter: y }),
        x.signal.number() == x.ticket,
        y.signal.number() == y.ticket,
    ensures
        x.signal != y.signal,
{
    if a < b {
        arrivals_are_numbered_in_order(steps, a, first, x, b, second, y);
    } else {
        arrivals_are_numbered_in_order(steps, b, second, y, a, first, x);
    }
}

/// Whoever stands in a line stands there just as it arrived, under the name that it
/// asked for and with the signal that it waits on.
pub proof fn places_are_as_they_arrived(steps: Seq<Step>, name: Seq<char>, i: int)
    requires
        possible(steps),
        world(steps).table.lines.contains_key(name),
        0 <= i < world(steps).table.lines[name].len(),
    ensures
        exists|at: int|
            0 <= at < steps.len() && #[trigger] steps[at] == (Step::Arrive {
                name,
                waiter: world(steps).table.lines[name][i],
            }),
    decreases steps.len(),
{
    if steps.len() > 0 {
        let before = steps.drop_last();
        let w = world(before);
        let place = world(steps).table.lines[name][i];
        lines_match_calls(before);
        let line = w.table.line(name);
        lemma_line_wf(w.table, name);
        if steps.last() == (Step::Arrive { name, waiter: place }) {
            assert(steps[steps.len() - 1] == (Step::Arrive { name, waiter: place }));
        } else {
            let k = match steps.last() {
                Step::GiveUp { ticket } => if name == w.calls[ticket].name {
                    lemma_without(line, ticket, w.table.next);
                    assert(without(line, ticket).contains(place));
                    assert(line.contains(place));
                    line.index_of(place)
                } else {
                    i
                },
                Step::Finish { ticket } => if name == w.calls[ticket].name {
                    assert(stands(line, ticket));
                    i + 1
                } else {
                    i
                },
                _ => i,
            };
            assert(0 <= k < line.len() && line[k] == place);
            assert(w.table.lines.contains_key(name));
            places_are_as_they_arrived(before, name, k);
            let at = choose|at: int|
                0 <= at < before.len() && #[trigger] before[at] == (Step::Arrive {
                    name,
                    waiter: w.table.lines[name][k],
                });
            assert(steps[at] == before[at]);
        }
    }
}

/// Every call that has not ended stands in the line of its name just as it arrived:
/// with the signal that it waits on.
pub proof fn the_place_of_a_call_has_its_signal(
    steps: Seq<Step>,
    at: int,
    name: Seq<char>,
    waiter: Waiter,
)
    requires
        possible(steps),
        0 <= at < steps.len(),
        steps[at] == (Step::Arrive { name, waiter }),
        world(steps).calls.contains_key(waiter.ticket),
    ensures
        world(steps).calls[waiter.ticket].name == name,
        world(steps).table.lines.contains_key(name),
        world(steps).table.lines[name].contains(waiter),
{
    lines_match_calls(steps);
    let w = world(steps);
    let n = w.calls[waiter.ticket].name;
    let line = w.table.line(n);
    assert(stands(line, waiter.ticket));
    let i = choose|i: int| 0 <= i < line.len() && (#[trigger] line[i]).ticket == waiter.ticket;
    places_are_as_they_arrived(steps, n, i);
    let k = choose|k: int|
        0 <= k < steps.len() && #[trigger] steps[k] == (Step::Arrive {
            name: n,
            waiter: w.table.lines[n][i],
        });
    if k < at {
        arrivals_are_numbered_in_order(steps, k, n, line[i], at, name, waiter);
    } else if at < k {
        arrivals_are_numbered_in_order(steps, at, name, waiter, k, n, line[i]);
    }
    assert(line[i] == waiter);
}

/// When a section is over, the place that is given to wake is the place with which
/// the next call arrived: the signal given is the one that the call waits on which
/// is called by it. That call waited, and arrived before all others that wait under
/// the name. No place is given just if no other call asks for the name.
pub proof fn a_release_gives_the_signal_that_is_waited_on(
    steps: Seq<Step>,
    ticket: u64,
    next: Option<Waiter>,
)
    requires
        possible(steps),
        world(steps).can(Step::Finish { ticket }),
        ({
            let line = world(steps).table.lines[world(steps).calls[ticket].name];
            &&& next is Some <==> line.len() > 1
            &&& next matches Some(place) ==> place == line[1]
        }),
    ensures
        ({
            let w = world(steps);
            let v = w.after(Step::Finish { ticket });
            let name = w.calls[ticket].name;
            &&& next matches Some(place) ==> {
                &&& exists|at: int|
                    0 <= at < steps.len() && #[trigger] steps[at] == (Step::Arrive {
                        name,
                        waiter: place,
                    })
                &&& w.calls.contains_key(place.ticket)
                &&& w.calls[place.ticket].stage is Waiting
                &&& v.calls == w.calls.remove(ticket).insert(
                    place.ticket,
                    Call { name, stage: Stage::Called },
                )
            }
            &&& next is None ==> v.calls == w.calls.remove(ticket)
            &&& forall|other: u64| #[trigger]
                w.calls.contains_key(other) && other != ticket && w.calls[other].name == name
                    ==> (next matches Some(place) && place.ticket <= other)
        }),
{
    lines_match_calls(steps);
    let w = world(steps);
    let name = w.calls[ticket].name;
    let line = w.table.line(name);
    lemma_line_wf(w.table, name);
    assert(stands(line, ticket));
    assert(line[0].ticket == ticket);
    lemma_left_is_call(w, name, ticket);
    if line.len() > 1 {
        places_are_as_they_arrived(steps, name, 1);
        assert(w.table.released(name).line(name)[0] == line[1]);
    }
    assert forall|other: u64| #[trigger]
        w.calls.contains_key(other) && other != ticket && w.calls[other].name
            == name implies (next matches Some(place) && place.ticket <= other) by {
        assert(stands(line, other));
    }
}

/// When a call whose turn it was gives up, the place that is given to wake is the
/// place with which the next call arrived: the signal given is the one that the call
/// waits on which is called by it. A call whose turn it was not gives no place, and
/// calls nobody.
pub proof fn giving_up_gives_the_signal_that_is_waited_on(
    steps: Seq<Step>,
    ticket: u64,
    next: Option<Waiter>,
)
    requires
        possible(steps),
        world(steps).can(Step::GiveUp { ticket }),
        ({
            let line = world(steps).table.lines[world(steps).calls[ticket].name];
            &&& next is Some <==> line[0].ticket == ticket && line.len() > 1
            &&& next matches Some(place) ==> place == line[1]
        }),
    ensures
        ({
            let w = world(steps);
            let v = w.after(Step::GiveUp { ticket });
            let name = w.calls[ticket].name;
            &&& next matches Some(place) ==> {
                &&& exists|at: int|
                    0 <= at < steps.len() && #[trigger] steps[at] == (Step::Arrive {
                        name,
                        waiter: place,
                    })
                &&& w.calls[ticket].stage is Called
                &&& w.calls.contains_key(place.ticket)
                &&& w.calls[place.ticket].stage is Waiting
                &&& v.calls == w.calls.remove(ticket).insert(
                    place.ticket,
                    Call { name, stage: Stage::Called },
                )
            }
            &&& next is None ==> v.calls == w.calls.remove(ticket)
            &&& w.calls[ticket].stage is Called ==> forall|other: u64| #[trigger]
                w.calls.contains_key(other) && other != ticket && w.calls[other].name == name
                    ==> (next matches Some(place) && place.ticket <= other)
        }),
{
    lines_match_calls(steps);
    lines_keep_moving(steps);
    let w = world(steps);
    let name = w.calls[ticket].name;
    let line = w.table.line(name);
    lemma_line_wf(w.table, name);
    assert(stands(line, ticket));
    assert(w.table.line(name).len() > 0);
    withdrawing_takes_one_out(w.table, name, ticket);
    if line[0].ticket == ticket {
        lemma_left_is_call(w, name, ticket);
        assert(w.table.withdrawn(name, ticket).lines[name] == line.remove(0));
        if line.len() > 1 {
            places_are_as_they_arrived(steps, name, 1);
            assert(w.table.withdrawn(name, ticket).line(name)[0] == line[1]);
        }
    }
    assert forall|other: u64| #[trigger]
        w.calls.contains_key(other) && other != ticket && w.calls[other].name == name
            && w.calls[ticket].stage is Called implies (next matches Some(place) && place.ticket
        <= other) by {
        assert(stands(line, other));
    }
}

/// A call that joins a line and gives up leaves the line as it was.
pub proof fn refusal_leaves_no_trace(table: TableView, name: Seq<char>, waiter: Waiter)
    requires
        table.wf(),
        waiter.ticket == table.next,
    ensures
        table.joined(name, waiter).withdrawn(name, waiter.ticket).line(name) == table.line(name),
{
    let line = table.line(name);
    lemma_line_wf(table, name);
    lemma_keep_all(line, waiter.ticket);
    reveal(Seq::filter);
    assert(line.push(waiter).drop_last() =~= line);
}

/// Taking out a place that nobody has changes nothing.
proof fn lemma_keep_all(line: Seq<Waiter>, ticket: u64)
    requires
        forall|i: int| 0 <= i < line.len() ==> (#[trigger] line[i]).ticket != ticket,
    ensures
        without(line, ticket) == line,
{
    lemma_without_absent(line, ticket);
}

/// A call that enters at once and finishes leaves the line empty again.
pub proof fn use_leaves_no_trace(table: TableView, name: Seq<char>, waiter: Waiter)
    requires
        table.line(name).len() == 0,
    ensures
        table.joined(name, waiter).released(name).line(name) == table.line(name),
        table.joined(name, waiter).released(name).front(name) is None,
{
    assert(table.joined(name, waiter).released(name).line(name) =~= table.line(name));
}

} // verus!
