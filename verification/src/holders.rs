//! What holds of those that hold a lock for longer than one call of theirs: tasks
//! in their re-entrant calls, and guards.
//!
//! Both rest on a lock call that is granted: a re-entrant call that takes the lock
//! runs inside one, and a guard stands for one that waits to be told to let go.
//! The lock underneath is the first-come-first-served lock ([`System`]) or the
//! lock manager of a page ([`Page`]).

use crate::fairness::{lemma_fresh, lemma_left_is_call, lemma_step, stands, Stage, Step, World};
use crate::navigator::{active_after, PageStep};
use crate::reentry::{
    fits, has_name, lemma_pop_nests, lemma_push_nests, lock_is_taken_once, nested_well, task_after,
    Frame, Move,
};
use vstd::prelude::*;

verus! {

/// Who a granted lock call belongs to.
pub enum Owner {
    /// A task that makes a re-entrant call.
    Task(int),
    /// A guard.
    Guard(int),
}

/// All tasks and guards that rest on granted lock calls.
pub struct Holders {
    /// Who each such lock call belongs to, by its number.
    pub owner: Map<u64, Owner>,
    /// The re-entrant calls of each task that run, the latest last.
    pub frames: Map<int, Seq<Frame>>,
    /// The lock call that each living guard stands for.
    pub guards: Map<int, u64>,
}

/// One step of a task or a guard.
pub enum HolderStep {
    /// A re-entrant call of the task under `name` starts to run: nested if the task
    /// runs one under that name, else inside lock call `ticket`.
    Call { task: int, name: Seq<char>, ticket: u64 },
    /// The latest re-entrant call of the task is over.
    Return { task: int },
    /// A guard is handed out for lock call `ticket`.
    TakeGuard { guard: int, ticket: u64 },
    /// A guard is dropped.
    DropGuard { guard: int },
}

/// No name is granted to two calls.
pub open spec fn exclusive(granted: Map<u64, Seq<char>>) -> bool {
    forall|a: u64, b: u64| #[trigger]
        granted.contains_key(a) && #[trigger] granted.contains_key(b) && granted[a] == granted[b]
            ==> a == b
}

impl Holders {
    /// Nobody holds anything.
    pub open spec fn start() -> Holders {
        Holders { owner: Map::empty(), frames: Map::empty(), guards: Map::empty() }
    }

    /// The re-entrant calls of `task` that run.
    pub open spec fn of(self, task: int) -> Seq<Frame> {
        if self.frames.contains_key(task) {
            self.frames[task]
        } else {
            Seq::empty()
        }
    }

    /// Whether the step can happen, given the names that lock calls are granted.
    pub open spec fn can(self, granted: Map<u64, Seq<char>>, step: HolderStep) -> bool {
        match step {
            HolderStep::Call { task, name, ticket } => has_name(self.of(task), name) || (
            granted.contains_key(ticket) && granted[ticket] == name && !self.owner.contains_key(
                ticket,
            )),
            HolderStep::Return { task } => self.of(task).len() > 0,
            HolderStep::TakeGuard { guard, ticket } => !self.guards.contains_key(guard)
                && granted.contains_key(ticket) && !self.owner.contains_key(ticket),
            HolderStep::DropGuard { guard } => self.guards.contains_key(guard),
        }
    }

    /// The holders after the step.
    pub open spec fn after(self, step: HolderStep) -> Holders {
        match step {
            HolderStep::Call { task, name, ticket } => if has_name(self.of(task), name) {
                Holders {
                    frames: self.frames.insert(
                        task,
                        self.of(task).push(Frame { name, ticket: None }),
                    ),
                    ..self
                }
            } else {
                Holders {
                    owner: self.owner.insert(ticket, Owner::Task(task)),
                    frames: self.frames.insert(
                        task,
                        self.of(task).push(Frame { name, ticket: Some(ticket) }),
                    ),
                    ..self
                }
            },
            HolderStep::Return { task } => Holders {
                owner: match self.of(task).last().ticket {
                    Some(ticket) => self.owner.remove(ticket),
                    None => self.owner,
                },
                frames: self.frames.insert(task, self.of(task).drop_last()),
                ..self
            },
            HolderStep::TakeGuard { guard, ticket } => Holders {
                owner: self.owner.insert(ticket, Owner::Guard(guard)),
                guards: self.guards.insert(guard, ticket),
                ..self
            },
            HolderStep::DropGuard { guard } => Holders {
                owner: self.owner.remove(self.guards[guard]),
                guards: self.guards.remove(guard),
                ..self
            },
        }
    }

    /// If re-entrant call `i` of `task` took a lock, that lock call is granted its
    /// name and belongs to the task.
    pub open spec fn backed(self, granted: Map<u64, Seq<char>>, task: int, i: int) -> bool {
        self.of(task)[i].ticket matches Some(ticket) ==> self.owner.contains_key(ticket)
            && self.owner[ticket] == Owner::Task(task) && granted[ticket] == self.of(task)[i].name
    }

    /// Lock calls that belong to somebody are granted; each guard and each
    /// re-entrant call that took a lock has one of its own.
    pub open spec fn inv(self, granted: Map<u64, Seq<char>>) -> bool {
        &&& forall|t: u64| #[trigger] self.owner.contains_key(t) ==> granted.contains_key(t)
        &&& forall|g: int| #[trigger]
            self.guards.contains_key(g) ==> self.owner.contains_key(self.guards[g])
                && self.owner[self.guards[g]] == Owner::Guard(g)
        &&& forall|task: int| nested_well(#[trigger] self.of(task))
        &&& forall|task: int, i: int|
            0 <= i < self.of(task).len() ==> #[trigger] self.backed(granted, task, i)
    }
}

/// The moves of `task` that a step adds to those before it.
pub open spec fn moves_with(moves: Seq<Move>, step: HolderStep, task: int) -> Seq<Move> {
    match step {
        HolderStep::Call { task: t, name, ticket } => if t == task {
            moves.push(Move::Call { name, ticket })
        } else {
            moves
        },
        HolderStep::Return { task: t } => if t == task {
            moves.push(Move::Return)
        } else {
            moves
        },
        _ => moves,
    }
}

/// A step keeps the calls of each task what the task's own moves make of them.
proof fn lemma_moves(
    h: Holders,
    granted: Map<u64, Seq<char>>,
    step: HolderStep,
    task: int,
    moves: Seq<Move>,
)
    requires
        h.can(granted, step),
        h.of(task) == task_after(moves).frames,
    ensures
        h.after(step).of(task) == task_after(moves_with(moves, step, task)).frames,
{
    lock_is_taken_once(moves);
    let more = moves_with(moves, step, task);
    if more.len() > moves.len() {
        assert(more.drop_last() =~= moves);
    }
    if let HolderStep::Call { task: t, name, ticket } = step {
        assert(task_after(moves).held.contains(name) <==> has_name(task_after(moves).frames, name));
    }
}

/// A re-entrant call that starts to run keeps the invariant.
proof fn lemma_call(
    h: Holders,
    granted: Map<u64, Seq<char>>,
    task: int,
    name: Seq<char>,
    ticket: u64,
)
    requires
        h.inv(granted),
        h.can(granted, HolderStep::Call { task, name, ticket }),
    ensures
        h.after(HolderStep::Call { task, name, ticket }).inv(granted),
{
    let v = h.after(HolderStep::Call { task, name, ticket });
    let frame = v.of(task).last();
    assert(nested_well(h.of(task)));
    lemma_push_nests(h.of(task), frame);
    assert(v.of(task) == h.of(task).push(frame));
    assert forall|k: int| nested_well(#[trigger] v.of(k)) by {
        if k != task {
            assert(v.of(k) == h.of(k));
        }
    }
    assert forall|k: int, i: int| 0 <= i < v.of(k).len() implies #[trigger] v.backed(
        granted,
        k,
        i,
    ) by {
        if k != task {
            assert(v.of(k) == h.of(k));
            assert(h.backed(granted, k, i));
        } else if i < h.of(task).len() {
            assert(h.backed(granted, k, i));
            assert(v.of(k)[i] == h.of(k)[i]);
        }
    }
    assert forall|g: int| #[trigger] v.guards.contains_key(g) implies v.owner.contains_key(
        v.guards[g],
    ) && v.owner[v.guards[g]] == Owner::Guard(g) by {
        assert(h.guards.contains_key(g));
    }
}

/// A re-entrant call that is over keeps the invariant.
proof fn lemma_return(h: Holders, granted: Map<u64, Seq<char>>, task: int)
    requires
        h.inv(granted),
        h.can(granted, HolderStep::Return { task }),
    ensures
        h.after(HolderStep::Return { task }).inv(granted),
{
    let v = h.after(HolderStep::Return { task });
    let frames = h.of(task);
    let last = frames.len() - 1;
    assert(nested_well(frames));
    assert(fits(frames, last));
    assert(h.backed(granted, task, last));
    lemma_pop_nests(frames);
    assert(v.of(task) == frames.drop_last());
    assert forall|k: int| nested_well(#[trigger] v.of(k)) by {
        if k != task {
            assert(v.of(k) == h.of(k));
        }
    }
    assert forall|k: int, i: int| 0 <= i < v.of(k).len() implies #[trigger] v.backed(
        granted,
        k,
        i,
    ) by {
        assert(h.backed(granted, k, i));
        assert(v.of(k)[i] == h.of(k)[i]);
        if k == task && frames[last].ticket is Some && frames[i].name == frames[last].name {
            assert(frames.take(last)[i].name == frames[last].name);
        }
    }
    assert forall|g: int| #[trigger] v.guards.contains_key(g) implies v.owner.contains_key(
        v.guards[g],
    ) && v.owner[v.guards[g]] == Owner::Guard(g) by {
        assert(h.guards.contains_key(g));
    }
}

/// A guard that is handed out or dropped keeps the invariant.
proof fn lemma_guard(h: Holders, granted: Map<u64, Seq<char>>, step: HolderStep)
    requires
        h.inv(granted),
        h.can(granted, step),
        step is TakeGuard || step is DropGuard,
    ensures
        h.after(step).inv(granted),
{
    let v = h.after(step);
    assert(v.frames == h.frames);
    assert forall|k: int| nested_well(#[trigger] v.of(k)) by {
        assert(v.of(k) == h.of(k));
    }
    assert forall|k: int, i: int| 0 <= i < v.of(k).len() implies #[trigger] v.backed(
        granted,
        k,
        i,
    ) by {
        assert(v.of(k) == h.of(k));
        assert(h.backed(granted, k, i));
    }
    assert forall|g: int| #[trigger] v.guards.contains_key(g) implies v.owner.contains_key(
        v.guards[g],
    ) && v.owner[v.guards[g]] == Owner::Guard(g) by {
        if step matches HolderStep::TakeGuard { guard, ticket } && guard == g {
        } else {
            assert(h.guards.contains_key(g));
        }
    }
}

/// Every step of a task or a guard keeps the invariant.
proof fn lemma_holder_step(h: Holders, granted: Map<u64, Seq<char>>, step: HolderStep)
    requires
        h.inv(granted),
        h.can(granted, step),
    ensures
        h.after(step).inv(granted),
{
    match step {
        HolderStep::Call { task, name, ticket } => lemma_call(h, granted, task, name, ticket),
        HolderStep::Return { task } => lemma_return(h, granted, task),
        _ => lemma_guard(h, granted, step),
    }
}

/// What happens to lock calls that belong to nobody does not touch the holders.
proof fn lemma_granted_changes(
    h: Holders,
    before: Map<u64, Seq<char>>,
    after: Map<u64, Seq<char>>,
)
    requires
        h.inv(before),
        forall|t: u64| #[trigger]
            h.owner.contains_key(t) ==> after.contains_key(t) && after[t] == before[t],
    ensures
        h.inv(after),
{
    assert forall|task: int, i: int| 0 <= i < h.of(task).len() implies #[trigger] h.backed(
        after,
        task,
        i,
    ) by {
        assert(h.backed(before, task, i));
    }
}

/// If a task runs a re-entrant call under a name, one of its calls took that lock.
proof fn lemma_taker(frames: Seq<Frame>, name: Seq<char>) -> (at: int)
    requires
        nested_well(frames),
        has_name(frames, name),
    ensures
        0 <= at < frames.len(),
        frames[at].name == name,
        frames[at].ticket is Some,
    decreases frames.len(),
{
    let i = choose|i: int| 0 <= i < frames.len() && (#[trigger] frames[i]).name == name;
    assert(fits(frames, i));
    if frames[i].ticket is Some {
        i
    } else {
        let before = frames.take(i);
        assert forall|k: int| 0 <= k < before.len() implies #[trigger] fits(before, k) by {
            assert(fits(frames, k));
            assert(before.take(k) =~= frames.take(k));
        }
        lemma_taker(before, name)
    }
}

/// Two tasks do not run re-entrant calls under one name if the lock underneath is
/// exclusive.
proof fn lemma_tasks_apart(
    h: Holders,
    granted: Map<u64, Seq<char>>,
    a: int,
    b: int,
    name: Seq<char>,
)
    requires
        h.inv(granted),
        exclusive(granted),
        has_name(h.of(a), name),
        has_name(h.of(b), name),
    ensures
        a == b,
{
    assert(nested_well(h.of(a)));
    assert(nested_well(h.of(b)));
    let i = lemma_taker(h.of(a), name);
    let j = lemma_taker(h.of(b), name);
    assert(h.backed(granted, a, i));
    assert(h.backed(granted, b, j));
    let s = h.of(a)[i].ticket->0;
    let t = h.of(b)[j].ticket->0;
    assert(granted.contains_key(s) && granted.contains_key(t));
}

/// The names of the calls that are inside.
pub open spec fn inside_calls(w: World) -> Map<u64, Seq<char>> {
    Map::new(
        |t: u64| w.calls.contains_key(t) && w.calls[t].stage is Inside,
        |t: u64| w.calls[t].name,
    )
}

/// The first-come-first-served lock with all that rests on it.
pub struct System {
    /// The lock.
    pub world: World,
    /// Tasks and guards.
    pub holders: Holders,
}

/// One step of a lock call, of a task or of a guard.
pub enum SystemStep {
    /// A step of a lock call.
    Lock(Step),
    /// A step of a task or a guard.
    Holder(HolderStep),
}

impl System {
    /// Nothing has happened.
    pub open spec fn start() -> System {
        System { world: World::start(), holders: Holders::start() }
    }

    /// Whether the step can happen. The section of a lock call that belongs to a
    /// task or a guard is not over before these let go of it.
    pub open spec fn can(self, step: SystemStep) -> bool {
        match step {
            SystemStep::Lock(inner) => self.world.can(inner) && (inner matches Step::Finish {
                ticket,
            } ==> !self.holders.owner.contains_key(ticket)),
            SystemStep::Holder(inner) => self.holders.can(inside_calls(self.world), inner),
        }
    }

    /// The system after the step.
    pub open spec fn after(self, step: SystemStep) -> System {
        match step {
            SystemStep::Lock(inner) => System { world: self.world.after(inner), ..self },
            SystemStep::Holder(inner) => System { holders: self.holders.after(inner), ..self },
        }
    }
}

/// The system after all of `steps`.
pub open spec fn system(steps: Seq<SystemStep>) -> System
    decreases steps.len(),
{
    if steps.len() == 0 {
        System::start()
    } else {
        system(steps.drop_last()).after(steps.last())
    }
}

/// Each of `steps` can happen when its turn comes.
pub open spec fn feasible(steps: Seq<SystemStep>) -> bool
    decreases steps.len(),
{
    steps.len() > 0 ==> feasible(steps.drop_last()) && system(steps.drop_last()).can(steps.last())
}

/// The calls that are inside have different names.
proof fn lemma_inside_exclusive(w: World)
    requires
        w.inv(),
    ensures
        exclusive(inside_calls(w)),
{
    let granted = inside_calls(w);
    assert forall|a: u64, b: u64| #[trigger]
        granted.contains_key(a) && #[trigger] granted.contains_key(b) && granted[a]
            == granted[b] implies a == b by {
        assert(w.calls.contains_key(a) && w.calls.contains_key(b));
    }
}

/// A call that is inside stays inside until its section is over.
pub proof fn inside_until_finished(w: World, step: Step, ticket: u64)
    requires
        w.inv(),
        w.can(step),
        w.calls.contains_key(ticket),
        w.calls[ticket].stage is Inside,
        step != (Step::Finish { ticket }),
    ensures
        w.after(step).calls.contains_key(ticket),
        w.after(step).calls[ticket] == w.calls[ticket],
{
    match step {
        Step::Arrive { name, waiter } => lemma_fresh(w, waiter.ticket),
        Step::Enter { ticket: t } => {},
        Step::GiveUp { ticket: t } => {
            let name = w.calls[t].name;
            if w.table.is_first(name, t) {
                lemma_left_is_call(w, name, t);
            }
        },
        Step::Finish { ticket: t } => {
            let name = w.calls[t].name;
            assert(stands(w.table.line(name), t));
            lemma_left_is_call(w, name, t);
        },
    }
}

/// Whatever happened, the lock's invariant and that of the holders hold.
proof fn lemma_system(steps: Seq<SystemStep>)
    requires
        feasible(steps),
    ensures
        system(steps).world.inv(),
        system(steps).holders.inv(inside_calls(system(steps).world)),
    decreases steps.len(),
{
    if steps.len() > 0 {
        lemma_system(steps.drop_last());
        let before = system(steps.drop_last());
        let granted = inside_calls(before.world);
        match steps.last() {
            SystemStep::Lock(inner) => {
                lemma_step(before.world, inner);
                let after = before.world.after(inner);
                assert forall|t: u64| #[trigger]
                    before.holders.owner.contains_key(t) implies inside_calls(after).contains_key(t)
                    && inside_calls(after)[t] == granted[t] by {
                    assert(granted.contains_key(t));
                    inside_until_finished(before.world, inner, t);
                }
                lemma_granted_changes(before.holders, granted, inside_calls(after));
            },
            SystemStep::Holder(inner) => {
                lemma_holder_step(before.holders, granted, inner);
            },
        }
    }
}

/// The moves of `task` in a history of the system.
pub open spec fn moves_of(steps: Seq<SystemStep>, task: int) -> Seq<Move>
    decreases steps.len(),
{
    if steps.len() == 0 {
        Seq::empty()
    } else {
        match steps.last() {
            SystemStep::Holder(inner) => moves_with(moves_of(steps.drop_last(), task), inner, task),
            SystemStep::Lock(inner) => moves_of(steps.drop_last(), task),
        }
    }
}

/// Whatever happened, the re-entrant calls of a task are what its own moves make
/// of them: what it decides by the names that it holds is what runs.
pub proof fn tasks_go_by_their_names(steps: Seq<SystemStep>, task: int)
    requires
        feasible(steps),
    ensures
        system(steps).holders.of(task) == task_after(moves_of(steps, task)).frames,
        forall|n: Seq<char>| #[trigger]
            task_after(moves_of(steps, task)).held.contains(n) <==> has_name(
                system(steps).holders.of(task),
                n,
            ),
    decreases steps.len(),
{
    if steps.len() > 0 {
        tasks_go_by_their_names(steps.drop_last(), task);
        if let SystemStep::Holder(inner) = steps.last() {
            let before = system(steps.drop_last());
            lemma_moves(
                before.holders,
                inside_calls(before.world),
                inner,
                task,
                moves_of(steps.drop_last(), task),
            );
        }
    }
    lock_is_taken_once(moves_of(steps, task));
}

/// Re-entrant calls of two tasks never overlap under one name: re-entry is for the
/// task that holds the lock, every other task waits for it.
pub proof fn reentrant_calls_of_tasks_are_apart(
    steps: Seq<SystemStep>,
    a: int,
    b: int,
    name: Seq<char>,
)
    requires
        feasible(steps),
        has_name(system(steps).holders.of(a), name),
        has_name(system(steps).holders.of(b), name),
    ensures
        a == b,
{
    lemma_system(steps);
    lemma_inside_exclusive(system(steps).world);
    lemma_tasks_apart(
        system(steps).holders,
        inside_calls(system(steps).world),
        a,
        b,
        name,
    );
}

/// At any time at most one guard of a name is alive.
pub proof fn guards_of_a_name_are_apart(steps: Seq<SystemStep>, g: int, h: int)
    requires
        feasible(steps),
        system(steps).holders.guards.contains_key(g),
        system(steps).holders.guards.contains_key(h),
        ({
            let s = system(steps);
            s.world.calls[s.holders.guards[g]].name == s.world.calls[s.holders.guards[h]].name
        }),
    ensures
        g == h,
{
    lemma_system(steps);
    let s = system(steps);
    lemma_inside_exclusive(s.world);
    let granted = inside_calls(s.world);
    assert(granted.contains_key(s.holders.guards[g]));
    assert(granted.contains_key(s.holders.guards[h]));
}

/// While a guard is alive, no task runs a re-entrant call under its name.
pub proof fn guards_and_tasks_are_apart(steps: Seq<SystemStep>, g: int, task: int)
    requires
        feasible(steps),
        system(steps).holders.guards.contains_key(g),
    ensures
        ({
            let s = system(steps);
            !has_name(s.holders.of(task), s.world.calls[s.holders.guards[g]].name)
        }),
{
    lemma_system(steps);
    let s = system(steps);
    lemma_inside_exclusive(s.world);
    let granted = inside_calls(s.world);
    let ticket = s.holders.guards[g];
    let name = s.world.calls[ticket].name;
    assert(granted.contains_key(ticket));
    if has_name(s.holders.of(task), name) {
        assert(nested_well(s.holders.of(task)));
        let i = lemma_taker(s.holders.of(task), name);
        assert(s.holders.backed(granted, task, i));
        assert(granted.contains_key(s.holders.of(task)[i].ticket->0));
    }
}

/// A dropped guard lets go: its section can be over, and then its name goes to the
/// next in line, or is free.
pub proof fn dropped_guard_frees_the_name(steps: Seq<SystemStep>, g: int)
    requires
        feasible(steps),
        system(steps).holders.guards.contains_key(g),
    ensures
        ({
            let s = system(steps);
            let ticket = s.holders.guards[g];
            let name = s.world.calls[ticket].name;
            let dropped = s.after(SystemStep::Holder(HolderStep::DropGuard { guard: g }));
            let over = dropped.after(SystemStep::Lock(Step::Finish { ticket }));
            &&& dropped.can(SystemStep::Lock(Step::Finish { ticket }))
            &&& !over.world.calls.contains_key(ticket)
            &&& over.world.table.front(name) matches Some(next)
                ==> over.world.calls[next.ticket].stage == Stage::Called
        }),
{
    lemma_system(steps);
    let s = system(steps);
    let ticket = s.holders.guards[g];
    assert(inside_calls(s.world).contains_key(ticket));
}

/// The lock manager of a page with all that rests on it.
pub struct Page {
    /// The names of the requests that the lock manager has granted.
    pub granted: Map<u64, Seq<char>>,
    /// The tasks and guards of the page.
    pub holders: Holders,
}

/// One step of a request, of a task or of a guard.
pub enum PageEvent {
    /// The lock manager grants a request. It grants a name to one at a time.
    Grant { ticket: u64, name: Seq<char> },
    /// The section of a request is over.
    Settle { ticket: u64 },
    /// A step of a task or a guard.
    Holder(HolderStep),
}

impl Page {
    /// Nothing has happened.
    pub open spec fn start() -> Page {
        Page { granted: Map::empty(), holders: Holders::start() }
    }

    /// Whether the step can happen. The section of a request that belongs to a
    /// task or a guard is not over before these let go of it.
    pub open spec fn can(self, event: PageEvent) -> bool {
        match event {
            PageEvent::Grant { ticket, name } => !self.granted.contains_key(ticket) && forall|t: u64|
                #[trigger] self.granted.contains_key(t) ==> self.granted[t] != name,
            PageEvent::Settle { ticket } => self.granted.contains_key(ticket)
                && !self.holders.owner.contains_key(ticket),
            PageEvent::Holder(inner) => self.holders.can(self.granted, inner),
        }
    }

    /// The page after the step.
    pub open spec fn after(self, event: PageEvent) -> Page {
        match event {
            PageEvent::Grant { ticket, name } => Page {
                granted: self.granted.insert(ticket, name),
                ..self
            },
            PageEvent::Settle { ticket } => Page { granted: self.granted.remove(ticket), ..self },
            PageEvent::Holder(inner) => Page { holders: self.holders.after(inner), ..self },
        }
    }
}

/// The page after all of `events`.
pub open spec fn page(events: Seq<PageEvent>) -> Page
    decreases events.len(),
{
    if events.len() == 0 {
        Page::start()
    } else {
        page(events.drop_last()).after(events.last())
    }
}

/// Each of `events` can happen when its turn comes.
pub open spec fn page_feasible(events: Seq<PageEvent>) -> bool
    decreases events.len(),
{
    events.len() > 0 ==> page_feasible(events.drop_last()) && page(events.drop_last()).can(
        events.last(),
    )
}

/// Whatever happened, grants are exclusive and the invariant of the holders holds.
proof fn lemma_page(events: Seq<PageEvent>)
    requires
        page_feasible(events),
    ensures
        exclusive(page(events).granted),
        page(events).holders.inv(page(events).granted),
    decreases events.len(),
{
    if events.len() > 0 {
        lemma_page(events.drop_last());
        let before = page(events.drop_last());
        let after = page(events);
        match events.last() {
            PageEvent::Holder(inner) => {
                lemma_holder_step(before.holders, before.granted, inner);
            },
            PageEvent::Grant { ticket, name } => {
                assert forall|a: u64, b: u64| #[trigger]
                    after.granted.contains_key(a) && #[trigger] after.granted.contains_key(b)
                        && after.granted[a] == after.granted[b] implies a == b by {
                    assert(a == ticket || before.granted.contains_key(a));
                    assert(b == ticket || before.granted.contains_key(b));
                }
                assert forall|t: u64| #[trigger]
                    before.holders.owner.contains_key(t) implies after.granted.contains_key(t)
                    && after.granted[t] == before.granted[t] by {
                    assert(before.granted.contains_key(t));
                }
                lemma_granted_changes(before.holders, before.granted, after.granted);
            },
            PageEvent::Settle { ticket } => {
                assert forall|a: u64, b: u64| #[trigger]
                    after.granted.contains_key(a) && #[trigger] after.granted.contains_key(b)
                        && after.granted[a] == after.granted[b] implies a == b by {
                    assert(before.granted.contains_key(a) && before.granted.contains_key(b));
                }
                assert forall|t: u64| #[trigger]
                    before.holders.owner.contains_key(t) implies after.granted.contains_key(t)
                    && after.granted[t] == before.granted[t] by {
                    assert(before.granted.contains_key(t));
                }
                lemma_granted_changes(before.holders, before.granted, after.granted);
            },
        }
    }
}

/// The sections of a page under one name never overlap, since the lock manager
/// grants a name to one request at a time and a section runs only while its
/// request is granted: two requests that are granted have different names.
pub proof fn sections_of_a_page_are_apart(events: Seq<PageEvent>)
    requires
        page_feasible(events),
    ensures
        exclusive(page(events).granted),
{
    lemma_page(events);
}

/// Requests of a page under different names do not wait for each other: what can
/// be granted before a step under another name can be granted after it.
pub proof fn names_of_a_page_are_apart(
    events: Seq<PageEvent>,
    event: PageEvent,
    ticket: u64,
    name: Seq<char>,
)
    requires
        page_feasible(events),
        page(events).can(event),
        page(events).can(PageEvent::Grant { ticket, name }),
        event matches PageEvent::Grant { ticket: t, name: n } ==> t != ticket && n != name,
    ensures
        page(events).after(event).can(PageEvent::Grant { ticket, name }),
{
    let before = page(events);
    let after = before.after(event);
    assert forall|t: u64| #[trigger] after.granted.contains_key(t) implies after.granted[t]
        != name by {
        assert(before.granted.contains_key(t) || event is Grant);
    }
}

/// What a history of a page does to the set of names that it holds.
pub open spec fn steps_of(events: Seq<PageEvent>) -> Seq<PageStep>
    decreases events.len(),
{
    if events.len() == 0 {
        Seq::empty()
    } else {
        let before = steps_of(events.drop_last());
        match events.last() {
            PageEvent::Grant { ticket, name } => before.push(
                PageStep::Answered { name, held: true },
            ),
            PageEvent::Settle { ticket } => before.push(
                PageStep::Settled { name: page(events.drop_last()).granted[ticket] },
            ),
            PageEvent::Holder(inner) => before,
        }
    }
}

/// `name` is granted to one of the requests.
pub open spec fn is_granted(granted: Map<u64, Seq<char>>, name: Seq<char>) -> bool {
    exists|t: u64| #[trigger] granted.contains_key(t) && granted[t] == name
}

/// The names that a page holds are those that are granted to it and whose section
/// is not over yet.
pub proof fn held_names_are_granted(events: Seq<PageEvent>, name: Seq<char>)
    requires
        page_feasible(events),
    ensures
        active_after(steps_of(events)).contains(name) <==> is_granted(page(events).granted, name),
    decreases events.len(),
{
    if events.len() > 0 {
        let earlier = events.drop_last();
        held_names_are_granted(earlier, name);
        lemma_page(earlier);
        let before = page(earlier).granted;
        let after = page(events).granted;
        let steps = steps_of(events);
        match events.last() {
            PageEvent::Grant { ticket, name: n } => {
                assert(steps.drop_last() =~= steps_of(earlier));
                assert(after.contains_key(ticket) && after[ticket] == n);
                if is_granted(before, name) {
                    let t = choose|t: u64| #[trigger] before.contains_key(t) && before[t] == name;
                    assert(after.contains_key(t) && after[t] == name);
                }
                if is_granted(after, name) && n != name {
                    let t = choose|t: u64| #[trigger] after.contains_key(t) && after[t] == name;
                    assert(before.contains_key(t) && before[t] == name);
                }
            },
            PageEvent::Settle { ticket } => {
                assert(steps.drop_last() =~= steps_of(earlier));
                assert(before.contains_key(ticket));
                if is_granted(before, name) && before[ticket] != name {
                    let t = choose|t: u64| #[trigger] before.contains_key(t) && before[t] == name;
                    assert(after.contains_key(t) && after[t] == name);
                }
                if is_granted(after, name) {
                    let t = choose|t: u64| #[trigger] after.contains_key(t) && after[t] == name;
                    assert(before.contains_key(t) && before[t] == name);
                }
            },
            PageEvent::Holder(inner) => {},
        }
    }
}

/// The moves of `task` in a history of a page.
pub open spec fn page_moves_of(events: Seq<PageEvent>, task: int) -> Seq<Move>
    decreases events.len(),
{
    if events.len() == 0 {
        Seq::empty()
    } else {
        match events.last() {
            PageEvent::Holder(inner) => moves_with(
                page_moves_of(events.drop_last(), task),
                inner,
                task,
            ),
            _ => page_moves_of(events.drop_last(), task),
        }
    }
}

/// Whatever happened, the re-entrant calls of a task of a page are what its own
/// moves make of them: what it decides by the names that it holds is what runs.
pub proof fn page_tasks_go_by_their_names(events: Seq<PageEvent>, task: int)
    requires
        page_feasible(events),
    ensures
        page(events).holders.of(task) == task_after(page_moves_of(events, task)).frames,
        forall|n: Seq<char>| #[trigger]
            task_after(page_moves_of(events, task)).held.contains(n) <==> has_name(
                page(events).holders.of(task),
                n,
            ),
    decreases events.len(),
{
    if events.len() > 0 {
        page_tasks_go_by_their_names(events.drop_last(), task);
        if let PageEvent::Holder(inner) = events.last() {
            let before = page(events.drop_last());
            lemma_moves(
                before.holders,
                before.granted,
                inner,
                task,
                page_moves_of(events.drop_last(), task),
            );
        }
    }
    lock_is_taken_once(page_moves_of(events, task));
}

/// A name that a task of a page holds belongs to that task, not to the page: no
/// other task of the page runs a re-entrant call under it meanwhile.
pub proof fn ownership_is_by_task(events: Seq<PageEvent>, a: int, b: int, name: Seq<char>)
    requires
        page_feasible(events),
        has_name(page(events).holders.of(a), name),
        has_name(page(events).holders.of(b), name),
    ensures
        a == b,
{
    lemma_page(events);
    lemma_tasks_apart(page(events).holders, page(events).granted, a, b, name);
}

} // verus!
