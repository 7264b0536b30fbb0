//! The table of waiting lines: for each lock name, who holds it and who waits.

use crate::signal::Signal;
use std::collections::VecDeque;
use std::sync::Arc;
use tokio::sync::Notify;
use vstd::hash_map::StringHashMap;
use vstd::prelude::*;

verus! {

/// `tokio::sync::Notify`: a wake-up signal that one task waits on.
#[verifier::external_type_specification]
#[verifier::external_body]
pub struct ExNotify(Notify);

/// `Notify::new`: a signal that nobody has given yet. What a signal holds
/// changes behind a shared reference, so no contract speaks of it.
pub assume_specification[ Notify::new ]() -> (signal: Notify)
;

/// One place in a waiting line.
pub struct Waiter {
    /// The number of the place. Numbers are given out in order of arrival.
    pub ticket: u64,
    /// Wakes the task that waits in this place.
    pub signal: Arc<Signal>,
}

impl Waiter {
    /// A second handle to the same place.
    pub fn duplicate(&self) -> (copy: Waiter)
        ensures
            copy == *self,
    {
        Waiter { ticket: self.ticket, signal: self.signal.clone() }
    }
}

/// The numbers in a line are ascending and all were given out before `next`.
pub open spec fn line_wf(line: Seq<Waiter>, next: nat) -> bool {
    &&& forall|i: int, j: int| 0 <= i < j < line.len() ==> line[i].ticket < line[j].ticket
    &&& forall|i: int| 0 <= i < line.len() ==> (#[trigger] line[i]).ticket < next
}

/// `line` without the place numbered `ticket`.
pub open spec fn without(line: Seq<Waiter>, ticket: u64) -> Seq<Waiter> {
    line.filter(|w: Waiter| w.ticket != ticket)
}

/// What a table holds.
#[verifier::ext_equal]
pub struct TableView {
    /// The line of each name that was ever asked for, the holder first.
    pub lines: Map<Seq<char>, Seq<Waiter>>,
    /// The number that the next arrival gets.
    pub next: nat,
}

impl TableView {
    /// Every line is in order of arrival.
    pub open spec fn wf(self) -> bool {
        forall|name: Seq<char>| #[trigger]
            self.lines.contains_key(name) ==> line_wf(self.lines[name], self.next)
    }

    /// Every place of every line has a number of its own, and a signal with that
    /// number.
    pub open spec fn own_signals(self) -> bool {
        &&& forall|name: Seq<char>, i: int|
            #![trigger self.lines[name][i]]
            self.lines.contains_key(name) && 0 <= i < self.lines[name].len()
                ==> self.lines[name][i].signal.number() == self.lines[name][i].ticket
        &&& forall|a: Seq<char>, i: int, b: Seq<char>, j: int|
            #![trigger self.lines[a][i], self.lines[b][j]]
            self.lines.contains_key(a) && 0 <= i < self.lines[a].len() && self.lines.contains_key(b)
                && 0 <= j < self.lines[b].len() && a != b ==> self.lines[a][i].ticket
                != self.lines[b][j].ticket
    }

    /// The line of `name`; empty for a name that nobody asked for.
    pub open spec fn line(self, name: Seq<char>) -> Seq<Waiter> {
        if self.lines.contains_key(name) {
            self.lines[name]
        } else {
            Seq::empty()
        }
    }

    /// The table after `waiter` joined the line of `name` at the back.
    pub open spec fn joined(self, name: Seq<char>, waiter: Waiter) -> TableView {
        TableView {
            lines: self.lines.insert(name, self.line(name).push(waiter)),
            next: self.next + 1,
        }
    }

    /// The table after the place numbered `ticket` left the line of `name`.
    pub open spec fn withdrawn(self, name: Seq<char>, ticket: u64) -> TableView {
        if self.lines.contains_key(name) {
            TableView { lines: self.lines.insert(name, without(self.line(name), ticket)), ..self }
        } else {
            self
        }
    }

    /// The table after the first place left the line of `name`.
    pub open spec fn released(self, name: Seq<char>) -> TableView {
        let line = self.line(name);
        TableView {
            lines: self.lines.insert(
                name,
                if line.len() == 0 {
                    line
                } else {
                    line.drop_first()
                },
            ),
            ..self
        }
    }

    /// Who stands first in the line of `name`.
    pub open spec fn front(self, name: Seq<char>) -> Option<Waiter> {
        if self.line(name).len() == 0 {
            None
        } else {
            Some(self.line(name)[0])
        }
    }

    /// Whether the place numbered `ticket` stands first in the line of `name`.
    pub open spec fn is_first(self, name: Seq<char>, ticket: u64) -> bool {
        self.front(name) matches Some(first) && first.ticket == ticket
    }
}

/// The waiting lines of all lock names.
pub struct LockTable {
    /// Where in `lines` the line of a name stands.
    slots: StringHashMap<usize>,
    lines: Vec<VecDeque<Waiter>>,
    next: u64,
}

impl View for LockTable {
    type V = TableView;

    closed spec fn view(&self) -> TableView {
        TableView {
            lines: Map::new(
                |name: Seq<char>| self.slots@.contains_key(name),
                |name: Seq<char>| self.lines@[self.slots@[name] as int]@,
            ),
            next: self.next as nat,
        }
    }
}

impl LockTable {
    /// Each name has a line of its own, and the lines are in order.
    pub closed spec fn wf(&self) -> bool {
        &&& forall|name: Seq<char>| #[trigger]
            self.slots@.contains_key(name) ==> self.slots@[name] < self.lines@.len()
        &&& forall|a: Seq<char>, b: Seq<char>| #[trigger]
            self.slots@.contains_key(a) && #[trigger] self.slots@.contains_key(b) && a != b
                ==> self.slots@[a] != self.slots@[b]
        &&& self@.wf()
        &&& self@.own_signals()
    }

    /// A table in which nobody has asked for anything.
    pub fn new() -> (table: LockTable)
        ensures
            table.wf(),
            table@ == (TableView { lines: Map::empty(), next: 0 }),
    {
        let table = LockTable { slots: StringHashMap::new(), lines: Vec::new(), next: 0 };
        assert(table@.lines =~= Map::empty());
        table
    }

    /// Whether numbers are left to give out.
    pub fn has_room(&self) -> (room: bool)
        ensures
            room == (self@.next < u64::MAX),
    {
        self.next < u64::MAX
    }

    /// Whether the name was ever asked for.
    pub fn knows(&self, name: &str) -> (known: bool)
        ensures
            known == self@.lines.contains_key(name@),
    {
        self.slots.contains_key(name)
    }

    /// Who stands first in the line of `name`.
    pub fn first(&self, name: &str) -> (first: Option<Waiter>)
        requires
            self.wf(),
        ensures
            first == self@.front(name@),
            first is Some <==> self@.lines.contains_key(name@) && self@.lines[name@].len() > 0,
            first matches Some(place) ==> place == self@.lines[name@][0],
    {
        match self.slots.get(name) {
            Some(slot) => {
                let slot: usize = *slot;
                if self.lines[slot].len() == 0 {
                    None
                } else {
                    Some(self.lines[slot][0].duplicate())
                }
            },
            None => None,
        }
    }

    /// The slot of the line of `name`, which is opened if there is none.
    fn slot(&mut self, name: &str) -> (slot: usize)
        requires
            old(self).wf(),
        ensures
            final(self).wf(),
            final(self).next == old(self).next,
            final(self)@.lines == old(self)@.lines.insert(name@, old(self)@.line(name@)),
            final(self).slots@.contains_key(name@),
            final(self).slots@[name@] == slot,
            slot < final(self).lines@.len(),
    {
        match self.slots.get(name) {
            Some(slot) => {
                let slot: usize = *slot;
                assert(self@.lines =~= old(self)@.lines.insert(name@, old(self)@.line(name@)));
                slot
            },
            None => {
                let slot: usize = self.lines.len();
                self.lines.push(VecDeque::new());
                self.slots.insert(name.to_owned(), slot);
                assert(self@.lines =~= old(self)@.lines.insert(name@, old(self)@.line(name@)));
                slot
            },
        }
    }

    /// Joins the line of `name` at the back. Returns the new place and how many
    /// stand before it.
    pub fn join(&mut self, name: &str) -> (place: (Waiter, usize))
        requires
            old(self).wf(),
            old(self)@.next < u64::MAX,
        ensures
            final(self).wf(),
            final(self)@ == old(self)@.joined(name@, place.0),
            place.0.ticket == old(self)@.next,
            place.1 == old(self)@.line(name@).len(),
            final(self)@.next == old(self)@.next + 1,
            old(self)@.lines.contains_key(name@) ==> {
                &&& final(self)@.lines == old(self)@.lines.insert(
                    name@,
                    old(self)@.lines[name@].push(place.0),
                )
                &&& place.1 == old(self)@.lines[name@].len()
            },
            !old(self)@.lines.contains_key(name@) ==> {
                &&& final(self)@.lines == old(self)@.lines.insert(name@, seq![place.0])
                &&& place.1 == 0
            },
            place.0.signal.number() == place.0.ticket,
            forall|n: Seq<char>, i: int|
                #![trigger old(self)@.lines[n][i]]
                old(self)@.lines.contains_key(n) && 0 <= i < old(self)@.lines[n].len()
                    ==> old(self)@.lines[n][i].signal != place.0.signal,
    {
        let waiter = Waiter { ticket: self.next, signal: Arc::new(Signal::new(self.next)) };
        let slot = self.slot(name);
        let ghost opened = self@;
        assert(opened.line(name@) == self.lines@[slot as int]@);
        let position: usize = self.lines[slot].len();
        self.lines[slot].push_back(waiter.duplicate());
        self.next = self.next + 1;
        proof {
            let joined = old(self)@.joined(name@, waiter);
            assert(opened.lines[name@] == old(self)@.line(name@));
            assert(self@.lines =~= joined.lines);
            lemma_joined_wf(old(self)@, name@, waiter);
            lemma_joined_signals(old(self)@, name@, waiter);
            joining_adds_one_at_the_back(old(self)@, name@, waiter);
            assert forall|n: Seq<char>, i: int|
                #![trigger old(self)@.lines[n][i]]
                old(self)@.lines.contains_key(n) && 0 <= i < old(self)@.lines[n].len() implies old(
                self,
            )@.lines[n][i].signal != waiter.signal by {
                assert(line_wf(old(self)@.lines[n], old(self)@.next));
            }
        }
        (waiter, position)
    }

    /// Takes the place numbered `ticket` out of the line of `name`.
    pub fn withdraw(&mut self, name: &str, ticket: u64)
        requires
            old(self).wf(),
        ensures
            final(self).wf(),
            final(self)@ == old(self)@.withdrawn(name@, ticket),
            final(self)@.next == old(self)@.next,
            !old(self)@.lines.contains_key(name@) ==> final(self)@.lines == old(self)@.lines,
            old(self)@.lines.contains_key(name@) ==> final(self)@.lines == old(self)@.lines.insert(
                name@,
                final(self)@.lines[name@],
            ),
            forall|i: int|
                old(self)@.lines.contains_key(name@) && 0 <= i < old(self)@.lines[name@].len() && (
                #[trigger] old(self)@.lines[name@][i]).ticket == ticket
                    ==> final(self)@.lines[name@] == old(self)@.lines[name@].remove(i),
            old(self)@.lines.contains_key(name@) && (forall|i: int|
                0 <= i < old(self)@.lines[name@].len() ==> (#[trigger] old(
                    self,
                )@.lines[name@][i]).ticket != ticket) ==> final(self)@.lines == old(self)@.lines,
    {
        proof {
            withdrawing_takes_one_out(old(self)@, name@, ticket);
        }
        match self.slots.get(name) {
            Some(slot) => {
                let slot: usize = *slot;
                drop_ticket(&mut self.lines[slot], ticket);
                proof {
                    assert(self@.lines =~= old(self)@.withdrawn(name@, ticket).lines);
                    lemma_withdrawn_wf(old(self)@, name@, ticket);
                    lemma_withdrawn_signals(old(self)@, name@, ticket);
                }
            },
            None => {},
        }
    }

    /// Takes the first place out of the line of `name` and returns who stands
    /// first then.
    pub fn release(&mut self, name: &str) -> (next: Option<Waiter>)
        requires
            old(self).wf(),
            old(self)@.lines.contains_key(name@),
        ensures
            final(self).wf(),
            final(self)@ == old(self)@.released(name@),
            next == final(self)@.front(name@),
            final(self)@.next == old(self)@.next,
            old(self)@.lines[name@].len() > 0 ==> final(self)@.lines == old(self)@.lines.insert(
                name@,
                old(self)@.lines[name@].skip(1),
            ),
            old(self)@.lines[name@].len() == 0 ==> final(self)@.lines == old(self)@.lines,
            next is Some <==> old(self)@.lines[name@].len() > 1,
            next matches Some(place) ==> place == old(self)@.lines[name@][1],
    {
        let slot: usize = match self.slots.get(name) {
            Some(slot) => *slot,
            None => 0,
        };
        let _ = self.lines[slot].pop_front();
        proof {
            assert(self@.lines =~= old(self)@.released(name@).lines);
            lemma_released_wf(old(self)@, name@);
            lemma_released_signals(old(self)@, name@);
            releasing_moves_the_line_on(old(self)@, name@);
        }
        self.first(name)
    }
}

/// Takes the place numbered `ticket` out of a line; the others keep their order.
fn drop_ticket(line: &mut VecDeque<Waiter>, ticket: u64)
    ensures
        final(line)@ == without(old(line)@, ticket),
{
    let ghost start = line@;
    let ghost keep = |w: Waiter| w.ticket != ticket;
    let len: usize = line.len();
    let mut seen: usize = 0;
    assert(start.take(0).filter(keep) =~= Seq::empty()) by {
        reveal(Seq::filter);
    }
    assert(start =~= start.skip(0) + start.take(0).filter(keep));
    while seen < len
        invariant
            seen <= len,
            len == start.len(),
            keep == (|w: Waiter| w.ticket != ticket),
            line@ == start.skip(seen as int) + start.take(seen as int).filter(keep),
        decreases len - seen,
    {
        let ghost before = line@;
        if let Some(waiter) = line.pop_front() {
            proof {
                let n = seen as int;
                assert(waiter == start[n]);
                assert(start.take(n + 1).drop_last() =~= start.take(n));
                assert(start.take(n + 1).last() == waiter);
                assert(before.subrange(1, before.len() as int) =~= start.skip(n + 1)
                    + start.take(n).filter(keep));
                reveal(Seq::filter);
                assert(start.take(n + 1).filter(keep) == if keep(waiter) {
                    start.take(n).filter(keep).push(waiter)
                } else {
                    start.take(n).filter(keep)
                });
            }
            if waiter.ticket != ticket {
                line.push_back(waiter);
            }
            assert(line@ =~= start.skip(seen + 1) + start.take(seen + 1).filter(keep));
        }
        seen = seen + 1;
    }
    assert(start.take(len as int) =~= start);
    assert(line@ =~= start.filter(keep));
}

/// Whoever is left in a line after a place was taken out stood in it before, in
/// the same order.
pub proof fn lemma_without(line: Seq<Waiter>, ticket: u64, next: nat)
    requires
        line_wf(line, next),
    ensures
        line_wf(without(line, ticket), next),
        forall|w: Waiter|
            #![trigger without(line, ticket).contains(w)]
            #![trigger line.contains(w)]
            without(line, ticket).contains(w) <==> line.contains(w) && w.ticket != ticket,
    decreases line.len(),
{
    reveal(Seq::filter);
    let keep = |w: Waiter| w.ticket != ticket;
    let out = without(line, ticket);
    if line.len() > 0 {
        let rest = line.drop_last();
        lemma_without(rest, ticket, next);
        let sub = without(rest, ticket);
        let last = line.last();
        assert(out == if keep(last) {
            sub.push(last)
        } else {
            sub
        });
        assert forall|w: Waiter| out.contains(w) <==> line.contains(w) && w.ticket != ticket by {
            if line.contains(w) && w.ticket != ticket {
                let i = line.index_of(w);
                if i < rest.len() {
                    assert(rest[i] == w);
                    assert(sub.contains(w));
                    let k = sub.index_of(w);
                    assert(out[k] == w);
                } else {
                    assert(out[sub.len() as int] == w);
                }
            }
            if out.contains(w) {
                let k = out.index_of(w);
                if k < sub.len() {
                    assert(sub[k] == w);
                    assert(rest.contains(w));
                    assert(line[rest.index_of(w)] == w);
                } else {
                    assert(line[line.len() - 1] == w);
                }
            }
        }
        assert forall|i: int| 0 <= i < sub.len() implies (#[trigger] sub[i]).ticket
            < last.ticket by {
            let w = sub[i];
            assert(without(rest, ticket).contains(w));
            assert(rest.contains(w));
            let k = rest.index_of(w);
            assert(rest[k] == w);
            assert(line[k] == sub[i]);
        }
    }
}

/// A new arrival keeps every line in order.
pub proof fn lemma_joined_wf(table: TableView, name: Seq<char>, waiter: Waiter)
    requires
        table.wf(),
        waiter.ticket == table.next,
    ensures
        table.joined(name, waiter).wf(),
{
    let after = table.joined(name, waiter);
    assert forall|n: Seq<char>| #[trigger] after.lines.contains_key(n) implies line_wf(
        after.lines[n],
        after.next,
    ) by {
        if n != name {
            assert(table.lines.contains_key(n));
        }
    }
}

/// A withdrawal keeps every line in order.
pub proof fn lemma_withdrawn_wf(table: TableView, name: Seq<char>, ticket: u64)
    requires
        table.wf(),
    ensures
        table.withdrawn(name, ticket).wf(),
{
    if table.lines.contains_key(name) {
        lemma_without(table.line(name), ticket, table.next);
    }
    assert forall|n: Seq<char>| #[trigger]
        table.withdrawn(name, ticket).lines.contains_key(n) implies line_wf(
        table.withdrawn(name, ticket).lines[n],
        table.next,
    ) by {
        assert(table.lines.contains_key(n));
    }
}

/// A release keeps every line in order.
pub proof fn lemma_released_wf(table: TableView, name: Seq<char>)
    requires
        table.wf(),
    ensures
        table.released(name).wf(),
{
    assert forall|n: Seq<char>| #[trigger]
        table.released(name).lines.contains_key(n) implies line_wf(
        table.released(name).lines[n],
        table.next,
    ) by {
        if table.lines.contains_key(n) {
            assert(line_wf(table.lines[n], table.next));
        }
    }
}

/// A new arrival has a number and a signal of its own.
proof fn lemma_joined_signals(table: TableView, name: Seq<char>, waiter: Waiter)
    requires
        table.wf(),
        table.own_signals(),
        waiter.ticket == table.next,
        waiter.signal.number() == waiter.ticket,
    ensures
        table.joined(name, waiter).own_signals(),
{
    let after = table.joined(name, waiter);
    assert forall|n: Seq<char>, i: int|
        #![trigger after.lines[n][i]]
        after.lines.contains_key(n) && 0 <= i < after.lines[n].len() implies {
        ||| after.lines[n][i] == waiter && n == name
        ||| table.lines.contains_key(n) && 0 <= i < table.lines[n].len() && after.lines[n][i]
            == table.lines[n][i] && table.lines[n][i].ticket < table.next
    } by {
        if n == name && i == table.line(name).len() {
        } else {
            assert(table.lines.contains_key(n));
            assert(line_wf(table.lines[n], table.next));
            assert(after.lines[n][i] == table.lines[n][i]);
        }
    }
}

/// A withdrawal leaves every place its own number and signal.
proof fn lemma_withdrawn_signals(table: TableView, name: Seq<char>, ticket: u64)
    requires
        table.wf(),
        table.own_signals(),
    ensures
        table.withdrawn(name, ticket).own_signals(),
{
    let after = table.withdrawn(name, ticket);
    if table.lines.contains_key(name) {
        lemma_without(table.lines[name], ticket, table.next);
    }
    lemma_subset_signals(table, after);
}

/// A release leaves every place its own number and signal.
proof fn lemma_released_signals(table: TableView, name: Seq<char>)
    requires
        table.own_signals(),
    ensures
        table.released(name).own_signals(),
{
    let after = table.released(name);
    assert forall|n: Seq<char>, x: Waiter|
        after.lines.contains_key(n) && #[trigger] after.lines[n].contains(
            x,
        ) implies table.lines.contains_key(n) && table.lines[n].contains(x) by {
        let i = after.lines[n].index_of(x);
        if n == name {
            assert(table.line(name)[i + 1] == x);
        }
    }
    lemma_subset_signals(table, after);
}

/// A table of which every place stood in another under the same name has own
/// signals if the other has.
proof fn lemma_subset_signals(table: TableView, after: TableView)
    requires
        table.own_signals(),
        forall|n: Seq<char>, x: Waiter|
            after.lines.contains_key(n) && #[trigger] after.lines[n].contains(x)
                ==> table.lines.contains_key(n) && table.lines[n].contains(x),
    ensures
        after.own_signals(),
{
    assert forall|n: Seq<char>, i: int|
        #![trigger after.lines[n][i]]
        after.lines.contains_key(n) && 0 <= i < after.lines[n].len() implies exists|k: int|
        0 <= k < table.lines[n].len() && table.lines.contains_key(n) && #[trigger] table.lines[n][k]
            == after.lines[n][i] by {
        let x = after.lines[n][i];
        assert(after.lines[n].contains(x));
        let k = table.lines[n].index_of(x);
        assert(table.lines[n][k] == x);
    }
}

/// Taking out a number that nobody has changes nothing.
pub proof fn lemma_without_absent(line: Seq<Waiter>, ticket: u64)
    requires
        forall|i: int| 0 <= i < line.len() ==> (#[trigger] line[i]).ticket != ticket,
    ensures
        without(line, ticket) == line,
    decreases line.len(),
{
    reveal(Seq::filter);
    if line.len() > 0 {
        lemma_without_absent(line.drop_last(), ticket);
        assert(line.drop_last().push(line.last()) =~= line);
    }
}

/// Taking out a number that stands at `i` takes out that place and no other.
proof fn lemma_without_at(line: Seq<Waiter>, ticket: u64, i: int, next: nat)
    requires
        line_wf(line, next),
        0 <= i < line.len(),
        line[i].ticket == ticket,
    ensures
        without(line, ticket) == line.remove(i),
    decreases line.len(),
{
    reveal(Seq::filter);
    let rest = line.drop_last();
    if i == line.len() - 1 {
        lemma_without_absent(rest, ticket);
        assert(line.remove(i) =~= rest);
    } else {
        lemma_without_at(rest, ticket, i, next);
        assert(rest.remove(i).push(line.last()) =~= line.remove(i));
    }
}

/// Whoever joins stands last in the line of the name, whole, with the signal that
/// it was given; those who stood there before stand before it as they did, and no
/// other line changes.
pub proof fn joining_adds_one_at_the_back(table: TableView, name: Seq<char>, waiter: Waiter)
    ensures
        ({
            let after = table.joined(name, waiter);
            &&& after.next == table.next + 1
            &&& table.lines.contains_key(name) ==> after.lines == table.lines.insert(
                name,
                table.lines[name].push(waiter),
            )
            &&& !table.lines.contains_key(name) ==> after.lines == table.lines.insert(
                name,
                seq![waiter],
            )
        }),
{
    assert(seq![waiter] =~= Seq::empty().push(waiter));
}

/// Whoever stands first is the very place at the head of the line, signal
/// included; there is none just if the line is empty.
pub proof fn front_is_the_head_of_the_line(table: TableView, name: Seq<char>)
    ensures
        table.lines.contains_key(name) && table.lines[name].len() > 0 ==> table.front(name) == Some(
            table.lines[name][0],
        ),
        !(table.lines.contains_key(name) && table.lines[name].len() > 0) ==> table.front(name)
            is None,
        forall|ticket: u64| #[trigger]
            table.is_first(name, ticket) <==> table.lines.contains_key(name)
                && table.lines[name].len() > 0 && table.lines[name][0].ticket == ticket,
{
}

/// The line of a name is the one that the table holds for it, and is empty where
/// there is none.
pub proof fn line_is_the_one_held(table: TableView, name: Seq<char>)
    ensures
        table.lines.contains_key(name) ==> table.line(name) == table.lines[name],
        !table.lines.contains_key(name) ==> table.line(name).len() == 0,
{
}

/// A withdrawal takes the place of that number out of the line of the name, and
/// nothing else.
pub proof fn withdrawing_takes_one_out(table: TableView, name: Seq<char>, ticket: u64)
    requires
        table.wf(),
    ensures
        ({
            let after = table.withdrawn(name, ticket);
            &&& after.next == table.next
            &&& !table.lines.contains_key(name) ==> after.lines == table.lines
            &&& table.lines.contains_key(name) ==> after.lines == table.lines.insert(
                name,
                after.lines[name],
            )
            &&& forall|i: int|
                table.lines.contains_key(name) && 0 <= i < table.lines[name].len() && (
                #[trigger] table.lines[name][i]).ticket == ticket ==> after.lines[name]
                    == table.lines[name].remove(i)
            &&& table.lines.contains_key(name) && (forall|i: int|
                0 <= i < table.lines[name].len() ==> (#[trigger] table.lines[name][i]).ticket
                    != ticket) ==> after.lines == table.lines
        }),
{
    let after = table.withdrawn(name, ticket);
    if table.lines.contains_key(name) {
        let line = table.lines[name];
        assert(after.lines =~= table.lines.insert(name, after.lines[name]));
        assert forall|i: int|
            0 <= i < line.len() && (#[trigger] line[i]).ticket == ticket implies after.lines[name]
            == line.remove(i) by {
            lemma_without_at(line, ticket, i, table.next);
        }
        if forall|i: int| 0 <= i < line.len() ==> (#[trigger] line[i]).ticket != ticket {
            lemma_without_absent(line, ticket);
            assert(after.lines =~= table.lines);
        }
    }
}

/// A release takes the head out of the line of the name, and nothing else: the
/// second place, signal included, is the head then.
pub proof fn releasing_moves_the_line_on(table: TableView, name: Seq<char>)
    requires
        table.lines.contains_key(name),
    ensures
        ({
            let line = table.lines[name];
            let after = table.released(name);
            &&& after.next == table.next
            &&& line.len() > 0 ==> after.lines == table.lines.insert(name, line.skip(1))
            &&& line.len() == 0 ==> after.lines == table.lines
            &&& after.front(name) is Some <==> line.len() > 1
            &&& line.len() > 1 ==> after.front(name) == Some(line[1])
        }),
{
    let line = table.lines[name];
    if line.len() > 0 {
        assert(line.drop_first() =~= line.skip(1));
    } else {
        assert(table.released(name).lines =~= table.lines);
    }
}

/// The table after `n` releases under `name`.
pub open spec fn released_times(table: TableView, name: Seq<char>, n: nat) -> TableView
    decreases n,
{
    if n == 0 {
        table
    } else {
        released_times(table, name, (n - 1) as nat).released(name)
    }
}

/// Places are served in the order in which they joined: after `n` releases the
/// place that joined behind `n` others is first, signal included.
pub proof fn places_are_served_in_order(table: TableView, name: Seq<char>, n: nat)
    requires
        table.lines.contains_key(name),
        n < table.lines[name].len(),
    ensures
        released_times(table, name, n).front(name) == Some(table.lines[name][n as int]),
        released_times(table, name, n).lines[name] == table.lines[name].skip(n as int),
        released_times(table, name, n).lines.contains_key(name),
    decreases n,
{
    let line = table.lines[name];
    if n == 0 {
        assert(line.skip(0) =~= line);
    } else {
        let m = (n - 1) as nat;
        places_are_served_in_order(table, name, m);
        let before = released_times(table, name, m);
        releasing_moves_the_line_on(before, name);
        assert(before.lines[name][1] == line[n as int]);
        assert(before.released(name).lines[name] =~= line.skip(n as int));
    }
}

/// A place that joins behind `n` others is handed to whoever releases the `n`th of
/// them, whole: the signal that is given then is the one that was handed out when
/// it joined.
pub proof fn a_place_is_woken_by_its_own_signal(
    table: TableView,
    name: Seq<char>,
    waiter: Waiter,
    n: nat,
)
    requires
        n == if table.lines.contains_key(name) {
            table.lines[name].len()
        } else {
            0
        },
    ensures
        released_times(table.joined(name, waiter), name, n).front(name) == Some(waiter),
{
    let after = table.joined(name, waiter);
    joining_adds_one_at_the_back(table, name, waiter);
    assert(after.lines[name].last() == after.lines[name][n as int]);
    places_are_served_in_order(after, name, n);
}

/// The numbers in every line of a table ascend: nobody stands before somebody who
/// came earlier.
pub proof fn table_lines_are_in_order(table: LockTable, name: Seq<char>)
    requires
        table.wf(),
    ensures
        table@.lines.contains_key(name) ==> forall|i: int, j: int|
            0 <= i < j < table@.lines[name].len() ==> table@.lines[name][i].ticket
                < table@.lines[name][j].ticket,
        table@.lines.contains_key(name) ==> forall|i: int|
            0 <= i < table@.lines[name].len() ==> (#[trigger] table@.lines[name][i]).ticket
                < table@.next,
{
    if table@.lines.contains_key(name) {
        assert(line_wf(table@.lines[name], table@.next));
    }
}

/// No two places of a table share a signal, in one line or in two: to wake one
/// place is to wake the call of that place and no other.
pub proof fn signals_are_apart(table: LockTable, a: Seq<char>, i: int, b: Seq<char>, j: int)
    requires
        table.wf(),
        table@.lines.contains_key(a),
        0 <= i < table@.lines[a].len(),
        table@.lines.contains_key(b),
        0 <= j < table@.lines[b].len(),
        a != b || i != j,
    ensures
        table@.lines[a][i].signal != table@.lines[b][j].signal,
        table@.lines[a][i].signal.number() != table@.lines[b][j].signal.number(),
        table@.lines[a][i].ticket != table@.lines[b][j].ticket,
{
    assert(line_wf(table@.lines[a], table@.next));
    assert(line_wf(table@.lines[b], table@.next));
}

} // verus!
