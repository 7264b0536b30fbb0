use cross_locks::{
    end_section, forever, reenter, start_section, timeout_message, wait_mode, Arrival, DefaultLock,
    Entered, Entry, FifoLock, LockError, LockTable, NameSet, NavigatorLock, NoopLock, Outcome,
    Queued, Reply, WaitMode, FOREVER_NANOS, MAX_DELAY,
};
use futures::future::FutureExt;
use std::time::Duration;

fn entered(arrival: Arrival) -> Entered {
    match arrival {
        Arrival::Enter(call) => call,
        Arrival::Wait(_) => panic!("the call has to wait"),
    }
}

fn queued(arrival: Arrival) -> Queued {
    match arrival {
        Arrival::Wait(call) => call,
        Arrival::Enter(_) => panic!("the call enters at once"),
    }
}

fn signalled(call: &Queued) -> bool {
    call.place().signal.notified().now_or_never().is_some()
}

/// Ends a section well; returns the number of the place that was woken.
fn finish(table: &mut LockTable, call: Entered) -> Option<u64> {
    let end = call.finish::<u8, ()>(table, Ok(1));
    assert!(matches!(end.reply, Reply::Return(Ok(1))));
    end.next.map(|next| {
        next.signal.notify_one();
        next.ticket
    })
}

const SECOND: Duration = Duration::from_secs(1);

#[test]
fn the_first_enters_and_the_others_wait() {
    let lock = FifoLock::default();
    let mut table = LockTable::new();
    assert!(!table.knows("cs"));
    let first = entered(lock.with_lock(&mut table, "cs", Duration::ZERO));
    assert!(table.knows("cs"));
    let second = queued(lock.with_lock(&mut table, "cs", SECOND));
    let third = queued(lock.with_lock(&mut table, "cs", Duration::from_millis(3)));
    assert_eq!(second.place().ticket, 1);
    assert_eq!(third.place().ticket, 2);
    assert_eq!(second.patience(), SECOND);
    assert_eq!(third.patience(), Duration::from_millis(3));
    assert!(!signalled(&second));

    assert_eq!(finish(&mut table, first), Some(1));
    assert!(signalled(&second));
    assert!(!signalled(&third));
    let second = second.resume(true).ok().unwrap();
    assert_eq!(finish(&mut table, second), Some(2));
    assert!(signalled(&third));
    let third = third.resume(true).ok().unwrap();
    assert_eq!(finish(&mut table, third), None);

    entered(lock.with_lock(&mut table, "cs", Duration::ZERO));
}

#[test]
fn a_signal_given_early_is_kept() {
    let lock = DefaultLock::default();
    let mut table = LockTable::new();
    let first = entered(lock.with_lock(&mut table, "cs", SECOND));
    let second = queued(lock.with_lock(&mut table, "cs", SECOND));
    assert_eq!(finish(&mut table, first), Some(second.place().ticket));
    assert!(signalled(&second));
    assert!(!signalled(&second));
}

#[test]
fn names_have_lines_of_their_own() {
    let lock = FifoLock::default();
    let mut table = LockTable::new();
    let a = entered(lock.with_lock(&mut table, "a", SECOND));
    let b = entered(lock.with_lock(&mut table, "b", SECOND));
    let late = queued(lock.with_lock(&mut table, "b", SECOND));
    assert_eq!(finish(&mut table, a), None);
    assert!(!signalled(&late));
    assert_eq!(finish(&mut table, b), Some(late.place().ticket));
}

#[test]
fn an_overdue_call_leaves_the_line() {
    let lock = FifoLock::default();
    let mut table = LockTable::new();
    let first = entered(lock.with_lock(&mut table, "cs", SECOND));
    let second = queued(lock.with_lock(&mut table, "cs", Duration::from_millis(1)));
    let third = queued(lock.with_lock(&mut table, "cs", SECOND));
    let late = second.resume(false).err().unwrap();
    let (error, next) = late.withdraw(&mut table);
    assert_eq!(error, LockError::Timeout(Duration::from_millis(1)));
    assert!(next.is_none());
    assert_eq!(finish(&mut table, first), Some(third.place().ticket));
}

#[test]
fn an_overdue_call_passes_its_turn_on() {
    let lock = FifoLock::default();
    let mut table = LockTable::new();
    let first = entered(lock.with_lock(&mut table, "cs", SECOND));
    let second = queued(lock.with_lock(&mut table, "cs", Duration::from_millis(1)));
    let third = queued(lock.with_lock(&mut table, "cs", Duration::MAX));
    assert_eq!(finish(&mut table, first), Some(second.place().ticket));
    let late = second.resume(false).err().unwrap();
    let (error, next) = late.withdraw(&mut table);
    assert_eq!(error, LockError::Timeout(Duration::from_millis(1)));
    let next = next.unwrap();
    assert_eq!(next.ticket, third.place().ticket);
    next.signal.notify_one();
    assert!(signalled(&third));
    let third = third.resume(true).ok().unwrap();
    assert_eq!(finish(&mut table, third), None);
    entered(lock.with_lock(&mut table, "cs", Duration::ZERO));
}

#[test]
fn the_last_overdue_call_leaves_the_name_free() {
    let lock = FifoLock::default();
    let mut table = LockTable::new();
    let first = entered(lock.with_lock(&mut table, "cs", SECOND));
    let second = queued(lock.with_lock(&mut table, "cs", SECOND));
    assert_eq!(finish(&mut table, first), Some(second.place().ticket));
    let (error, next) = second.resume(false).err().unwrap().withdraw(&mut table);
    assert_eq!(error, LockError::Timeout(SECOND));
    assert!(next.is_none());
    entered(lock.with_lock(&mut table, "cs", Duration::ZERO));
}

#[test]
fn a_panic_moves_the_line_on() {
    let lock = FifoLock::default();
    let mut table = LockTable::new();
    let first = entered(lock.with_lock(&mut table, "boom", SECOND));
    let second = queued(lock.with_lock(&mut table, "boom", SECOND));
    let end = first.finish::<u8, &str>(&mut table, Err("intentional!"));
    assert!(matches!(end.reply, Reply::Unwind("intentional!")));
    let next = end.next.unwrap();
    assert_eq!(next.ticket, second.place().ticket);
    next.signal.notify_one();
    assert!(signalled(&second));
}

#[test]
fn a_new_table_has_room() {
    assert!(LockTable::new().has_room());
}

#[test]
fn handles_of_one_place_share_the_signal() {
    let mut table = LockTable::new();
    let place = table.join("cs").0;
    let copy = place.duplicate();
    assert_eq!(copy.ticket, place.ticket);
    copy.signal.notify_one();
    assert!(place.signal.notified().now_or_never().is_some());
}

#[test]
fn table_operations() {
    let mut table = LockTable::new();
    let (a, before_a) = table.join("n");
    let (b, before_b) = table.join("n");
    let (c, before_c) = table.join("n");
    assert_eq!((before_a, before_b, before_c), (0, 1, 2));
    assert_eq!((a.ticket, b.ticket, c.ticket), (0, 1, 2));
    table.withdraw("n", 1);
    table.withdraw("n", 9);
    table.withdraw("unknown", 0);
    assert!(!table.knows("unknown"));
    assert_eq!(table.first("n").unwrap().ticket, 0);
    assert!(table.first("unknown").is_none());
    assert_eq!(table.release("n").unwrap().ticket, 2);
    assert_eq!(table.first("n").unwrap().ticket, 2);
    assert!(table.release("n").is_none());
    assert!(table.release("n").is_none());
    assert!(table.knows("n"));
    assert_eq!(table.join("n").1, 0);
}

#[test]
fn passthrough_never_refuses() {
    let lock = NoopLock::default();
    assert_eq!(lock.with_lock("x", Duration::ZERO, || 42), Ok(42));
    assert_eq!(
        lock.with_lock("x", SECOND, || lock.with_lock("x", Duration::ZERO, || 7)),
        Ok(Ok(7))
    );
}

/// A task with the names that it holds.
struct Task<'a> {
    table: &'a mut LockTable,
    held: NameSet,
    taken: Vec<String>,
}

impl Task<'_> {
    /// Runs `op` as a re-entrant call; fails if the lock is not free.
    fn with_reentrant<R>(&mut self, name: &str, op: impl FnOnce(&mut Self) -> R) -> R {
        match reenter(&self.held, name) {
            Entry::Nested => op(self),
            Entry::First { timeout } => {
                assert_eq!(timeout, Duration::MAX);
                let call = entered(FifoLock::default().with_lock(self.table, name, timeout));
                self.taken.push(String::from(name));
                start_section(&mut self.held, name);
                let out = op(self);
                end_section(&mut self.held, name);
                assert_eq!(finish(self.table, call), None);
                out
            }
        }
    }

    /// Runs `op` as a plain call without patience.
    fn try_lock<R>(&mut self, name: &str, op: impl FnOnce() -> R) -> Result<R, LockError> {
        match FifoLock::default().with_lock(self.table, name, Duration::ZERO) {
            Arrival::Enter(call) => {
                let out = op();
                assert_eq!(finish(self.table, call), None);
                Ok(out)
            }
            Arrival::Wait(call) => {
                let (error, next) = call.resume(false).err().unwrap().withdraw(self.table);
                assert!(next.is_none());
                Err(error)
            }
        }
    }
}

fn task(table: &mut LockTable) -> Task<'_> {
    Task { table, held: NameSet::new(), taken: Vec::new() }
}

#[test]
fn reentrant_lock() {
    let mut table = LockTable::new();
    let mut task = task(&mut table);
    let res = task.with_reentrant("reentrant", |task| {
        task.with_reentrant("reentrant", |task| task.with_reentrant("reentrant", |_| 42))
    });
    assert_eq!(res, 42);
    assert_eq!(task.taken, vec!["reentrant"]);
    task.with_reentrant("reentrant", |_| ());
    assert_eq!(task.taken, vec!["reentrant", "reentrant"]);
}

#[test]
fn reentry_is_by_name() {
    let mut table = LockTable::new();
    let mut task = task(&mut table);
    let res = task.with_reentrant("a", |task| {
        task.with_reentrant("b", |task| task.try_lock("b", || 1))
    });
    assert_eq!(res, Err(LockError::Timeout(Duration::ZERO)));
    assert_eq!(task.taken, vec!["a", "b"]);
    assert_eq!(task.try_lock("b", || 1), Ok(1));
}

#[test]
fn sections_change_only_their_name() {
    let mut held = NameSet::new();
    assert!(matches!(reenter(&held, "a"), Entry::First { timeout: Duration::MAX }));
    start_section(&mut held, "a");
    assert!(matches!(reenter(&held, "a"), Entry::Nested));
    assert!(matches!(reenter(&held, "b"), Entry::First { timeout: Duration::MAX }));
    start_section(&mut held, "b");
    end_section(&mut held, "a");
    assert!(matches!(reenter(&held, "a"), Entry::First { .. }));
    assert!(matches!(reenter(&held, "b"), Entry::Nested));
}

#[test]
fn forever_is_the_longest_duration() {
    assert_eq!(forever(), Duration::MAX);
    assert_eq!(forever().as_nanos(), FOREVER_NANOS);
}

#[test]
fn wait_modes() {
    assert_eq!(wait_mode(0), WaitMode::IfAvailable);
    assert_eq!(wait_mode(FOREVER_NANOS), WaitMode::Forever);
    assert_eq!(wait_mode(1), WaitMode::AbortAfter(0));
    assert_eq!(wait_mode(1_999_999), WaitMode::AbortAfter(1));
    assert_eq!(wait_mode(SECOND.as_nanos()), WaitMode::AbortAfter(1000));
    assert_eq!(MAX_DELAY, i32::MAX);
    let longest = Duration::from_millis(2_147_483_647).as_nanos();
    assert_eq!(wait_mode(longest), WaitMode::AbortAfter(i32::MAX));
    assert_eq!(wait_mode(longest - 1), WaitMode::AbortAfter(i32::MAX - 1));
    assert_eq!(wait_mode(longest + 1_000_000), WaitMode::AbortAfter(i32::MAX));
    assert_eq!(wait_mode(FOREVER_NANOS - 1), WaitMode::AbortAfter(i32::MAX));
}

#[test]
fn free_trylock_succeeds() {
    let lock = NavigatorLock::default();
    let mut active = NameSet::new();
    assert_eq!(
        lock.with_lock(&active, "free", Duration::ZERO),
        Ok(WaitMode::IfAvailable)
    );
    assert_eq!(lock.answered(&mut active, "free", Duration::ZERO, true), Ok(()));
    assert!(active.contains("free"));
    lock.settled(&mut active, "free");
    assert!(!active.contains("free"));
    let outcome = lock.received(Some(Outcome::Sent(Ok(5))));
    assert_eq!(lock.reply(outcome, Duration::ZERO), Ok(5));
}

#[test]
fn trylock_times_out_when_busy() {
    let lock = NavigatorLock::default();
    let mut active = NameSet::new();
    assert_eq!(
        lock.with_lock(&active, "busy", SECOND),
        Ok(WaitMode::AbortAfter(1000))
    );
    assert_eq!(lock.answered(&mut active, "busy", SECOND, true), Ok(()));
    assert_eq!(
        lock.with_lock(&active, "busy", Duration::ZERO),
        Err(LockError::Timeout(Duration::ZERO))
    );
    assert_eq!(
        lock.with_lock(&active, "other", Duration::ZERO),
        Ok(WaitMode::IfAvailable)
    );
    assert_eq!(
        lock.with_lock(&active, "busy", Duration::MAX),
        Ok(WaitMode::Forever)
    );
    lock.settled(&mut active, "busy");
    assert_eq!(
        lock.with_lock(&active, "busy", Duration::ZERO),
        Ok(WaitMode::IfAvailable)
    );
}

#[test]
fn trylock_held_elsewhere_is_refused() {
    let lock = NavigatorLock::default();
    let mut active = NameSet::new();
    assert_eq!(
        lock.answered(&mut active, "busy", Duration::ZERO, false),
        Err(LockError::Timeout(Duration::ZERO))
    );
    assert!(!active.contains("busy"));
    assert_eq!(
        lock.reply::<u8>(Outcome::Sent(Err(LockError::Timeout(Duration::ZERO))), Duration::ZERO),
        Err(LockError::Timeout(Duration::ZERO))
    );
}

#[test]
fn a_finite_wait_that_runs_out_is_a_timeout() {
    let lock = NavigatorLock::default();
    let timeout = Duration::from_millis(20);
    let outcome: Outcome<u8> = lock.rejected(true, "AbortError");
    assert_eq!(outcome, Outcome::Aborted);
    assert_eq!(
        lock.reply(lock.received(Some(outcome)), timeout),
        Err(LockError::Timeout(timeout))
    );
}

#[test]
fn other_rejections_keep_their_reason() {
    let lock = NavigatorLock::default();
    let outcome: Outcome<u8> = lock.rejected(false, "SecurityError");
    assert_eq!(
        lock.reply(outcome, SECOND),
        Err(LockError::Js(String::from("SecurityError")))
    );
}

#[test]
fn a_dropped_callback_is_a_rejection() {
    let lock = NavigatorLock::default();
    let outcome: Outcome<u8> = lock.received(None);
    assert_eq!(
        lock.reply(outcome, SECOND),
        Err(LockError::Js(String::from("oneshot cancelled")))
    );
}

#[test]
fn kept_locks_answer_for_their_section() {
    let lock = NavigatorLock::default();
    assert_eq!(lock.kept_reply(Ok(()), Some(5), SECOND), Ok(5));
    assert_eq!(
        lock.kept_reply::<u8>(Ok(()), None, SECOND),
        Err(LockError::Js(String::from("oneshot cancelled")))
    );
    assert_eq!(
        lock.kept_reply(Err(LockError::Timeout(SECOND)), Some(5), SECOND),
        Err(LockError::Timeout(SECOND))
    );
    assert_eq!(
        lock.kept_reply::<u8>(Err(LockError::Js(String::from("no"))), None, SECOND),
        Err(LockError::Js(String::from("no")))
    );
}

#[test]
fn names_of_a_page_do_not_wait_for_each_other() {
    let lock = NavigatorLock::default();
    let mut active = NameSet::new();
    assert_eq!(lock.answered(&mut active, "A", SECOND, true), Ok(()));
    assert_eq!(lock.with_lock(&active, "B", SECOND), Ok(WaitMode::AbortAfter(1000)));
    assert_eq!(lock.answered(&mut active, "B", SECOND, true), Ok(()));
    lock.settled(&mut active, "B");
    assert!(active.contains("A"));
    assert!(!active.contains("B"));
}

#[test]
fn name_sets() {
    let mut set = NameSet::new();
    set.insert("a");
    set.insert("a");
    assert!(set.contains("a"));
    assert!(!set.contains("b"));
    set.remove("b");
    set.remove("a");
    assert!(!set.contains("a"));
}

#[test]
fn error_messages() {
    assert_eq!(
        LockError::Timeout(SECOND).message(),
        "acquiring lock timed-out after 1s"
    );
    assert_eq!(
        LockError::Timeout(Duration::from_millis(20)).message(),
        "acquiring lock timed-out after 20ms"
    );
    assert_eq!(
        LockError::Js(String::from("oneshot cancelled")).message(),
        "Navigator LockManager rejected: oneshot cancelled"
    );
    assert_eq!(timeout_message("1ns"), "acquiring lock timed-out after 1ns");
}
