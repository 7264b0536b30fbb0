use cross_locks::{late_report, Arrival, DefaultLock, LockError, LockGuard, LockTable};
use futures::channel::oneshot;
use futures::future::join_all;
use std::sync::Arc;
use std::time::{Duration, Instant};
use tokio::runtime::{Builder, Runtime};
use tokio::sync::Mutex;
use tokio::time::sleep;

type Shared = Arc<Mutex<LockTable>>;
/// Tells the holder to let go when it is dropped.
#[derive(Debug)]
struct Guard {
    inner: LockGuard<'static, DefaultLock>,
}

impl Drop for Guard {
    fn drop(&mut self) {
        if let Some(channel) = self.inner.release() {
            let _ = channel.send(());
        }
    }
}

fn shared() -> Shared {
    Arc::new(Mutex::new(LockTable::new()))
}

fn multi_thread() -> Runtime {
    Builder::new_multi_thread()
        .worker_threads(4)
        .enable_time()
        .build()
        .unwrap()
}

fn current_thread() -> Runtime {
    Builder::new_current_thread().enable_time().build().unwrap()
}

/// Holds the lock of `name` from the report on `started` until `release`
/// answers.
async fn hold(
    table: Shared,
    name: &str,
    timeout: Duration,
    started: &mut Option<oneshot::Sender<Result<(), LockError>>>,
    release: oneshot::Receiver<()>,
) -> Result<(), LockError> {
    let arrival = {
        let mut lines = table.lock().await;
        assert!(lines.has_room());
        DefaultLock::default().with_lock(&mut lines, name, timeout)
    };
    let inside = match arrival {
        Arrival::Enter(call) => call,
        Arrival::Wait(call) => {
            let place = call.place();
            let wait = tokio::time::timeout(call.patience(), place.signal.notified());
            let woken = wait.await.is_ok();
            match call.resume(woken) {
                Ok(call) => call,
                Err(late) => {
                    let (error, next) = late.withdraw(&mut *table.lock().await);
                    if let Some(next) = next {
                        next.signal.notify_one();
                    }
                    return Err(error);
                }
            }
        }
    };
    if let Some(tx) = started.take() {
        let _ = tx.send(Ok(()));
    }
    let _ = release.await;
    let end = {
        let mut lines = table.lock().await;
        assert!(lines.knows(name));
        inside.finish::<(), ()>(&mut lines, Ok(()))
    };
    if let Some(next) = end.next {
        next.signal.notify_one();
    }
    Ok(())
}

async fn lock_guard(
    table: Shared,
    name: &'static str,
    timeout: Duration,
) -> Result<Guard, LockError> {
    let (started_tx, started_rx) = oneshot::channel();
    let (release_tx, release_rx) = oneshot::channel();
    tokio::spawn(async move {
        let mut started = Some(started_tx);
        let result = hold(table, name, timeout, &mut started, release_rx).await;
        if let (Some(report), Some(tx)) = (late_report(result), started) {
            let _ = tx.send(report);
        }
    });
    let inner = LockGuard::started(started_rx.await.ok(), timeout, release_tx)?;
    Ok(Guard { inner })
}

#[test]
fn raii_fifo_is_exclusive() {
    multi_thread().block_on(async {
        let table = shared();
        let spans = Arc::new(Mutex::new(Vec::<(u128, u128)>::new()));

        let mut jobs = Vec::new();
        for _ in 0..5 {
            let t = table.clone();
            let s = spans.clone();
            jobs.push(tokio::spawn(async move {
                let _g = lock_guard(t, "raii-fifo", Duration::from_secs(1)).await.unwrap();
                let st = Instant::now();
                sleep(Duration::from_millis(10)).await;
                let et = Instant::now();
                s.lock()
                    .await
                    .push((st.elapsed().as_micros(), et.elapsed().as_micros()));
            }));
        }
        join_all(jobs).await;
        let v = spans.lock().await.clone();
        for w in v.windows(2) {
            assert!(w[0].1 <= w[1].0, "critical-sections overlapped");
        }
        assert_eq!(v.len(), 5);
    });
}

#[test]
fn raii_try_lock_semantics() {
    current_thread().block_on(async {
        let table = shared();

        let t2 = table.clone();
        let _hold = tokio::spawn(async move {
            let _g = lock_guard(t2, "raii-try", Duration::from_secs(1)).await.unwrap();
            sleep(Duration::from_millis(50)).await;
        });

        sleep(Duration::from_millis(5)).await;

        let err = lock_guard(table, "raii-try", Duration::ZERO).await.unwrap_err();
        assert_eq!(err, LockError::Timeout(Duration::ZERO));
    });
}

#[test]
fn raii_guard_drop_releases() {
    current_thread().block_on(async {
        let table = shared();
        {
            let _g = lock_guard(table.clone(), "raii-drop", Duration::from_secs(1))
                .await
                .unwrap();
        }
        let res = lock_guard(table, "raii-drop", Duration::ZERO).await;
        assert!(res.is_ok(), "second acquisition failed: {res:?}");
    });
}

#[test]
fn releasing_hands_out_the_channel_once() {
    let (tx, mut rx) = oneshot::channel::<()>();
    let mut guard: LockGuard<'static, DefaultLock> =
        LockGuard::started(Some(Ok(())), Duration::ZERO, tx).unwrap();
    assert_eq!(rx.try_recv(), Ok(None));
    let channel = guard.release().unwrap();
    assert_eq!(channel.send(()), Ok(()));
    assert_eq!(rx.try_recv(), Ok(Some(())));
    assert!(guard.release().is_none());
}

#[test]
fn guards_of_a_name_are_not_alive_together() {
    multi_thread().block_on(async {
        let table = shared();
        let alive = Arc::new(Mutex::new(0u32));
        let mut jobs = Vec::new();
        for _ in 0..8 {
            let t = table.clone();
            let a = alive.clone();
            jobs.push(tokio::spawn(async move {
                let guard = lock_guard(t, "one", Duration::from_secs(5)).await.unwrap();
                *a.lock().await += 1;
                sleep(Duration::from_millis(2)).await;
                assert_eq!(*a.lock().await, 1);
                *a.lock().await -= 1;
                drop(guard);
            }));
        }
        for job in jobs {
            job.await.unwrap();
        }
    });
}

#[test]
fn refused_and_lost_requests_give_no_guard() {
    let timeout = Duration::from_millis(7);
    let (tx, _rx) = oneshot::channel::<()>();
    let refused: Result<LockGuard<'static, DefaultLock>, LockError> =
        LockGuard::started(Some(Err(LockError::Js(String::from("no")))), timeout, tx);
    assert_eq!(refused.unwrap_err(), LockError::Js(String::from("no")));

    let (tx, _rx) = oneshot::channel::<()>();
    let lost: Result<LockGuard<'static, DefaultLock>, LockError> =
        LockGuard::started(None, timeout, tx);
    assert_eq!(lost.unwrap_err(), LockError::Timeout(timeout));
}

#[test]
fn only_failures_are_reported_late() {
    assert_eq!(late_report(Ok(())), None);
    assert_eq!(
        late_report(Err(LockError::Timeout(Duration::ZERO))),
        Some(Err(LockError::Timeout(Duration::ZERO)))
    );
}
