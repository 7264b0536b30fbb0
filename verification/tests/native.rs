use cross_locks::{Arrival, DefaultLock, LockError, LockTable, Reply};
use futures::future::join_all;
use std::future::Future;
use std::sync::Arc;
use std::time::{Duration, Instant};
use tokio::runtime::{Builder, Runtime};
use tokio::sync::Mutex;
use tokio::time::sleep;

type Shared = Arc<Mutex<LockTable>>;

fn shared() -> Shared {
    Arc::new(Mutex::new(LockTable::new()))
}

fn multi_thread() -> Runtime {
    Builder::new_multi_thread()
        .worker_threads(4)
        .enable_time()
        .build()
        .unwrap()
}

fn current_thread() -> Runtime {
    Builder::new_current_thread().enable_time().build().unwrap()
}

/// Runs one call to its end on the Tokio runtime. The critical section is a task
/// of its own, so that a panic in it comes back as a value.
async fn with_lock<R, F, Fut>(
    table: Shared,
    name: &str,
    timeout: Duration,
    op: F,
) -> Result<R, LockError>
where
    F: FnOnce() -> Fut,
    Fut: Future<Output = R> + Send + 'static,
    R: Send + 'static,
{
    let lock = DefaultLock::default();
    let arrival = {
        let mut lines = table.lock().await;
        assert!(lines.has_room());
        lock.with_lock(&mut lines, name, timeout)
    };
    let inside = match arrival {
        Arrival::Enter(call) => call,
        Arrival::Wait(call) => {
            let place = call.place();
            let wait = tokio::time::timeout(call.patience(), place.signal.notified());
            let woken = wait.await.is_ok();
            match call.resume(woken) {
                Ok(call) => call,
                Err(late) => {
                    let (error, next) = late.withdraw(&mut *table.lock().await);
                    if let Some(next) = next {
                        next.signal.notify_one();
                    }
                    return Err(error);
                }
            }
        }
    };
    let outcome = tokio::spawn(op()).await;
    let end = {
        let mut lines = table.lock().await;
        assert!(lines.knows(name));
        inside.finish(&mut lines, outcome)
    };
    if let Some(next) = end.next {
        next.signal.notify_one();
    }
    match end.reply {
        Reply::Return(result) => result,
        Reply::Unwind(_) => panic!("the critical section panicked"),
    }
}

#[test]
fn fifo_is_exclusive() {
    multi_thread().block_on(async {
        let table = shared();
        let spans = Arc::new(Mutex::new(Vec::<(u128, u128)>::new()));

        let mut jobs = Vec::new();
        for _ in 0..5 {
            let t = table.clone();
            let s = spans.clone();
            jobs.push(tokio::spawn(async move {
                with_lock(t, "cs", Duration::from_secs(1), move || async move {
                    let st = Instant::now();
                    sleep(Duration::from_millis(10)).await;
                    let et = Instant::now();
                    s.lock()
                        .await
                        .push((st.elapsed().as_micros(), et.elapsed().as_micros()));
                })
                .await
                .unwrap();
            }));
        }
        join_all(jobs).await;
        let v = spans.lock().await.clone();
        for w in v.windows(2) {
            assert!(w[0].1 <= w[1].0, "critical sections overlapped");
        }
        assert_eq!(v.len(), 5);
    });
}

#[test]
fn sections_do_not_overlap_and_run_in_order() {
    current_thread().block_on(async {
        let table = shared();
        let origin = Instant::now();
        let spans = Arc::new(Mutex::new(Vec::<(usize, Duration, Duration)>::new()));

        let mut jobs = Vec::new();
        for i in 0..5 {
            let t = table.clone();
            let s = spans.clone();
            jobs.push(with_lock(t, "line", Duration::from_secs(5), move || async move {
                let st = origin.elapsed();
                sleep(Duration::from_millis(5)).await;
                let et = origin.elapsed();
                s.lock().await.push((i, st, et));
            }));
        }
        for result in join_all(jobs).await {
            assert_eq!(result, Ok(()));
        }
        let v = spans.lock().await.clone();
        let order: Vec<usize> = v.iter().map(|span| span.0).collect();
        assert_eq!(order, vec![0, 1, 2, 3, 4]);
        for w in v.windows(2) {
            assert!(w[0].2 <= w[1].1, "critical sections overlapped");
        }
    });
}

#[test]
fn try_lock_semantics() {
    current_thread().block_on(async {
        let table = shared();
        with_lock(table.clone(), "demo", Duration::ZERO, || async {})
            .await
            .unwrap();

        let t2 = table.clone();
        let _guard = tokio::spawn(async move {
            with_lock(t2, "demo", Duration::from_secs(1), || async {
                sleep(Duration::from_millis(50)).await;
            })
            .await
            .unwrap();
        });

        sleep(Duration::from_millis(5)).await;

        let err = with_lock(table, "demo", Duration::ZERO, || async {})
            .await
            .unwrap_err();
        assert_eq!(err, LockError::Timeout(Duration::ZERO));
    });
}

#[test]
fn timeout_propagates() {
    current_thread().block_on(async {
        let table = shared();
        let holder = table.clone();
        let held = tokio::spawn(async move {
            with_lock(holder, "x", Duration::from_secs(1), || async {
                sleep(Duration::from_millis(30)).await;
            })
            .await
        });
        sleep(Duration::from_millis(5)).await;

        let err = with_lock(table, "x", Duration::from_millis(1), || async {})
            .await
            .unwrap_err();
        assert!(matches!(err, LockError::Timeout(_)));
        assert_eq!(err, LockError::Timeout(Duration::from_millis(1)));
        assert_eq!(held.await.unwrap(), Ok(()));
    });
}

#[test]
fn lock_released_after_panic() {
    multi_thread().block_on(async {
        let table = shared();
        {
            let t = table.clone();
            tokio::spawn(async move {
                let _ = with_lock(t, "boom", Duration::from_secs(1), || async {
                    sleep(Duration::from_millis(5)).await;
                    panic!("intentional!");
                })
                .await;
            });
        }

        sleep(Duration::from_millis(10)).await;

        let res = with_lock(table, "boom", Duration::from_millis(20), || async {}).await;

        assert!(res.is_ok(), "lock remained poisoned: {res:?}");
    });
}

#[test]
fn arc_inner_reentrancy() {
    multi_thread().block_on(async {
        let table = shared();
        let counter = Arc::new(Mutex::new(0usize));

        let handles: Vec<_> = (0..50)
            .map(|_| {
                let t = table.clone();
                let c = counter.clone();
                tokio::spawn(async move {
                    with_lock(t, "demo", Duration::from_secs(1), move || async move {
                        let mut n = c.lock().await;
                        *n += 1;
                        *n
                    })
                    .await
                    .unwrap()
                })
            })
            .collect();
        for handle in handles {
            handle.await.expect("task panicked");
        }

        assert_eq!(*counter.lock().await, 50);
    });
}

#[test]
fn distinct_names_overlap() {
    current_thread().block_on(async {
        let table = shared();
        let origin = Instant::now();
        let a = with_lock(table.clone(), "A", Duration::from_secs(1), move || async move {
            sleep(Duration::from_millis(30)).await;
            origin.elapsed()
        });
        let b = with_lock(table, "B", Duration::from_secs(1), move || async move {
            sleep(Duration::from_millis(5)).await;
            origin.elapsed()
        });
        let ends = futures::future::join(a, b).await;
        assert!(ends.1.unwrap() < ends.0.unwrap());
    });
}
