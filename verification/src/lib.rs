//! Named, first-come-first-served, re-entrant locks: the decisions behind them,
//! with their contracts.
//!
//! Nothing here waits. Each module holds what one kind of lock decides between
//! two waits, as functions from plain values to plain values; the runtime that
//! awaits, sleeps and spawns calls them in turn.

pub mod error;
pub mod fairness;
pub mod fifo;
pub mod guard;
pub mod holders;
pub mod names;
pub mod navigator;
pub mod noop;
pub mod reentry;
pub mod signal;
pub mod table;
pub mod timing;

pub use error::{timeout_message, LockError};
pub use fifo::{Arrival, DefaultLock, Entered, FifoLock, Finished, Overdue, Queued, Reply};
pub use guard::{late_report, LockGuard};
pub use names::NameSet;
pub use navigator::{wait_mode, NavigatorLock, Outcome, WaitMode, MAX_DELAY};
pub use noop::NoopLock;
pub use reentry::{end_section, reenter, start_section, Entry};
pub use signal::Signal;
pub use table::{LockTable, Waiter};
pub use timing::{forever, FOREVER_NANOS, NANOS_PER_MILLI, NANOS_PER_SEC};
