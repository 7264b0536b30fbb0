//! The errors that a lock answers with, and the text they are shown as.

use std::time::Duration;
use vstd::prelude::*;
use vstd::string::StringExecFns;

verus! {

/// Errors that the locks answer with.
#[derive(Debug, PartialEq, Eq)]
pub enum LockError {
    /// Timed out while waiting to acquire the lock.
    Timeout(Duration),
    /// Browser only: the lock manager of the page rejected the request.
    Js(String),
}

/// The text that `Debug` gives a duration (`1s`, `20ms`, ...).
pub uninterp spec fn duration_text(span: Duration) -> Seq<char>;

/// The `Debug` rendering of a `Duration`, named [`duration_text`].
#[verifier::external_body]
fn render_duration(span: &Duration) -> (text: String)
    ensures
        text@ == duration_text(*span),
{
    format!("{:?}", span)
}

/// The text of a time-out, given how the duration is written.
pub open spec fn timeout_text(span: Seq<char>) -> Seq<char> {
    "acquiring lock timed-out after "@ + span
}

/// The text of a rejected request, given the reason.
pub open spec fn rejected_text(reason: Seq<char>) -> Seq<char> {
    "Navigator LockManager rejected: "@ + reason
}

/// The text of a time-out, given how the duration is written.
pub fn timeout_message(span: &str) -> (text: String)
    ensures
        text@ == timeout_text(span@),
        text@ == "acquiring lock timed-out after "@ + span@,
{
    String::from_str("acquiring lock timed-out after ").concat(span)
}

impl LockError {
    /// The text that the error is shown as.
    pub open spec fn text(self) -> Seq<char> {
        match self {
            LockError::Timeout(span) => timeout_text(duration_text(span)),
            LockError::Js(reason) => rejected_text(reason@),
        }
    }

    /// The text that the error is shown as.
    pub fn message(&self) -> (text: String)
        ensures
            text@ == self.text(),
            self matches LockError::Timeout(span) ==> text@ == "acquiring lock timed-out after "@
                + duration_text(*span),
            self matches LockError::Js(reason) ==> text@ == "Navigator LockManager rejected: "@
                + reason@,
    {
        match self {
            LockError::Timeout(span) => timeout_message(render_duration(span).as_str()),
            LockError::Js(reason) => {
                String::from_str("Navigator LockManager rejected: ").concat(reason.as_str())
            },
        }
    }
}

/// The text of an error says what kind it is, and ends in how its duration is
/// written or in its reason.
pub proof fn text_tells_kind_and_cause(error: LockError)
    ensures
        error matches LockError::Timeout(span) ==> {
            &&& "acquiring lock timed-out after "@.is_prefix_of(error.text())
            &&& error.text().skip("acquiring lock timed-out after "@.len() as int) == duration_text(
                span,
            )
        },
        error matches LockError::Js(reason) ==> {
            &&& "Navigator LockManager rejected: "@.is_prefix_of(error.text())
            &&& error.text().skip("Navigator LockManager rejected: "@.len() as int) == reason@
        },
{
    let late = "acquiring lock timed-out after "@;
    let refused = "Navigator LockManager rejected: "@;
    match error {
        LockError::Timeout(span) => {
            assert(error.text().take(late.len() as int) =~= late);
            assert(error.text().skip(late.len() as int) =~= duration_text(span));
        },
        LockError::Js(reason) => {
            assert(error.text().take(refused.len() as int) =~= refused);
            assert(error.text().skip(refused.len() as int) =~= reason@);
        },
    }
}

/// Two errors are shown as the same text only if they are of one kind and say the
/// same: the same reason, or durations that are written in the same way.
pub proof fn texts_tell_errors_apart(a: LockError, b: LockError)
    requires
        a.text() == b.text(),
    ensures
        a is Timeout <==> b is Timeout,
        a matches LockError::Timeout(x) ==> b matches LockError::Timeout(y) && duration_text(x)
            == duration_text(y),
        a matches LockError::Js(x) ==> b matches LockError::Js(y) && x@ == y@,
{
    reveal_strlit("acquiring lock timed-out after ");
    reveal_strlit("Navigator LockManager rejected: ");
    text_tells_kind_and_cause(a);
    text_tells_kind_and_cause(b);
    assert("acquiring lock timed-out after "@[0] == 'a');
    assert("Navigator LockManager rejected: "@[0] == 'N');
}

} // verus!
