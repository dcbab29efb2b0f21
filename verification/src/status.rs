//! Task status and the status state machine.

use vstd::prelude::*;

use crate::error::TaskCtlError;
use crate::numtext::{eq_ignore_ascii, lower_seq};

verus! {

broadcast use vstd::string::group_string_axioms;

/// The three lifecycle states of a task.
#[derive(Debug, Clone, Copy, PartialEq, Eq, Structural)]
pub enum Status {
    Pending,
    InProgress,
    Done,
}

/// Whether the state machine allows moving from `current` to `target`.
///
/// Allowed: Pending <-> InProgress, Pending -> Done, InProgress -> Done,
/// Done -> Pending; a transition from a state to itself always succeeds.
/// The only move ruled out is Done -> InProgress.
pub open spec fn transition_allowed(current: Status, target: Status) -> bool {
    current == target || !(current == Status::Done && target == Status::InProgress)
}

/// Transition to a target status. Returns `Ok(target)` exactly when the
/// state machine allows the move; transitioning a state to itself is an
/// idempotent success.
pub fn transition(current: Status, target: Status) -> (r: Result<Status, TaskCtlError>)
    ensures
        transition_allowed(current, target) <==> r is Ok,
        r is Ok ==> r->Ok_0 == target,
        r is Err ==> r->Err_0 is InvalidArgument,
{
    if current == target {
        return Ok(target);
    }
    match (current, target) {
        (Status::Pending, Status::InProgress)
        | (Status::Pending, Status::Done)
        | (Status::InProgress, Status::Done)
        | (Status::InProgress, Status::Pending)
        | (Status::Done, Status::Pending) => Ok(target),
        _ => Err(TaskCtlError::InvalidArgument(
            String::from_str("Cannot transition from done to in_progress"),
        )),
    }
}

/// Repeating a transition that just succeeded succeeds again and leaves the
/// state unchanged: the state machine is idempotent on its fixed points.
pub proof fn lemma_transition_idempotent(current: Status, target: Status)
    ensures
        transition_allowed(current, target) ==> transition_allowed(target, target),
{
}

/// The status a loose textual token names, if any: `pending`,
/// `in_progress` (also `inprogress` and `in-progress`), or `done`,
/// case-insensitive.
pub open spec fn spec_status_token(s: Seq<char>) -> Option<Status> {
    let t = lower_seq(s);
    if t == "pending"@ {
        Some(Status::Pending)
    } else if t == "in_progress"@ || t == "inprogress"@ || t == "in-progress"@ {
        Some(Status::InProgress)
    } else if t == "done"@ {
        Some(Status::Done)
    } else {
        None
    }
}

impl Status {
    /// Read a status from its loose textual forms, case-insensitive:
    /// `pending`, `in_progress` (also `inprogress` and `in-progress`),
    /// and `done`.
    pub fn from_str_loose(s: &str) -> (r: Result<Status, TaskCtlError>)
        ensures
            ({
                let t = lower_seq(s@);
                if t == "pending"@ {
                    r == Ok::<Status, TaskCtlError>(Status::Pending)
                } else if t == "in_progress"@ || t == "inprogress"@ || t == "in-progress"@ {
                    r == Ok::<Status, TaskCtlError>(Status::InProgress)
                } else if t == "done"@ {
                    r == Ok::<Status, TaskCtlError>(Status::Done)
                } else {
                    r is Err && r->Err_0 is InvalidArgument
                }
            }),
    {
        proof {
            reveal_strlit("pending");
            reveal_strlit("in_progress");
            reveal_strlit("inprogress");
            reveal_strlit("in-progress");
            reveal_strlit("done");
            assert(lower_seq("pending"@) =~= "pending"@);
            assert(lower_seq("in_progress"@) =~= "in_progress"@);
            assert(lower_seq("inprogress"@) =~= "inprogress"@);
            assert(lower_seq("in-progress"@) =~= "in-progress"@);
            assert(lower_seq("done"@) =~= "done"@);
        }
        if eq_ignore_ascii(s, "pending") {
            Ok(Status::Pending)
        } else if eq_ignore_ascii(s, "in_progress") || eq_ignore_ascii(s, "inprogress")
            || eq_ignore_ascii(s, "in-progress") {
            Ok(Status::InProgress)
        } else if eq_ignore_ascii(s, "done") {
            Ok(Status::Done)
        } else {
            Err(TaskCtlError::InvalidArgument(String::from_str("Unknown status")))
        }
    }

    /// The canonical token of a status, as stored and displayed.
    pub fn token(&self) -> (r: String)
        ensures
            *self is Pending ==> r@ == "pending"@,
            *self is InProgress ==> r@ == "in_progress"@,
            *self is Done ==> r@ == "done"@,
    {
        match self {
            Status::Pending => String::from_str("pending"),
            Status::InProgress => String::from_str("in_progress"),
            Status::Done => String::from_str("done"),
        }
    }
}

} // verus!
