//! Status-workflow rules, enforced at the API mutation boundary.
//!
//! Each lifecycle entity has a small state machine. The vault can hold
//! any state (hand edits are legitimate); these rules only decide what
//! the server itself may change. `from == to` is always allowed.
use vstd::prelude::*;

use crate::models::{ConflictResolution, QuestionStatus, TaskStatus};

verus! {

/// Task: `extracted → confirmed → in_progress → done`, with `disputed`
/// as a side state and reopen edges out of `done` (never back to
/// `extracted`).
pub open spec fn task_edge(from: TaskStatus, to: TaskStatus) -> bool {
    from == to || match (from, to) {
        (TaskStatus::Extracted, TaskStatus::Confirmed)
        | (TaskStatus::Extracted, TaskStatus::InProgress)
        | (TaskStatus::Extracted, TaskStatus::Disputed)
        | (TaskStatus::Extracted, TaskStatus::Done) => true,
        (TaskStatus::Confirmed, TaskStatus::InProgress)
        | (TaskStatus::Confirmed, TaskStatus::Done)
        | (TaskStatus::Confirmed, TaskStatus::Disputed) => true,
        (TaskStatus::InProgress, TaskStatus::Done)
        | (TaskStatus::InProgress, TaskStatus::Disputed)
        | (TaskStatus::InProgress, TaskStatus::Confirmed) => true,
        (TaskStatus::Disputed, TaskStatus::Extracted)
        | (TaskStatus::Disputed, TaskStatus::Confirmed)
        | (TaskStatus::Disputed, TaskStatus::InProgress)
        | (TaskStatus::Disputed, TaskStatus::Done) => true,
        (TaskStatus::Done, TaskStatus::InProgress)
        | (TaskStatus::Done, TaskStatus::Disputed) => true,
        _ => false,
    }
}

/// Conflict: any move is allowed except (re-)entering `unresolved`
/// from a different state.
pub open spec fn conflict_edge(from: ConflictResolution, to: ConflictResolution) -> bool {
    from == to || to != ConflictResolution::Unresolved
}

/// Open question: `open → resolved | expired`, `expired → open |
/// resolved`; `resolved` is terminal.
pub open spec fn question_edge(from: QuestionStatus, to: QuestionStatus) -> bool {
    from == to || match (from, to) {
        (QuestionStatus::Open, QuestionStatus::Resolved)
        | (QuestionStatus::Open, QuestionStatus::Expired)
        | (QuestionStatus::Expired, QuestionStatus::Open)
        | (QuestionStatus::Expired, QuestionStatus::Resolved) => true,
        _ => false,
    }
}

/// Whether the server may move a task from `from` to `to`.
pub fn task_transition_ok(from: TaskStatus, to: TaskStatus) -> (ok: bool)
    ensures
        ok == task_edge(from, to),
{
    if from == to {
        return true;
    }
    match (from, to) {
        (TaskStatus::Extracted, TaskStatus::Confirmed)
        | (TaskStatus::Extracted, TaskStatus::InProgress)
        | (TaskStatus::Extracted, TaskStatus::Disputed)
        | (TaskStatus::Extracted, TaskStatus::Done) => true,
        (TaskStatus::Confirmed, TaskStatus::InProgress)
        | (TaskStatus::Confirmed, TaskStatus::Done)
        | (TaskStatus::Confirmed, TaskStatus::Disputed) => true,
        (TaskStatus::InProgress, TaskStatus::Done)
        | (TaskStatus::InProgress, TaskStatus::Disputed)
        | (TaskStatus::InProgress, TaskStatus::Confirmed) => true,
        (TaskStatus::Disputed, TaskStatus::Extracted)
        | (TaskStatus::Disputed, TaskStatus::Confirmed)
        | (TaskStatus::Disputed, TaskStatus::InProgress)
        | (TaskStatus::Disputed, TaskStatus::Done) => true,
        (TaskStatus::Done, TaskStatus::InProgress)
        | (TaskStatus::Done, TaskStatus::Disputed) => true,
        _ => false,
    }
}

/// Whether the server may move a conflict from `from` to `to`.
pub fn conflict_transition_ok(from: ConflictResolution, to: ConflictResolution) -> (ok: bool)
    ensures
        ok == conflict_edge(from, to),
{
    if from == to {
        return true;
    }
    to != ConflictResolution::Unresolved
}

/// Whether the server may move an open question from `from` to `to`.
pub fn question_transition_ok(from: QuestionStatus, to: QuestionStatus) -> (ok: bool)
    ensures
        ok == question_edge(from, to),
{
    if from == to {
        return true;
    }
    match (from, to) {
        (QuestionStatus::Open, QuestionStatus::Resolved)
        | (QuestionStatus::Open, QuestionStatus::Expired)
        | (QuestionStatus::Expired, QuestionStatus::Open)
        | (QuestionStatus::Expired, QuestionStatus::Resolved) => true,
        _ => false,
    }
}

/// Idempotent writes: every machine accepts staying in place.
pub proof fn lemma_self_transitions_allowed(
    t: TaskStatus,
    c: ConflictResolution,
    q: QuestionStatus,
)
    ensures
        task_edge(t, t),
        conflict_edge(c, c),
        question_edge(q, q),
{
}

/// A resolved conflict can never return to `unresolved`.
pub proof fn lemma_conflict_never_unresolves(from: ConflictResolution, to: ConflictResolution)
    requires
        from != ConflictResolution::Unresolved,
        conflict_edge(from, to),
    ensures
        to != ConflictResolution::Unresolved,
{
}

/// An unresolved conflict may take any resolution.
pub proof fn lemma_unresolved_may_take_any(to: ConflictResolution)
    ensures
        conflict_edge(ConflictResolution::Unresolved, to),
{
}

/// A resolved question is terminal: it may not move anywhere else.
pub proof fn lemma_resolved_question_is_terminal(to: QuestionStatus)
    requires
        question_edge(QuestionStatus::Resolved, to),
    ensures
        to == QuestionStatus::Resolved,
{
}

/// Only a disputed task may be moved back to `extracted`: a confirmed,
/// started or done task never rewinds its lifecycle.
pub proof fn lemma_task_never_rewinds_to_extracted(from: TaskStatus)
    requires
        task_edge(from, TaskStatus::Extracted),
    ensures
        from == TaskStatus::Extracted || from == TaskStatus::Disputed,
{
}

/// A done task may only be reopened (in progress) or disputed.
pub proof fn lemma_done_only_reopens(to: TaskStatus)
    requires
        task_edge(TaskStatus::Done, to),
    ensures
        to == TaskStatus::Done || to == TaskStatus::InProgress || to == TaskStatus::Disputed,
{
}


/// The place of a status on the main task lifecycle
/// `extracted → confirmed → in_progress → done` (`disputed` is off it).
pub open spec fn lifecycle_place(s: TaskStatus) -> int {
    match s {
        TaskStatus::Extracted => 0,
        TaskStatus::Confirmed => 1,
        TaskStatus::InProgress => 2,
        TaskStatus::Done => 3,
        TaskStatus::Disputed => -1,
    }
}

/// Every forward move along the lifecycle is allowed, skipping ahead
/// included (`confirmed → done`, `extracted → done`, ...), and so is
/// disputing a task from any other state.
pub proof fn lemma_forward_moves_allowed(from: TaskStatus, to: TaskStatus)
    ensures
        0 <= lifecycle_place(from) < lifecycle_place(to) ==> task_edge(from, to),
        to == TaskStatus::Disputed ==> task_edge(from, to),
        task_edge(TaskStatus::Confirmed, TaskStatus::Done),
{
}
} // verus!
