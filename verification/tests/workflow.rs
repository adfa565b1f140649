use querykey_server::models::ConflictResolution::{AWins, Dismissed, Merged, Unresolved};
use querykey_server::models::QuestionStatus::{Expired, Open, Resolved};
use querykey_server::models::TaskStatus::{Confirmed, Disputed, Done, Extracted, InProgress};
use querykey_server::workflow::{conflict_transition_ok, question_transition_ok, task_transition_ok};

#[test]
fn task_machine() {
    assert!(task_transition_ok(Extracted, Confirmed));
    assert!(task_transition_ok(Confirmed, InProgress));
    assert!(task_transition_ok(InProgress, Done));
    assert!(task_transition_ok(Done, InProgress)); // reopen
    assert!(task_transition_ok(Done, Done)); // idempotent
    assert!(!task_transition_ok(Done, Extracted)); // never rewind
    assert!(!task_transition_ok(Confirmed, Extracted));
}

#[test]
fn conflict_never_unresolves() {
    assert!(conflict_transition_ok(Unresolved, AWins));
    assert!(conflict_transition_ok(AWins, Merged)); // correction
    assert!(conflict_transition_ok(Unresolved, Unresolved));
    assert!(!conflict_transition_ok(AWins, Unresolved)); // the rule
    assert!(!conflict_transition_ok(Dismissed, Unresolved));
}

#[test]
fn question_machine() {
    assert!(question_transition_ok(Open, Resolved));
    assert!(question_transition_ok(Open, Expired));
    assert!(question_transition_ok(Expired, Open)); // re-ask
    assert!(!question_transition_ok(Resolved, Open)); // terminal
    assert!(!question_transition_ok(Resolved, Expired));
}

#[test]
fn every_state_may_stay_put() {
    for s in [Extracted, Confirmed, InProgress, Done, Disputed] {
        assert!(task_transition_ok(s, s));
    }
    for q in [Open, Resolved, Expired] {
        assert!(question_transition_ok(q, q));
    }
}

#[test]
fn only_disputed_tasks_return_to_extracted() {
    assert!(task_transition_ok(Disputed, Extracted));
    assert!(!task_transition_ok(InProgress, Extracted));
    assert!(task_transition_ok(InProgress, Confirmed));
    assert!(!task_transition_ok(Done, Confirmed));
}
