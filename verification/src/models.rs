//! Domain vocabulary shared by the vault, the API and the workflow
//! rules: lifecycle enums and the small plain records.
use vstd::prelude::*;

use crate::text::{same, string_of, to_chars};

verus! {

/// Task lifecycle status.
#[derive(Debug, Clone, Copy, PartialEq, Eq, Structural)]
pub enum TaskStatus {
    Extracted,
    Confirmed,
    InProgress,
    Done,
    Disputed,
}

/// Kind of raw input handed to the ingest pipeline.
#[derive(Debug, Clone, Copy, PartialEq, Eq, Structural)]
pub enum InputType {
    BotFeed,
    ChatlogPaste,
    Screenshot,
    VoiceNote,
    RecordedAudio,
    FreeformText,
}

/// What two clashing messages disagree about.
#[derive(Debug, Clone, Copy, PartialEq, Eq, Structural)]
pub enum ConflictType {
    ContradictoryTasks,
    Reassignment,
    DeadlineChange,
    ScopeChange,
}

/// How a conflict was settled (`Unresolved` until someone decides).
#[derive(Debug, Clone, Copy, PartialEq, Eq, Structural)]
pub enum ConflictResolution {
    Unresolved,
    AWins,
    BWins,
    Merged,
    Dismissed,
}

/// How soon an open question needs an answer.
#[derive(Debug, Clone, Copy, PartialEq, Eq, Structural)]
pub enum Urgency {
    Asap,
    ByTime,
    EndOfDay,
    Whenever,
}

/// What raised a question or a follow-up.
#[derive(Debug, Clone, Copy, PartialEq, Eq, Structural)]
pub enum TriggerType {
    Conflict,
    Ambiguity,
    MissedDeadline,
    UnconfirmedTask,
    Reassignment,
    ScopeChange,
    DailyCheckin,
}

/// Open-question lifecycle status.
#[derive(Debug, Clone, Copy, PartialEq, Eq, Structural)]
pub enum QuestionStatus {
    Open,
    Resolved,
    Expired,
}

/// Delivery state of one follow-up attempt.
#[derive(Debug, Clone, Copy, PartialEq, Eq, Structural)]
pub enum DeliveryStatus {
    Sent,
    Delivered,
    Read,
    Failed,
}

/// Follow-up lifecycle status.
#[derive(Debug, Clone, Copy, PartialEq, Eq, Structural)]
pub enum FollowUpStatus {
    Pending,
    Sent,
    Answered,
    Expired,
}

/// One platform identity of a person (`github` → `jsmith`).
#[derive(Debug, Clone)]
pub struct Handle {
    pub platform: String,
    pub identifier: String,
}

/// A graph edge as broadcast in a graph diff.
#[derive(Debug, Clone)]
pub struct Edge {
    pub subject: String,
    pub predicate: String,
    pub object: String,
}

/// One prior turn of a chat conversation.
#[derive(Debug, Clone)]
pub struct ChatHistoryItem {
    pub role: String,
    pub content: String,
}

/// A chat request frame received over the WebSocket.
#[derive(Debug, Clone)]
pub struct ChatRequest {
    pub content: String,
    pub message: String,
    pub context: Vec<(String, String)>,
    pub history: Vec<ChatHistoryItem>,
}


// ---------- wire names (snake_case, as in the JSON API) ----------

pub open spec fn task_status_name(s: TaskStatus) -> Seq<char> {
    match s {
        TaskStatus::Extracted => "extracted"@,
        TaskStatus::Confirmed => "confirmed"@,
        TaskStatus::InProgress => "in_progress"@,
        TaskStatus::Done => "done"@,
        TaskStatus::Disputed => "disputed"@,
    }
}

pub open spec fn conflict_type_name(t: ConflictType) -> Seq<char> {
    match t {
        ConflictType::ContradictoryTasks => "contradictory_tasks"@,
        ConflictType::Reassignment => "reassignment"@,
        ConflictType::DeadlineChange => "deadline_change"@,
        ConflictType::ScopeChange => "scope_change"@,
    }
}

pub open spec fn resolution_name(r: ConflictResolution) -> Seq<char> {
    match r {
        ConflictResolution::Unresolved => "unresolved"@,
        ConflictResolution::AWins => "a_wins"@,
        ConflictResolution::BWins => "b_wins"@,
        ConflictResolution::Merged => "merged"@,
        ConflictResolution::Dismissed => "dismissed"@,
    }
}

impl TaskStatus {
    /// The status's wire name.
    pub fn name(&self) -> (r: String)
        ensures
            r@ == task_status_name(*self),
    {
        let t = match self {
            TaskStatus::Extracted => "extracted",
            TaskStatus::Confirmed => "confirmed",
            TaskStatus::InProgress => "in_progress",
            TaskStatus::Done => "done",
            TaskStatus::Disputed => "disputed",
        };
        string_of(&to_chars(t))
    }

    /// The status with the given wire name.
    pub fn from_name(name: &str) -> (r: Option<TaskStatus>)
        ensures
            r matches Some(s) ==> task_status_name(s) == name@,
            r is None ==> forall|s: TaskStatus| task_status_name(s) != name@,
    {
        let v = to_chars(name);
        if same(&v, &to_chars("extracted")) {
            Some(TaskStatus::Extracted)
        } else if same(&v, &to_chars("confirmed")) {
            Some(TaskStatus::Confirmed)
        } else if same(&v, &to_chars("in_progress")) {
            Some(TaskStatus::InProgress)
        } else if same(&v, &to_chars("done")) {
            Some(TaskStatus::Done)
        } else if same(&v, &to_chars("disputed")) {
            Some(TaskStatus::Disputed)
        } else {
            None
        }
    }
}

impl ConflictType {
    /// The conflict type's wire name.
    pub fn name(&self) -> (r: String)
        ensures
            r@ == conflict_type_name(*self),
    {
        let t = match self {
            ConflictType::ContradictoryTasks => "contradictory_tasks",
            ConflictType::Reassignment => "reassignment",
            ConflictType::DeadlineChange => "deadline_change",
            ConflictType::ScopeChange => "scope_change",
        };
        string_of(&to_chars(t))
    }

    /// The conflict type with the given wire name.
    pub fn from_name(name: &str) -> (r: Option<ConflictType>)
        ensures
            r matches Some(t) ==> conflict_type_name(t) == name@,
            r is None ==> forall|t: ConflictType| conflict_type_name(t) != name@,
    {
        let v = to_chars(name);
        if same(&v, &to_chars("contradictory_tasks")) {
            Some(ConflictType::ContradictoryTasks)
        } else if same(&v, &to_chars("reassignment")) {
            Some(ConflictType::Reassignment)
        } else if same(&v, &to_chars("deadline_change")) {
            Some(ConflictType::DeadlineChange)
        } else if same(&v, &to_chars("scope_change")) {
            Some(ConflictType::ScopeChange)
        } else {
            None
        }
    }
}

impl ConflictResolution {
    /// The resolution's wire name.
    pub fn name(&self) -> (r: String)
        ensures
            r@ == resolution_name(*self),
    {
        let t = match self {
            ConflictResolution::Unresolved => "unresolved",
            ConflictResolution::AWins => "a_wins",
            ConflictResolution::BWins => "b_wins",
            ConflictResolution::Merged => "merged",
            ConflictResolution::Dismissed => "dismissed",
        };
        string_of(&to_chars(t))
    }
}

/// Distinct statuses have distinct wire names.
pub proof fn lemma_task_status_names_distinct(a: TaskStatus, b: TaskStatus)
    ensures
        task_status_name(a) == task_status_name(b) ==> a == b,
{
    reveal_strlit("extracted");
    reveal_strlit("confirmed");
    reveal_strlit("in_progress");
    reveal_strlit("done");
    reveal_strlit("disputed");
    if task_status_name(a) == task_status_name(b) && a != b {
        assert(task_status_name(a)[0] == task_status_name(b)[0]);
        assert(task_status_name(a).len() == task_status_name(b).len());
    }
}
} // verus!
