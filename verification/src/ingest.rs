//! The ingest pipeline's own logic: what an ingest request carries, how
//! its content is normalized, and how the agent's JSON answer is cut out
//! of the prose around it. Calling the agent, storing the results and
//! broadcasting them is the caller's part.
use vstd::prelude::*;

use crate::calendar::{chrono_parse_rfc3339, opt_view, rfc3339_utc, UtcDateTime};
use crate::models::{conflict_type_name, ConflictResolution, ConflictType, InputType, TaskStatus};
use crate::text::{index_of, index_of_exec, lemma_index_of, slice_of, string_of, to_chars};

verus! {

/// Raw input handed to the pipeline.
#[derive(Debug, Clone)]
pub struct IngestRequest {
    pub input_type: InputType,
    pub content: String,
    pub submitted_by: String,
    pub source_context: String,
}

/// The text the agent analyzes. Text inputs are taken as they are; the
/// binary kinds (screenshots, audio) are passed through too, as no OCR
/// or transcription is done.
pub fn normalize(req: &IngestRequest) -> (r: String)
    ensures
        r@ == req.content@,
{
    match req.input_type {
        InputType::Screenshot | InputType::VoiceNote | InputType::RecordedAudio => {
            string_of(&to_chars(req.content.as_str()))
        },
        _ => string_of(&to_chars(req.content.as_str())),
    }
}

/// Index of the last `c` in `s`.
pub open spec fn rindex_of(s: Seq<char>, c: char) -> Option<int>
    decreases s.len(),
{
    if s.len() == 0 {
        None
    } else if s.last() == c {
        Some(s.len() - 1)
    } else {
        rindex_of(s.drop_last(), c)
    }
}

proof fn lemma_rindex_of(s: Seq<char>, c: char)
    ensures
        rindex_of(s, c) matches Some(i) ==> 0 <= i < s.len() && s[i] == c,
    decreases s.len(),
{
    if s.len() > 0 && s.last() != c {
        lemma_rindex_of(s.drop_last(), c);
    }
}

fn rindex_of_exec(v: &Vec<char>, c: char) -> (r: Option<usize>)
    ensures
        match r {
            Some(i) => rindex_of(v@, c) == Some(i as int),
            None => rindex_of(v@, c) is None,
        },
{
    let mut j: usize = v.len();
    proof {
        assert(v@.take(v.len() as int) =~= v@);
    }
    while j > 0 && v[j - 1] != c
        invariant
            j <= v.len(),
            rindex_of(v@, c) == rindex_of(v@.take(j as int), c),
        decreases j,
    {
        proof {
            assert(v@.take(j as int).drop_last() =~= v@.take(j - 1));
        }
        j -= 1;
    }
    proof {
        assert(v@.take(v.len() as int) =~= v@);
    }
    if j == 0 {
        proof {
            assert(v@.take(0) =~= Seq::<char>::empty());
        }
        None
    } else {
        proof {
            assert(v@.take(j as int).last() == v@[j - 1]);
        }
        Some(j - 1)
    }
}

/// The JSON object inside the agent's answer: from the first `{` to the
/// last `}`, or `{}` when there is none.
pub open spec fn json_span(s: Seq<char>) -> Seq<char> {
    match (index_of(s, '{'), rindex_of(s, '}')) {
        (Some(a), Some(b)) => if b >= a {
            s.subrange(a, b + 1)
        } else {
            "{}"@
        },
        _ => "{}"@,
    }
}

pub fn extract_json(s: &str) -> (r: String)
    ensures
        r@ == json_span(s@),
{
    let v = to_chars(s);
    proof {
        lemma_index_of(v@, '{');
        lemma_rindex_of(v@, '}');
    }
    match (index_of_exec(&v, '{'), rindex_of_exec(&v, '}')) {
        (Some(a), Some(b)) => {
            if b >= a {
                string_of(&slice_of(&v, a, b + 1))
            } else {
                string_of(&to_chars("{}"))
            }
        },
        _ => string_of(&to_chars("{}")),
    }
}

/// The conflict type the agent named, `contradictory_tasks` when the
/// name is unknown.
pub fn conflict_type_of(name: &str) -> (r: ConflictType)
    ensures
        (exists|t: ConflictType| conflict_type_name(t) == name@) ==> conflict_type_name(r) == name@,
        (forall|t: ConflictType| conflict_type_name(t) != name@) ==> r
            == ConflictType::ContradictoryTasks,
{
    match ConflictType::from_name(name) {
        Some(t) => t,
        None => ConflictType::ContradictoryTasks,
    }
}


// ---------- what the agent's answer becomes ----------

/// A task the agent found: everything but the id, the confidences and the
/// times, which the caller adds.
#[derive(Debug, Clone)]
pub struct TaskDraft {
    pub title: String,
    pub description: String,
    pub assigned_to: String,
    pub assigned_by: String,
    pub deadline: Option<UtcDateTime>,
    pub status: TaskStatus,
    pub source_messages: Vec<String>,
}

/// A fresh task from the agent's fields: status `Extracted`, the deadline
/// read as RFC 3339 (none where it does not parse), the ingest as its
/// source.
pub fn task_draft(
    title: String,
    description: String,
    assigned_to: String,
    assigned_by: String,
    deadline: &str,
    ingest_id: &str,
) -> (d: TaskDraft)
    ensures
        d.title@ == title@,
        d.description@ == description@,
        d.assigned_to@ == assigned_to@,
        d.assigned_by@ == assigned_by@,
        opt_view(d.deadline) == rfc3339_utc(deadline@),
        d.status == TaskStatus::Extracted,
        d.source_messages@.map_values(|s: String| s@) == seq![ingest_id@],
{
    let src = vec![string_of(&to_chars(ingest_id))];
    proof {
        assert(src@.map_values(|s: String| s@) =~= seq![ingest_id@]);
    }
    TaskDraft {
        title,
        description,
        assigned_to,
        assigned_by,
        deadline: chrono_parse_rfc3339(deadline),
        status: TaskStatus::Extracted,
        source_messages: src,
    }
}

/// The two instants of an event: each read as RFC 3339 text, `now` where
/// it does not parse.
pub fn event_times(start: &str, end: &str, now: &UtcDateTime) -> (r: (UtcDateTime, UtcDateTime))
    ensures
        r.0@ == match rfc3339_utc(start@) {
            Some(x) => x,
            None => now@,
        },
        r.1@ == match rfc3339_utc(end@) {
            Some(x) => x,
            None => now@,
        },
{
    let a = match chrono_parse_rfc3339(start) {
        Some(x) => x,
        None => *now,
    };
    let b = match chrono_parse_rfc3339(end) {
        Some(x) => x,
        None => *now,
    };
    (a, b)
}

/// A conflict the agent found: everything but the id and the times.
#[derive(Debug, Clone)]
pub struct ConflictDraft {
    pub conflict_type: ConflictType,
    pub explanation: String,
    pub resolution: ConflictResolution,
}

/// A fresh conflict from the agent's fields: its type read from its wire
/// name (`ContradictoryTasks` for an unknown one), unresolved.
pub fn conflict_draft(kind_name: &str, explanation: String) -> (d: ConflictDraft)
    ensures
        (exists|t: ConflictType| conflict_type_name(t) == kind_name@) ==> conflict_type_name(d.conflict_type)
            == kind_name@,
        (forall|t: ConflictType| conflict_type_name(t) != kind_name@) ==> d.conflict_type
            == ConflictType::ContradictoryTasks,
        d.explanation@ == explanation@,
        d.resolution == ConflictResolution::Unresolved,
{
    ConflictDraft {
        conflict_type: conflict_type_of(kind_name),
        explanation,
        resolution: ConflictResolution::Unresolved,
    }
}

/// An instruction the agent found: everything but the id and the time.
#[derive(Debug, Clone)]
pub struct InstructionDraft {
    pub content: String,
    pub speaker: String,
    pub audience: Vec<String>,
    pub is_task: bool,
    pub task_id: String,
    pub source_message: String,
}

/// A fresh instruction from the agent's fields: linked to no task, the
/// ingest as its source.
pub fn instruction_draft(
    content: String,
    speaker: String,
    audience: Vec<String>,
    is_task: bool,
    ingest_id: &str,
) -> (d: InstructionDraft)
    ensures
        d.content@ == content@,
        d.speaker@ == speaker@,
        d.audience@ == audience@,
        d.is_task == is_task,
        d.task_id@ == Seq::<char>::empty(),
        d.source_message@ == ingest_id@,
{
    InstructionDraft {
        content,
        speaker,
        audience,
        is_task,
        task_id: String::new(),
        source_message: string_of(&to_chars(ingest_id)),
    }
}
} // verus!
