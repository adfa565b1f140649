use querykey_server::calendar::UtcDateTime;
use querykey_server::ingest::{
    conflict_draft, conflict_type_of, event_times, extract_json, instruction_draft, normalize, task_draft,
    IngestRequest,
};
use querykey_server::models::{ConflictResolution, ConflictType, InputType, TaskStatus};

#[test]
fn extracts_the_outermost_object() {
    assert_eq!(extract_json("Sure! ```json\n{\"tasks\": [{\"a\": 1}]}\n``` done"), "{\"tasks\": [{\"a\": 1}]}");
    assert_eq!(extract_json("no json here"), "{}");
    assert_eq!(extract_json("} backwards {"), "{}");
    assert_eq!(extract_json("{}"), "{}");
    assert_eq!(extract_json("x{y"), "{}");
}

#[test]
fn conflict_types_by_wire_name() {
    assert_eq!(conflict_type_of("deadline_change"), ConflictType::DeadlineChange);
    assert_eq!(conflict_type_of("scope_change"), ConflictType::ScopeChange);
    assert_eq!(conflict_type_of("reassignment"), ConflictType::Reassignment);
    assert_eq!(conflict_type_of("something else"), ConflictType::ContradictoryTasks);
}

#[test]
fn normalize_passes_content_through() {
    for kind in [InputType::FreeformText, InputType::Screenshot, InputType::VoiceNote] {
        let req = IngestRequest {
            input_type: kind,
            content: "hello".into(),
            submitted_by: String::new(),
            source_context: String::new(),
        };
        assert_eq!(normalize(&req), "hello");
    }
}

fn at(year: i32, month: u32, day: u32, hour: u32, minute: u32, second: u32) -> UtcDateTime {
    UtcDateTime { year, month, day, hour, minute, second, nano: 0 }
}

#[test]
fn drafts_read_dates_and_set_defaults() {
    let t = task_draft("Call".into(), "d".into(), "ada".into(), "bob".into(), "2026-05-20T09:00:00+02:00", "ing-1");
    assert_eq!(t.deadline, Some(at(2026, 5, 20, 7, 0, 0)));
    assert_eq!(t.status, TaskStatus::Extracted);
    assert_eq!(t.source_messages, vec!["ing-1".to_string()]);
    assert_eq!((t.title.as_str(), t.assigned_to.as_str(), t.assigned_by.as_str()), ("Call", "ada", "bob"));
    let t = task_draft("x".into(), String::new(), String::new(), String::new(), "next week", "ing-1");
    assert_eq!(t.deadline, None);

    let now = at(2026, 1, 2, 3, 4, 5);
    let (a, b) = event_times("2026-06-01T10:00:00Z", "soon", &now);
    assert_eq!(a, at(2026, 6, 1, 10, 0, 0));
    assert_eq!(b, now);

    let c = conflict_draft("deadline_change", "moved".into());
    assert_eq!(c.conflict_type, ConflictType::DeadlineChange);
    assert_eq!(c.resolution, ConflictResolution::Unresolved);
    assert_eq!(conflict_draft("nonsense", String::new()).conflict_type, ConflictType::ContradictoryTasks);

    let i = instruction_draft("do it".into(), "ada".into(), vec!["bob".into()], true, "ing-2");
    assert_eq!(i.source_message, "ing-2");
    assert!(i.task_id.is_empty());
    assert!(i.is_task);
    assert_eq!(i.audience, vec!["bob".to_string()]);
}
