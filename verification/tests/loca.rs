use querykey_server::loca::{
    backend_name, binding_value, ntriples_lines, read_person, read_task, store_conflict,
    store_person, store_task, strip_iri, unquote, ConflictFacts, PersonFacts, TaskFacts, Triple,
};
use querykey_server::models::{ConflictResolution, ConflictType, Handle, TaskStatus};

const NS: &str = "http://querykey.dev/ns/";
const TYPE: &str = "http://www.w3.org/1999/02/22-rdf-syntax-ns#type";

fn t(x: &Triple) -> (String, String, String) {
    (x.subject.clone(), x.predicate.clone(), x.object.clone())
}

fn attrs(ts: &[Triple]) -> Vec<(String, String)> {
    ts.iter().map(|x| (x.predicate.clone(), x.object.clone())).collect()
}

#[test]
fn unquote_and_iris() {
    assert_eq!(unquote("\"say \\\"hi\\\"\""), "say \"hi\"");
    assert_eq!(unquote("\""), "\"");
    assert_eq!(unquote("plain"), "plain");
    assert_eq!(strip_iri("http://querykey.dev/ns/person/ada"), "ada");
    assert_eq!(strip_iri("noslash"), "noslash");
    assert_eq!(backend_name("./q.sdb"), "loca:./q.sdb");
}

#[test]
fn person_triples_round_trip() {
    let p = PersonFacts {
        id: "ada".into(),
        display_name: "Ada \"A\" Lovelace".into(),
        role: String::new(),
        handles: vec![Handle { platform: "github".into(), identifier: "ada".into() }],
    };
    let ts = store_person(&p);
    let s = format!("{NS}person/ada");
    assert_eq!(ts.len(), 3);
    assert_eq!(t(&ts[0]), (s.clone(), TYPE.to_string(), format!("{NS}Person")));
    assert_eq!(t(&ts[1]), (s.clone(), format!("{NS}displayName"), "\"Ada \\\"A\\\" Lovelace\"".to_string()));
    assert_eq!(t(&ts[2]), (s.clone(), format!("{NS}handle/github"), "\"ada\"".to_string()));
    let back = read_person(&s, &attrs(&ts));
    assert_eq!(back.id, "ada");
    assert_eq!(back.display_name, "Ada \"A\" Lovelace");
    assert_eq!(back.role, "");
    assert_eq!(back.handles.len(), 1);
    assert_eq!(back.handles[0].platform, "github");
    assert_eq!(back.handles[0].identifier, "ada");
}

#[test]
fn task_triples_round_trip() {
    let task = TaskFacts {
        id: "t1".into(),
        title: "Return the book".into(),
        description: String::new(),
        status: TaskStatus::InProgress,
        confidence: "0.9".into(),
        ambiguity_score: "0".into(),
        created_at: "2026-05-15T00:00:00+00:00".into(),
        updated_at: "2026-05-16T00:00:00+00:00".into(),
        assigned_to: "ada".into(),
        assigned_by: String::new(),
        deadline: Some("2026-05-20T00:00:00+00:00".into()),
        source_messages: vec!["ingest:abc".into()],
    };
    let ts = store_task(&task);
    assert_eq!(ts.len(), 10);
    assert_eq!(ts[2].predicate, format!("{NS}status"));
    assert_eq!(ts[2].object, "\"in_progress\"");
    assert_eq!(ts[7].object, format!("{NS}person/ada"));
    let back = read_task(&format!("{NS}task/t1"), &attrs(&ts));
    assert_eq!(back.id, "t1");
    assert_eq!(back.title, "Return the book");
    assert_eq!(back.status, TaskStatus::InProgress);
    assert_eq!(back.confidence.as_deref(), Some("0.9"));
    assert_eq!(back.assigned_to, "ada");
    assert_eq!(back.assigned_by, "");
    assert_eq!(back.deadline.as_deref(), Some("2026-05-20T00:00:00+00:00"));
    assert_eq!(back.created_at, vec!["2026-05-15T00:00:00+00:00".to_string()]);
    assert_eq!(back.source_messages, vec!["ingest:abc".to_string()]);
}

#[test]
fn conflict_triples() {
    let c = ConflictFacts {
        id: "c1".into(),
        explanation: "x".into(),
        conflict_type: ConflictType::DeadlineChange,
        resolution: ConflictResolution::Unresolved,
        message_a: "m1".into(),
        message_b: String::new(),
        created_at: "now".into(),
    };
    let ts = store_conflict(&c);
    assert_eq!(ts.len(), 6);
    assert_eq!(ts[2].object, "\"deadline_change\"");
    assert_eq!(ts[3].object, "\"unresolved\"");
    assert_eq!(ts[4].object, format!("{NS}message/m1"));
}

#[test]
fn query_terms_and_ntriples_lines() {
    let v = binding_value("\"Ada\"");
    assert_eq!((v.value_type.as_str(), v.value.as_str()), ("literal", "Ada"));
    let v = binding_value("http://x/y");
    assert_eq!((v.value_type.as_str(), v.value.as_str()), ("uri", "http://x/y"));
    assert_eq!(
        ntriples_lines("# c\n<a> <b> <c> .\n\n  <d> <e> \"f\" .  \n"),
        vec!["<a> <b> <c> .".to_string(), "<d> <e> \"f\" .".to_string()]
    );
}
