//! The triples the embedded Loca store holds for each record, and the
//! typed read-back from a subject's triples. Literals are stored quoted,
//! N-Triples style; links to other records are IRIs under the graph
//! namespace. Interning and looking terms up is the store's part.
use vstd::prelude::*;

use crate::graph::{ns, NS};
use crate::ingest::rindex_of;
use crate::models::{
    conflict_type_name, lemma_task_status_names_distinct, resolution_name, task_status_name,
    ConflictResolution, ConflictType,
    Handle, TaskStatus,
};
use crate::text::{
    append_chars, lines, lines_of, replace_char, replace_char_exec, same, slice_of, starts_with,
    starts_with_exec, string_of, strip_prefix, strip_prefix_exec, to_chars, trim, trim_char,
    trim_char_exec, trim_of, views,
};

verus! {

/// `rdf:type`.
pub const RDF_TYPE: &'static str = "http://www.w3.org/1999/02/22-rdf-syntax-ns#type";

pub open spec fn rdf_type() -> Seq<char> {
    "http://www.w3.org/1999/02/22-rdf-syntax-ns#type"@
}

/// One stored triple (terms as text).
#[derive(Debug, Clone)]
pub struct Triple {
    pub subject: String,
    pub predicate: String,
    pub object: String,
}

pub type TripleV = (Seq<char>, Seq<char>, Seq<char>);

pub open spec fn triple_views(t: Seq<Triple>) -> Seq<TripleV> {
    t.map_values(|x: Triple| (x.subject@, x.predicate@, x.object@))
}

/// `NS kind/id`.
pub open spec fn iri(kind: Seq<char>, id: Seq<char>) -> Seq<char> {
    ns() + kind + "/"@ + id
}

/// `NS name`.
pub open spec fn term(name: Seq<char>) -> Seq<char> {
    ns() + name
}

/// A literal: quoted, inner `"` escaped as `\"`.
pub open spec fn literal(value: Seq<char>) -> Seq<char> {
    "\""@ + replace_char(value, '"', "\\\""@) + "\""@
}

fn iri_exec(kind: &str, id: &str) -> (r: String)
    ensures
        r@ == iri(kind@, id@),
{
    let mut v = to_chars(NS);
    append_chars(&mut v, &to_chars(kind));
    append_chars(&mut v, &to_chars("/"));
    append_chars(&mut v, &to_chars(id));
    string_of(&v)
}

fn term_exec(name: &str) -> (r: String)
    ensures
        r@ == term(name@),
{
    let mut v = to_chars(NS);
    append_chars(&mut v, &to_chars(name));
    string_of(&v)
}

fn literal_exec(value: &str) -> (r: String)
    ensures
        r@ == literal(value@),
{
    let mut v = to_chars("\"");
    append_chars(&mut v, &replace_char_exec(&to_chars(value), '"', &to_chars("\\\"")));
    append_chars(&mut v, &to_chars("\""));
    string_of(&v)
}

fn push_triple(out: &mut Vec<Triple>, s: &str, p: String, o: String)
    ensures
        triple_views(final(out)@) == triple_views(old(out)@).push((s@, p@, o@)),
{
    let t = Triple { subject: string_of(&to_chars(s)), predicate: p, object: o };
    let ghost before = out@;
    out.push(t);
    proof {
        assert(triple_views(out@) =~= triple_views(before).push((s@, p@, o@)));
    }
}

// ---------- what is stored ----------

/// The facts of a person the graph holds.
#[derive(Debug, Clone)]
pub struct PersonFacts {
    pub id: String,
    pub display_name: String,
    pub role: String,
    pub handles: Vec<Handle>,
}

pub open spec fn handle_triples(s: Seq<char>, hs: Seq<Handle>) -> Seq<TripleV> {
    hs.map_values(|h: Handle| (s, term("handle/"@ + h.platform@), literal(h.identifier@)))
}

pub open spec fn person_triples(
    id: Seq<char>,
    display_name: Seq<char>,
    role: Seq<char>,
    handles: Seq<Handle>,
) -> Seq<TripleV> {
    let s = iri("person"@, id);
    seq![(s, rdf_type(), term("Person"@)), (s, term("displayName"@), literal(display_name))] + (
    if role.len() > 0 {
        seq![(s, term("role"@), literal(role))]
    } else {
        seq![]
    }) + handle_triples(s, handles)
}

/// The triples stored for a person: its type, display name, role (when
/// set) and one `handle/<platform>` literal per handle.
pub fn store_person(p: &PersonFacts) -> (r: Vec<Triple>)
    ensures
        triple_views(r@) == person_triples(p.id@, p.display_name@, p.role@, p.handles@),
{
    let s = iri_exec("person", p.id.as_str());
    let mut out: Vec<Triple> = Vec::new();
    push_triple(&mut out, s.as_str(), string_of(&to_chars(RDF_TYPE)), term_exec("Person"));
    push_triple(&mut out, s.as_str(), term_exec("displayName"), literal_exec(p.display_name.as_str()));
    if p.role.as_str().unicode_len() > 0 {
        push_triple(&mut out, s.as_str(), term_exec("role"), literal_exec(p.role.as_str()));
    }
    let ghost head = triple_views(out@);
    let mut i: usize = 0;
    while i < p.handles.len()
        invariant
            i <= p.handles.len(),
            triple_views(out@) == head + handle_triples(s@, p.handles@.take(i as int)),
        decreases p.handles.len() - i,
    {
        let h = &p.handles[i];
        let mut pv = to_chars("handle/");
        append_chars(&mut pv, &to_chars(h.platform.as_str()));
        let pred = term_exec(string_of(&pv).as_str());
        push_triple(&mut out, s.as_str(), pred, literal_exec(h.identifier.as_str()));
        proof {
            assert(handle_triples(s@, p.handles@.take(i + 1)) =~= handle_triples(
                s@,
                p.handles@.take(i as int),
            ).push((s@, term("handle/"@ + h.platform@), literal(h.identifier@))));
        }
        i += 1;
    }
    proof {
        assert(p.handles@.take(p.handles.len() as int) =~= p.handles@);
        reveal_strlit("person");
        assert(triple_views(out@) =~= person_triples(p.id@, p.display_name@, p.role@, p.handles@));
    }
    out
}


pub open spec fn when(c: bool, t: TripleV) -> Seq<TripleV> {
    if c {
        seq![t]
    } else {
        seq![]
    }
}

/// The facts of a task the graph holds; the numbers and times come as
/// the text they are stored as.
#[derive(Debug, Clone)]
pub struct TaskFacts {
    pub id: String,
    pub title: String,
    pub description: String,
    pub status: TaskStatus,
    pub confidence: String,
    pub ambiguity_score: String,
    pub created_at: String,
    pub updated_at: String,
    pub assigned_to: String,
    pub assigned_by: String,
    pub deadline: Option<String>,
    pub source_messages: Vec<String>,
}

pub open spec fn source_triples(s: Seq<char>, ms: Seq<String>) -> Seq<TripleV> {
    ms.map_values(|m: String| (s, term("sourceMessage"@), iri("message"@, m@)))
}

pub open spec fn task_core(s: Seq<char>, t: TaskFacts) -> Seq<TripleV> {
    seq![(s, rdf_type(), term("Task"@)), (s, term("title"@), literal(t.title@))]
        + when(t.description@.len() > 0, (s, term("description"@), literal(t.description@)))
        + seq![
        (s, term("status"@), literal(task_status_name(t.status))),
        (s, term("confidence"@), literal(t.confidence@)),
        (s, term("ambiguityScore"@), literal(t.ambiguity_score@)),
        (s, term("createdAt"@), literal(t.created_at@)),
        (s, term("updatedAt"@), literal(t.updated_at@)),
    ]
}

pub open spec fn task_links(s: Seq<char>, t: TaskFacts) -> Seq<TripleV> {
    when(t.assigned_to@.len() > 0, (s, term("assignedTo"@), iri("person"@, t.assigned_to@)))
        + when(t.assigned_by@.len() > 0, (s, term("assignedBy"@), iri("person"@, t.assigned_by@)))
        + (match t.deadline {
        Some(d) => seq![(s, term("deadline"@), literal(d@))],
        None => seq![],
    })
}

pub open spec fn task_triples(t: TaskFacts) -> Seq<TripleV> {
    let s = iri("task"@, t.id@);
    task_core(s, t) + task_links(s, t) + source_triples(s, t.source_messages@)
}

fn push_task_core(out: &mut Vec<Triple>, s: &str, t: &TaskFacts)
    ensures
        triple_views(final(out)@) == triple_views(old(out)@) + task_core(s@, *t),
{
    let ghost o = triple_views(out@);
    push_triple(out, s, string_of(&to_chars(RDF_TYPE)), term_exec("Task"));
    push_triple(out, s, term_exec("title"), literal_exec(t.title.as_str()));
    let ghost a = triple_views(out@);
    if t.description.as_str().unicode_len() > 0 {
        push_triple(out, s, term_exec("description"), literal_exec(t.description.as_str()));
    }
    let ghost b = triple_views(out@);
    proof {
        assert(b =~= a + when(t.description@.len() > 0, (s@, term("description"@), literal(t.description@))));
    }
    push_triple(out, s, term_exec("status"), literal_exec(t.status.name().as_str()));
    push_triple(out, s, term_exec("confidence"), literal_exec(t.confidence.as_str()));
    push_triple(out, s, term_exec("ambiguityScore"), literal_exec(t.ambiguity_score.as_str()));
    push_triple(out, s, term_exec("createdAt"), literal_exec(t.created_at.as_str()));
    push_triple(out, s, term_exec("updatedAt"), literal_exec(t.updated_at.as_str()));
    proof {
        assert(triple_views(out@) =~= o + task_core(s@, *t));
    }
}

fn push_task_links(out: &mut Vec<Triple>, s: &str, t: &TaskFacts)
    ensures
        triple_views(final(out)@) == triple_views(old(out)@) + task_links(s@, *t),
{
    let ghost c = triple_views(out@);
    if t.assigned_to.as_str().unicode_len() > 0 {
        push_triple(out, s, term_exec("assignedTo"), iri_exec("person", t.assigned_to.as_str()));
    }
    let ghost d = triple_views(out@);
    if t.assigned_by.as_str().unicode_len() > 0 {
        push_triple(out, s, term_exec("assignedBy"), iri_exec("person", t.assigned_by.as_str()));
    }
    let ghost e = triple_views(out@);
    match &t.deadline {
        Some(dl) => {
            push_triple(out, s, term_exec("deadline"), literal_exec(dl.as_str()));
        },
        None => {},
    }
    proof {
        assert(d =~= c + when(t.assigned_to@.len() > 0, (s@, term("assignedTo"@), iri("person"@, t.assigned_to@))));
        assert(e =~= d + when(t.assigned_by@.len() > 0, (s@, term("assignedBy"@), iri("person"@, t.assigned_by@))));
        assert(triple_views(out@) =~= c + task_links(s@, *t));
    }
}

/// The triples stored for a task: every field the task carries, links
/// to its people and its source messages as IRIs.
pub fn store_task(t: &TaskFacts) -> (r: Vec<Triple>)
    ensures
        triple_views(r@) == task_triples(*t),
{
    let s = iri_exec("task", t.id.as_str());
    let mut out: Vec<Triple> = Vec::new();
    push_task_core(&mut out, s.as_str(), t);
    push_task_links(&mut out, s.as_str(), t);
    let ghost head = triple_views(out@);
    proof {
        assert(head =~= task_core(s@, *t) + task_links(s@, *t));
    }
    let mut i: usize = 0;
    while i < t.source_messages.len()
        invariant
            i <= t.source_messages.len(),
            triple_views(out@) == head + source_triples(s@, t.source_messages@.take(i as int)),
        decreases t.source_messages.len() - i,
    {
        let m = &t.source_messages[i];
        push_triple(&mut out, s.as_str(), term_exec("sourceMessage"), iri_exec("message", m.as_str()));
        proof {
            assert(source_triples(s@, t.source_messages@.take(i + 1)) =~= source_triples(
                s@,
                t.source_messages@.take(i as int),
            ).push((s@, term("sourceMessage"@), iri("message"@, m@))));
        }
        i += 1;
    }
    proof {
        assert(t.source_messages@.take(t.source_messages.len() as int) =~= t.source_messages@);
        assert(triple_views(out@) =~= task_triples(*t));
    }
    out
}

/// The facts of a message the graph holds.
#[derive(Debug, Clone)]
pub struct MessageFacts {
    pub id: String,
    pub content: String,
    pub confidence: String,
    pub source_ingest: String,
    pub author: String,
    pub timestamp: Option<String>,
}

pub open spec fn message_triples(m: MessageFacts) -> Seq<TripleV> {
    let s = iri("message"@, m.id@);
    seq![
        (s, rdf_type(), term("Message"@)),
        (s, term("content"@), literal(m.content@)),
        (s, term("confidence"@), literal(m.confidence@)),
    ] + when(m.source_ingest@.len() > 0, (s, term("sourceIngest"@), literal(m.source_ingest@)))
        + when(m.author@.len() > 0, (s, term("author"@), iri("person"@, m.author@))) + (
    match m.timestamp {
        Some(ts) => seq![(s, term("timestamp"@), literal(ts@))],
        None => seq![],
    })
}

/// The triples stored for a message.
pub fn store_message(m: &MessageFacts) -> (r: Vec<Triple>)
    ensures
        triple_views(r@) == message_triples(*m),
{
    let s = iri_exec("message", m.id.as_str());
    let mut out: Vec<Triple> = Vec::new();
    push_triple(&mut out, s.as_str(), string_of(&to_chars(RDF_TYPE)), term_exec("Message"));
    push_triple(&mut out, s.as_str(), term_exec("content"), literal_exec(m.content.as_str()));
    push_triple(&mut out, s.as_str(), term_exec("confidence"), literal_exec(m.confidence.as_str()));
    let ghost a = triple_views(out@);
    if m.source_ingest.as_str().unicode_len() > 0 {
        push_triple(&mut out, s.as_str(), term_exec("sourceIngest"), literal_exec(m.source_ingest.as_str()));
    }
    let ghost b = triple_views(out@);
    if m.author.as_str().unicode_len() > 0 {
        push_triple(&mut out, s.as_str(), term_exec("author"), iri_exec("person", m.author.as_str()));
    }
    let ghost c = triple_views(out@);
    match &m.timestamp {
        Some(ts) => {
            push_triple(&mut out, s.as_str(), term_exec("timestamp"), literal_exec(ts.as_str()));
        },
        None => {},
    }
    proof {
        let ss = s@;
        assert(b =~= a + when(m.source_ingest@.len() > 0, (ss, term("sourceIngest"@), literal(m.source_ingest@))));
        assert(c =~= b + when(m.author@.len() > 0, (ss, term("author"@), iri("person"@, m.author@))));
        assert(triple_views(out@) =~= message_triples(*m));
    }
    out
}

/// The facts of a conflict the graph holds.
#[derive(Debug, Clone)]
pub struct ConflictFacts {
    pub id: String,
    pub explanation: String,
    pub conflict_type: ConflictType,
    pub resolution: ConflictResolution,
    pub message_a: String,
    pub message_b: String,
    pub created_at: String,
}

pub open spec fn conflict_triples(c: ConflictFacts) -> Seq<TripleV> {
    let s = iri("conflict"@, c.id@);
    seq![
        (s, rdf_type(), term("Conflict"@)),
        (s, term("explanation"@), literal(c.explanation@)),
        (s, term("conflictType"@), literal(conflict_type_name(c.conflict_type))),
        (s, term("resolution"@), literal(resolution_name(c.resolution))),
    ] + when(c.message_a@.len() > 0, (s, term("messageA"@), iri("message"@, c.message_a@)))
        + when(c.message_b@.len() > 0, (s, term("messageB"@), iri("message"@, c.message_b@)))
        + seq![(s, term("createdAt"@), literal(c.created_at@))]
}

/// The triples stored for a conflict.
pub fn store_conflict(c: &ConflictFacts) -> (r: Vec<Triple>)
    ensures
        triple_views(r@) == conflict_triples(*c),
{
    let s = iri_exec("conflict", c.id.as_str());
    let mut out: Vec<Triple> = Vec::new();
    push_triple(&mut out, s.as_str(), string_of(&to_chars(RDF_TYPE)), term_exec("Conflict"));
    push_triple(&mut out, s.as_str(), term_exec("explanation"), literal_exec(c.explanation.as_str()));
    push_triple(&mut out, s.as_str(), term_exec("conflictType"), literal_exec(c.conflict_type.name().as_str()));
    push_triple(&mut out, s.as_str(), term_exec("resolution"), literal_exec(c.resolution.name().as_str()));
    let ghost a = triple_views(out@);
    if c.message_a.as_str().unicode_len() > 0 {
        push_triple(&mut out, s.as_str(), term_exec("messageA"), iri_exec("message", c.message_a.as_str()));
    }
    let ghost b = triple_views(out@);
    if c.message_b.as_str().unicode_len() > 0 {
        push_triple(&mut out, s.as_str(), term_exec("messageB"), iri_exec("message", c.message_b.as_str()));
    }
    let ghost d = triple_views(out@);
    push_triple(&mut out, s.as_str(), term_exec("createdAt"), literal_exec(c.created_at.as_str()));
    proof {
        let ss = s@;
        assert(b =~= a + when(c.message_a@.len() > 0, (ss, term("messageA"@), iri("message"@, c.message_a@))));
        assert(d =~= b + when(c.message_b@.len() > 0, (ss, term("messageB"@), iri("message"@, c.message_b@))));
        assert(triple_views(out@) =~= conflict_triples(*c));
    }
    out
}

// ---------- reading back ----------

/// `str::replace("\\\"", "\"")`: each `\"` becomes `"`.
pub open spec fn unescape_quotes(s: Seq<char>) -> Seq<char>
    decreases s.len(),
{
    if s.len() == 0 {
        s
    } else if s.len() >= 2 && s[0] == '\\' && s[1] == '"' {
        seq!['"'] + unescape_quotes(s.skip(2))
    } else {
        seq![s[0]] + unescape_quotes(s.skip(1))
    }
}

/// A stored term as text: surrounding quotes removed (when both are
/// there), inner `\"` unescaped.
pub open spec fn unquote_text(s: Seq<char>) -> Seq<char> {
    let t = if s.len() >= 2 && s[0] == '"' && s[s.len() - 1] == '"' {
        s.subrange(1, s.len() - 1)
    } else {
        s
    };
    unescape_quotes(t)
}

pub fn unquote(s: &str) -> (r: String)
    ensures
        r@ == unquote_text(s@),
{
    let v = to_chars(s);
    let n = v.len();
    let t = if n >= 2 && v[0] == '"' && v[n - 1] == '"' {
        slice_of(&v, 1, n - 1)
    } else {
        slice_of(&v, 0, n)
    };
    proof {
        assert(v@.subrange(0, n as int) =~= v@);
    }
    let mut out: Vec<char> = Vec::new();
    let mut i: usize = 0;
    proof {
        assert(t@.skip(0) =~= t@);
    }
    while i < t.len()
        invariant
            i <= t.len(),
            out@ + unescape_quotes(t@.skip(i as int)) == unescape_quotes(t@),
        decreases t.len() - i,
    {
        let ghost rest = t@.skip(i as int);
        if i + 1 < t.len() && t[i] == '\\' && t[i + 1] == '"' {
            proof {
                assert(rest.skip(2) =~= t@.skip(i + 2));
                assert(out@.push('"') + unescape_quotes(t@.skip(i + 2)) =~= out@ + unescape_quotes(rest));
            }
            out.push('"');
            i += 2;
        } else {
            proof {
                assert(rest.skip(1) =~= t@.skip(i + 1));
                assert(rest[0] == t@[i as int]);
                assert(out@.push(t@[i as int]) + unescape_quotes(t@.skip(i + 1)) =~= out@ + unescape_quotes(rest));
            }
            out.push(t[i]);
            i += 1;
        }
    }
    proof {
        assert(t@.skip(t.len() as int) =~= Seq::<char>::empty());
        assert(out@ + Seq::<char>::empty() =~= out@);
    }
    string_of(&out)
}

/// The text after the last `/` (all of it without one).
pub open spec fn last_segment(s: Seq<char>) -> Seq<char> {
    match rindex_of(s, '/') {
        Some(i) => s.skip(i + 1),
        None => s,
    }
}

pub fn strip_iri(s: &str) -> (r: String)
    ensures
        r@ == last_segment(s@),
{
    let v = to_chars(s);
    let mut j: usize = v.len();
    proof {
        assert(v@.take(v.len() as int) =~= v@);
    }
    while j > 0 && v[j - 1] != '/'
        invariant
            j <= v.len(),
            rindex_of(v@, '/') == rindex_of(v@.take(j as int), '/'),
        decreases j,
    {
        proof {
            assert(v@.take(j as int).drop_last() =~= v@.take(j - 1));
        }
        j -= 1;
    }
    if j == 0 {
        proof {
            assert(v@.take(0) =~= Seq::<char>::empty());
            assert(v@.subrange(0, v.len() as int) =~= v@);
        }
        string_of(&slice_of(&v, 0, v.len()))
    } else {
        proof {
            assert(v@.take(j as int).last() == v@[j - 1]);
            assert(v@.subrange(j as int, v.len() as int) =~= v@.skip(j as int));
        }
        string_of(&slice_of(&v, j, v.len()))
    }
}

/// A person read back from its triples.
pub struct PersonScan {
    pub display_name: Seq<char>,
    pub role: Seq<char>,
    pub handles: Seq<(Seq<char>, Seq<char>)>,
}

pub open spec fn person_step(st: PersonScan, attr: (Seq<char>, Seq<char>)) -> PersonScan {
    let val = unquote_text(attr.1);
    if attr.0 == term("displayName"@) {
        PersonScan { display_name: val, ..st }
    } else if attr.0 == term("role"@) {
        PersonScan { role: val, ..st }
    } else {
        match strip_prefix(attr.0, term("handle/"@)) {
            Some(platform) => PersonScan { handles: st.handles.push((platform, val)), ..st },
            None => st,
        }
    }
}

pub open spec fn person_scan(attrs: Seq<(Seq<char>, Seq<char>)>) -> PersonScan
    decreases attrs.len(),
{
    if attrs.len() == 0 {
        PersonScan { display_name: Seq::empty(), role: Seq::empty(), handles: Seq::empty() }
    } else {
        person_step(person_scan(attrs.drop_last()), attrs.last())
    }
}

pub open spec fn pair_views(v: Seq<(String, String)>) -> Seq<(Seq<char>, Seq<char>)> {
    v.map_values(|p: (String, String)| (p.0@, p.1@))
}

pub open spec fn handle_views(v: Seq<Handle>) -> Seq<(Seq<char>, Seq<char>)> {
    v.map_values(|h: Handle| (h.platform@, h.identifier@))
}

/// Rebuilds a person from its subject IRI and its `(predicate, object)`
/// terms in store order: the id is the IRI's last segment; the last
/// display name and role win; every `handle/<platform>` term adds a
/// handle.
pub fn read_person(subject: &str, attrs: &Vec<(String, String)>) -> (p: PersonFacts)
    ensures
        p.id@ == last_segment(subject@),
        p.display_name@ == person_scan(pair_views(attrs@)).display_name,
        p.role@ == person_scan(pair_views(attrs@)).role,
        handle_views(p.handles@) == person_scan(pair_views(attrs@)).handles,
{
    let dn_p = term_exec("displayName");
    let role_p = term_exec("role");
    let handle_p = to_chars(term_exec("handle/").as_str());
    let mut display_name = String::new();
    let mut role = String::new();
    let mut handles: Vec<Handle> = Vec::new();
    let mut i: usize = 0;
    while i < attrs.len()
        invariant
            i <= attrs.len(),
            dn_p@ == term("displayName"@),
            role_p@ == term("role"@),
            handle_p@ == term("handle/"@),
            ({
                let st = person_scan(pair_views(attrs@).take(i as int));
                &&& display_name@ == st.display_name
                &&& role@ == st.role
                &&& handle_views(handles@) == st.handles
            }),
        decreases attrs.len() - i,
    {
        let (pred, obj) = (&attrs[i].0, &attrs[i].1);
        proof {
            let t = pair_views(attrs@).take(i + 1);
            assert(t.drop_last() =~= pair_views(attrs@).take(i as int));
            assert(t.last() == (pred@, obj@));
        }
        let val = unquote(obj.as_str());
        let pv = to_chars(pred.as_str());
        if same(&pv, &to_chars(dn_p.as_str())) {
            display_name = val;
        } else if same(&pv, &to_chars(role_p.as_str())) {
            role = val;
        } else if let Some(platform) = strip_prefix_exec(&pv, &handle_p) {
            let h = Handle { platform: string_of(&platform), identifier: val };
            let ghost before = handles@;
            handles.push(h);
            proof {
                assert(handle_views(handles@) =~= handle_views(before).push((h.platform@, h.identifier@)));
            }
        }
        i += 1;
    }
    proof {
        assert(pair_views(attrs@).take(attrs.len() as int) =~= pair_views(attrs@));
    }
    PersonFacts { id: strip_iri(subject), display_name, role, handles }
}

/// The literal/IRI reading of a resolved query term: a quoted term is a
/// literal (its quotes trimmed), a bare term an IRI.
pub open spec fn term_binding(resolved: Seq<char>) -> (Seq<char>, Seq<char>) {
    if starts_with(resolved, "\""@) {
        ("literal"@, trim_char(resolved, '"'))
    } else {
        ("uri"@, resolved)
    }
}

pub fn binding_value(resolved: &str) -> (r: crate::graph::SparqlValue)
    ensures
        (r.value_type@, r.value@) == term_binding(resolved@),
{
    let v = to_chars(resolved);
    if starts_with_exec(&v, &to_chars("\"")) {
        crate::graph::SparqlValue {
            value_type: string_of(&to_chars("literal")),
            value: string_of(&trim_char_exec(&v, '"')),
        }
    } else {
        crate::graph::SparqlValue { value_type: string_of(&to_chars("uri")), value: string_of(&v) }
    }
}

/// The lines of an N-Triples text that hold triples: trimmed, blank
/// lines and `#` comments dropped.
pub open spec fn triple_lines(text: Seq<char>) -> Seq<Seq<char>> {
    lines(text).map_values(|l: Seq<char>| trim(l)).filter(
        |l: Seq<char>| l.len() > 0 && !starts_with(l, "#"@),
    )
}

pub fn ntriples_lines(text: &str) -> (r: Vec<String>)
    ensures
        r@.map_values(|l: String| l@) == triple_lines(text@),
{
    let ls = lines_of(&to_chars(text));
    let ghost trimmed = views(ls@).map_values(|l: Seq<char>| trim(l));
    let hash = to_chars("#");
    let mut out: Vec<String> = Vec::new();
    let mut i: usize = 0;
    while i < ls.len()
        invariant
            i <= ls.len(),
            hash@ == "#"@,
            views(ls@) == lines(text@),
            trimmed == views(ls@).map_values(|l: Seq<char>| trim(l)),
            out@.map_values(|l: String| l@) == trimmed.take(i as int).filter(
                |l: Seq<char>| l.len() > 0 && !starts_with(l, "#"@),
            ),
        decreases ls.len() - i,
    {
        let l = trim_of(&ls[i]);
        let ghost before = out@;
        proof {
            assert(trimmed.take(i + 1).drop_last() =~= trimmed.take(i as int));
            assert(trimmed.take(i + 1).last() == l@);
            reveal(Seq::filter);
        }
        if l.len() > 0 && !starts_with_exec(&l, &hash) {
            let s = string_of(&l);
            out.push(s);
            proof {
                assert(out@.map_values(|x: String| x@) =~= before.map_values(|x: String| x@).push(s@));
            }
        }
        i += 1;
    }
    proof {
        assert(trimmed.take(ls.len() as int) =~= trimmed);
    }
    out
}

/// `loca:<path>`.
pub fn backend_name(path: &str) -> (r: String)
    ensures
        r@ == "loca:"@ + path@,
{
    crate::text::concat_string(&to_chars("loca:"), &to_chars(path))
}

/// A task read back from its triples; numbers and times stay text
/// (the last `confidence`/`ambiguityScore`/`deadline` term counts, every
/// `createdAt`/`updatedAt` term is kept in order).
pub struct TaskScan {
    pub title: Seq<char>,
    pub description: Seq<char>,
    pub status: TaskStatus,
    pub confidence: Option<Seq<char>>,
    pub ambiguity_score: Option<Seq<char>>,
    pub assigned_to: Seq<char>,
    pub assigned_by: Seq<char>,
    pub deadline: Option<Seq<char>>,
    pub created_at: Seq<Seq<char>>,
    pub updated_at: Seq<Seq<char>>,
    pub source_messages: Seq<Seq<char>>,
}

pub open spec fn task_scan_start() -> TaskScan {
    TaskScan {
        title: Seq::empty(),
        description: Seq::empty(),
        status: TaskStatus::Extracted,
        confidence: None,
        ambiguity_score: None,
        assigned_to: Seq::empty(),
        assigned_by: Seq::empty(),
        deadline: None,
        created_at: Seq::empty(),
        updated_at: Seq::empty(),
        source_messages: Seq::empty(),
    }
}

/// The status named by a stored value, `extracted` when none is.
pub open spec fn status_named(v: Seq<char>) -> TaskStatus {
    if exists|s: TaskStatus| task_status_name(s) == v {
        choose|s: TaskStatus| task_status_name(s) == v
    } else {
        TaskStatus::Extracted
    }
}

pub open spec fn task_step(st: TaskScan, attr: (Seq<char>, Seq<char>)) -> TaskScan {
    let val = unquote_text(attr.1);
    match strip_prefix(attr.0, ns()) {
        Some(name) => if name == "title"@ {
            TaskScan { title: val, ..st }
        } else if name == "description"@ {
            TaskScan { description: val, ..st }
        } else if name == "status"@ {
            TaskScan { status: status_named(val), ..st }
        } else if name == "confidence"@ {
            TaskScan { confidence: Some(val), ..st }
        } else if name == "ambiguityScore"@ {
            TaskScan { ambiguity_score: Some(val), ..st }
        } else if name == "assignedTo"@ {
            TaskScan { assigned_to: last_segment(val), ..st }
        } else if name == "assignedBy"@ {
            TaskScan { assigned_by: last_segment(val), ..st }
        } else if name == "deadline"@ {
            TaskScan { deadline: Some(val), ..st }
        } else if name == "createdAt"@ {
            TaskScan { created_at: st.created_at.push(val), ..st }
        } else if name == "updatedAt"@ {
            TaskScan { updated_at: st.updated_at.push(val), ..st }
        } else if name == "sourceMessage"@ {
            TaskScan { source_messages: st.source_messages.push(last_segment(val)), ..st }
        } else {
            st
        },
        None => st,
    }
}

pub open spec fn task_scan(attrs: Seq<(Seq<char>, Seq<char>)>) -> TaskScan
    decreases attrs.len(),
{
    if attrs.len() == 0 {
        task_scan_start()
    } else {
        task_step(task_scan(attrs.drop_last()), attrs.last())
    }
}

/// A task as read back from the graph (see `TaskScan`); `id` is the
/// subject IRI's last segment.
#[derive(Debug, Clone)]
pub struct TaskRead {
    pub id: String,
    pub title: String,
    pub description: String,
    pub status: TaskStatus,
    pub confidence: Option<String>,
    pub ambiguity_score: Option<String>,
    pub assigned_to: String,
    pub assigned_by: String,
    pub deadline: Option<String>,
    pub created_at: Vec<String>,
    pub updated_at: Vec<String>,
    pub source_messages: Vec<String>,
}

pub open spec fn opt_view(o: Option<String>) -> Option<Seq<char>> {
    match o {
        Some(s) => Some(s@),
        None => None,
    }
}

pub open spec fn strings(v: Seq<String>) -> Seq<Seq<char>> {
    v.map_values(|s: String| s@)
}

impl TaskRead {
    pub open spec fn scan_view(&self) -> TaskScan {
        TaskScan {
            title: self.title@,
            description: self.description@,
            status: self.status,
            confidence: opt_view(self.confidence),
            ambiguity_score: opt_view(self.ambiguity_score),
            assigned_to: self.assigned_to@,
            assigned_by: self.assigned_by@,
            deadline: opt_view(self.deadline),
            created_at: strings(self.created_at@),
            updated_at: strings(self.updated_at@),
            source_messages: strings(self.source_messages@),
        }
    }
}

fn push_string(v: &mut Vec<String>, s: String)
    ensures
        strings(final(v)@) == strings(old(v)@).push(s@),
{
    let ghost before = v@;
    v.push(s);
    proof {
        assert(strings(v@) =~= strings(before).push(s@));
    }
}

fn status_from(val: &str) -> (r: TaskStatus)
    ensures
        r == status_named(val@),
{
    match TaskStatus::from_name(val) {
        Some(s) => {
            proof {
                let c = choose|x: TaskStatus| task_status_name(x) == val@;
                lemma_task_status_names_distinct(s, c);
            }
            s
        },
        None => TaskStatus::Extracted,
    }
}

fn read_task_step(t: &mut TaskRead, pred: &str, obj: &str)
    ensures
        final(t).id == old(t).id,
        final(t).scan_view() == task_step(old(t).scan_view(), (pred@, obj@)),
{
    let val = unquote(obj);
    let name = match strip_prefix_exec(&to_chars(pred), &to_chars(NS)) {
        Some(n) => n,
        None => {
            return;
        },
    };
    if same(&name, &to_chars("title")) {
        t.title = val;
    } else if same(&name, &to_chars("description")) {
        t.description = val;
    } else if same(&name, &to_chars("status")) {
        t.status = status_from(val.as_str());
    } else if same(&name, &to_chars("confidence")) {
        t.confidence = Some(val);
    } else if same(&name, &to_chars("ambiguityScore")) {
        t.ambiguity_score = Some(val);
    } else if same(&name, &to_chars("assignedTo")) {
        t.assigned_to = strip_iri(val.as_str());
    } else if same(&name, &to_chars("assignedBy")) {
        t.assigned_by = strip_iri(val.as_str());
    } else if same(&name, &to_chars("deadline")) {
        t.deadline = Some(val);
    } else if same(&name, &to_chars("createdAt")) {
        push_string(&mut t.created_at, val);
    } else if same(&name, &to_chars("updatedAt")) {
        push_string(&mut t.updated_at, val);
    } else if same(&name, &to_chars("sourceMessage")) {
        push_string(&mut t.source_messages, strip_iri(val.as_str()));
    }
}

/// Rebuilds a task from its subject IRI and its `(predicate, object)`
/// terms in store order.
pub fn read_task(subject: &str, attrs: &Vec<(String, String)>) -> (t: TaskRead)
    ensures
        t.id@ == last_segment(subject@),
        t.scan_view() == task_scan(pair_views(attrs@)),
{
    let mut t = TaskRead {
        id: strip_iri(subject),
        title: String::new(),
        description: String::new(),
        status: TaskStatus::Extracted,
        confidence: None,
        ambiguity_score: None,
        assigned_to: String::new(),
        assigned_by: String::new(),
        deadline: None,
        created_at: Vec::new(),
        updated_at: Vec::new(),
        source_messages: Vec::new(),
    };
    proof {
        assert(t.scan_view() == task_scan_start()) by {
            assert(strings(t.created_at@) =~= Seq::<Seq<char>>::empty());
            assert(strings(t.updated_at@) =~= Seq::<Seq<char>>::empty());
            assert(strings(t.source_messages@) =~= Seq::<Seq<char>>::empty());
        }
        assert(pair_views(attrs@).take(0) =~= Seq::<(Seq<char>, Seq<char>)>::empty());
    }
    let mut i: usize = 0;
    while i < attrs.len()
        invariant
            i <= attrs.len(),
            t.id@ == last_segment(subject@),
            t.scan_view() == task_scan(pair_views(attrs@).take(i as int)),
        decreases attrs.len() - i,
    {
        proof {
            let tk = pair_views(attrs@).take(i + 1);
            assert(tk.drop_last() =~= pair_views(attrs@).take(i as int));
            assert(tk.last() == (attrs@[i as int].0@, attrs@[i as int].1@));
        }
        read_task_step(&mut t, attrs[i].0.as_str(), attrs[i].1.as_str());
        i += 1;
    }
    proof {
        assert(pair_views(attrs@).take(attrs.len() as int) =~= pair_views(attrs@));
    }
    t
}

// ---------- what a read gives back of a store ----------

proof fn lemma_unescape_append(a: Seq<char>, b: Seq<char>)
    requires
        !(a.len() > 0 && a.last() == '\\' && b.len() > 0 && b[0] == '"'),
    ensures
        unescape_quotes(a + b) == unescape_quotes(a) + unescape_quotes(b),
    decreases a.len(),
{
    if a.len() == 0 {
        assert(a + b =~= b);
        assert(unescape_quotes(a) =~= Seq::<char>::empty());
        assert(Seq::<char>::empty() + unescape_quotes(b) =~= unescape_quotes(b));
    } else if a.len() >= 2 && a[0] == '\\' && a[1] == '"' {
        assert((a + b).skip(2) =~= a.skip(2) + b);
        lemma_unescape_append(a.skip(2), b);
        assert(seq!['"'] + (unescape_quotes(a.skip(2)) + unescape_quotes(b)) =~= seq!['"']
            + unescape_quotes(a.skip(2)) + unescape_quotes(b));
    } else if a.len() == 1 {
        assert((a + b).skip(1) =~= b);
        assert(a.skip(1) =~= Seq::<char>::empty());
        assert(unescape_quotes(Seq::<char>::empty()) =~= Seq::<char>::empty());
        assert(unescape_quotes(a) =~= seq![a[0]]);
    } else {
        assert((a + b).skip(1) =~= a.skip(1) + b);
        lemma_unescape_append(a.skip(1), b);
        assert(seq![a[0]] + (unescape_quotes(a.skip(1)) + unescape_quotes(b)) =~= seq![a[0]]
            + unescape_quotes(a.skip(1)) + unescape_quotes(b));
    }
}

proof fn lemma_escape_first(v: Seq<char>)
    ensures
        replace_char(v, '"', "\\\""@).len() > 0 ==> replace_char(v, '"', "\\\""@)[0] != '"',
    decreases v.len(),
{
    reveal_strlit("\\\"");
    if v.len() > 0 {
        let dl = v.drop_last();
        let piece = if v.last() == '"' {
            "\\\""@
        } else {
            seq![v.last()]
        };
        let rd = replace_char(dl, '"', "\\\""@);
        assert(replace_char(v, '"', "\\\""@) == rd + piece);
        if rd.len() > 0 {
            lemma_escape_first(dl);
            assert((rd + piece)[0] == rd[0]);
        } else {
            assert((rd + piece)[0] == piece[0]);
        }
    }
}

/// A stored conflict keeps every field: its type triple, its explanation,
/// type, resolution and creation time as literals, and a link to each
/// message it names, all about the conflict's own IRI; nothing else.
pub proof fn lemma_conflict_triples_complete(c: ConflictFacts)
    ensures
        ({
            let subj = "http://querykey.dev/ns/conflict/"@ + c.id@;
            let ts = conflict_triples(c);
            &&& ts.contains((subj, rdf_type(), "http://querykey.dev/ns/Conflict"@))
            &&& ts.contains((subj, "http://querykey.dev/ns/explanation"@, literal(c.explanation@)))
            &&& ts.contains(
                (subj, "http://querykey.dev/ns/conflictType"@, literal(conflict_type_name(c.conflict_type))),
            )
            &&& ts.contains(
                (subj, "http://querykey.dev/ns/resolution"@, literal(resolution_name(c.resolution))),
            )
            &&& ts.contains((subj, "http://querykey.dev/ns/createdAt"@, literal(c.created_at@)))
            &&& (c.message_a@.len() > 0 ==> ts.contains(
                (subj, "http://querykey.dev/ns/messageA"@, "http://querykey.dev/ns/message/"@ + c.message_a@),
            ))
            &&& (c.message_b@.len() > 0 ==> ts.contains(
                (subj, "http://querykey.dev/ns/messageB"@, "http://querykey.dev/ns/message/"@ + c.message_b@),
            ))
            &&& ts.len() == 5 + (if c.message_a@.len() > 0 {
                1int
            } else {
                0int
            }) + (if c.message_b@.len() > 0 {
                1int
            } else {
                0int
            })
            &&& forall|k: int| 0 <= k < ts.len() ==> (#[trigger] ts[k]).0 == subj
        }),
{
    reveal_strlit("http://querykey.dev/ns/");
    reveal_strlit("http://querykey.dev/ns/conflict/");
    reveal_strlit("http://querykey.dev/ns/Conflict");
    reveal_strlit("http://querykey.dev/ns/explanation");
    reveal_strlit("http://querykey.dev/ns/conflictType");
    reveal_strlit("http://querykey.dev/ns/resolution");
    reveal_strlit("http://querykey.dev/ns/createdAt");
    reveal_strlit("http://querykey.dev/ns/messageA");
    reveal_strlit("http://querykey.dev/ns/messageB");
    reveal_strlit("http://querykey.dev/ns/message/");
    reveal_strlit("conflict");
    reveal_strlit("message");
    reveal_strlit("/");
    reveal_strlit("Conflict");
    reveal_strlit("explanation");
    reveal_strlit("conflictType");
    reveal_strlit("resolution");
    reveal_strlit("createdAt");
    reveal_strlit("messageA");
    reveal_strlit("messageB");
    let subj = "http://querykey.dev/ns/conflict/"@ + c.id@;
    assert(iri("conflict"@, c.id@) =~= subj);
    assert(term("Conflict"@) =~= "http://querykey.dev/ns/Conflict"@);
    assert(term("explanation"@) =~= "http://querykey.dev/ns/explanation"@);
    assert(term("conflictType"@) =~= "http://querykey.dev/ns/conflictType"@);
    assert(term("resolution"@) =~= "http://querykey.dev/ns/resolution"@);
    assert(term("createdAt"@) =~= "http://querykey.dev/ns/createdAt"@);
    assert(term("messageA"@) =~= "http://querykey.dev/ns/messageA"@);
    assert(term("messageB"@) =~= "http://querykey.dev/ns/messageB"@);
    assert(iri("message"@, c.message_a@) =~= "http://querykey.dev/ns/message/"@ + c.message_a@);
    assert(iri("message"@, c.message_b@) =~= "http://querykey.dev/ns/message/"@ + c.message_b@);
    let ts = conflict_triples(c);
    let na: int = if c.message_a@.len() > 0 {
        1
    } else {
        0
    };
    let nb: int = if c.message_b@.len() > 0 {
        1
    } else {
        0
    };
    assert(ts.len() == 5 + na + nb);
    assert(ts[0] == (subj, rdf_type(), "http://querykey.dev/ns/Conflict"@));
    assert(ts[1] == (subj, "http://querykey.dev/ns/explanation"@, literal(c.explanation@)));
    assert(ts[2] == (subj, "http://querykey.dev/ns/conflictType"@, literal(conflict_type_name(c.conflict_type))));
    assert(ts[3] == (subj, "http://querykey.dev/ns/resolution"@, literal(resolution_name(c.resolution))));
    assert(ts[4 + na + nb] == (subj, "http://querykey.dev/ns/createdAt"@, literal(c.created_at@)));
    if na == 1 {
        assert(ts[4] == (subj, "http://querykey.dev/ns/messageA"@, "http://querykey.dev/ns/message/"@ + c.message_a@));
    }
    if nb == 1 {
        assert(ts[4 + na] == (subj, "http://querykey.dev/ns/messageB"@, "http://querykey.dev/ns/message/"@ + c.message_b@));
    }
    assert forall|k: int| 0 <= k < ts.len() implies (#[trigger] ts[k]).0 == subj by {}
}

/// Escaping a literal's quotes and unescaping them gives the text back.
pub proof fn lemma_unescape_escape(v: Seq<char>)
    ensures
        unescape_quotes(replace_char(v, '"', "\\\""@)) == v,
    decreases v.len(),
{
    reveal_strlit("\\\"");
    if v.len() == 0 {
        assert(unescape_quotes(Seq::<char>::empty()) =~= v);
    } else {
        let dl = v.drop_last();
        let piece = if v.last() == '"' {
            "\\\""@
        } else {
            seq![v.last()]
        };
        lemma_unescape_escape(dl);
        lemma_escape_first(dl);
        assert(piece[0] != '"' || v.last() != '"');
        lemma_unescape_append(replace_char(dl, '"', "\\\""@), piece);
        if v.last() == '"' {
            assert(piece.skip(2) =~= Seq::<char>::empty());
            assert(unescape_quotes(Seq::<char>::empty()) =~= Seq::<char>::empty());
            assert(unescape_quotes(piece) =~= seq!['"']);
        } else {
            assert(piece.skip(1) =~= Seq::<char>::empty());
            assert(unescape_quotes(Seq::<char>::empty()) =~= Seq::<char>::empty());
            assert(unescape_quotes(piece) =~= seq![v.last()]);
        }
        assert(dl + seq![v.last()] =~= v);
    }
}

/// A stored literal reads back as its text.
pub proof fn lemma_unquote_literal(v: Seq<char>)
    ensures
        unquote_text(literal(v)) == v,
{
    reveal_strlit("\"");
    let l = literal(v);
    let e = replace_char(v, '"', "\\\""@);
    assert(l.subrange(1, l.len() - 1) =~= e);
    lemma_unescape_escape(v);
}

proof fn lemma_rindex_after(a: Seq<char>, b: Seq<char>, c: char)
    requires
        a.len() > 0,
        a.last() == c,
        forall|k: int| 0 <= k < b.len() ==> b[k] != c,
    ensures
        rindex_of(a + b, c) == Some(a.len() - 1),
    decreases b.len(),
{
    if b.len() == 0 {
        assert(a + b =~= a);
    } else {
        assert((a + b).drop_last() =~= a + b.drop_last());
        assert((a + b).last() == b.last());
        lemma_rindex_after(a, b.drop_last(), c);
    }
}

/// An id without `/` is the last segment of its IRI.
pub proof fn lemma_last_segment_iri(kind: Seq<char>, id: Seq<char>)
    requires
        forall|k: int| 0 <= k < id.len() ==> id[k] != '/',
    ensures
        last_segment(iri(kind, id)) == id,
{
    reveal_strlit("/");
    let a = ns() + kind + "/"@;
    assert(iri(kind, id) =~= a + id);
    lemma_rindex_after(a, id, '/');
    assert((a + id).skip(a.len() as int) =~= id);
}

pub open spec fn attr_views(ts: Seq<TripleV>) -> Seq<(Seq<char>, Seq<char>)> {
    ts.map_values(|t: TripleV| (t.1, t.2))
}

pub open spec fn no_slash(x: Seq<char>) -> bool {
    forall|k: int| 0 <= k < x.len() ==> x[k] != '/'
}

proof fn lemma_term_heads()
    ensures
        term("displayName"@)[ns().len() as int] == 'd',
        term("role"@)[ns().len() as int] == 'r',
        term("handle/"@).len() == ns().len() + 7,
        rdf_type()[7] == 'w',
        rdf_type().len() == 47,
        ns()[7] == 'q',
        ns().len() == 23,
{
    reveal_strlit("http://querykey.dev/ns/");
    reveal_strlit("displayName");
    reveal_strlit("role");
    reveal_strlit("handle/");
    reveal_strlit("http://www.w3.org/1999/02/22-rdf-syntax-ns#type");
}

proof fn lemma_person_scan_push(a: Seq<(Seq<char>, Seq<char>)>, x: (Seq<char>, Seq<char>))
    ensures
        person_scan(a.push(x)) == person_step(person_scan(a), x),
{
    assert(a.push(x).drop_last() =~= a);
}

proof fn lemma_person_handles(
    pre: Seq<(Seq<char>, Seq<char>)>,
    s: Seq<char>,
    hs: Seq<Handle>,
)
    ensures
        person_scan(pre + attr_views(handle_triples(s, hs))) == (PersonScan {
            handles: person_scan(pre).handles + handle_views(hs),
            ..person_scan(pre)
        }),
    decreases hs.len(),
{
    if hs.len() == 0 {
        assert(pre + attr_views(handle_triples(s, hs)) =~= pre);
        assert(person_scan(pre).handles + handle_views(hs) =~= person_scan(pre).handles);
    } else {
        let dl = hs.drop_last();
        let h = hs.last();
        lemma_person_handles(pre, s, dl);
        let x = (term("handle/"@ + h.platform@), literal(h.identifier@));
        assert(pre + attr_views(handle_triples(s, hs)) =~= (pre + attr_views(handle_triples(s, dl))).push(x));
        lemma_person_scan_push(pre + attr_views(handle_triples(s, dl)), x);
        lemma_term_heads();
        reveal_strlit("handle/");
        let p = term("handle/"@);
        assert(x.0 =~= p + h.platform@);
        assert(x.0[ns().len() as int] == 'h');
        assert(x.0 != term("displayName"@));
        assert(x.0 != term("role"@));
        assert(x.0.take(p.len() as int) =~= p);
        assert(x.0.skip(p.len() as int) =~= h.platform@);
        lemma_unquote_literal(h.identifier@);
        assert(handle_views(hs) =~= handle_views(dl).push((h.platform@, h.identifier@)));
        assert(person_scan(pre).handles + handle_views(hs) =~= (person_scan(pre).handles
            + handle_views(dl)).push((h.platform@, h.identifier@)));
    }
}

/// What the graph gives back of a stored person: reading the person's
/// triples returns the stored display name, role and handles (and the
/// id, when it has no `/`).
pub proof fn lemma_person_read_back(
    id: Seq<char>,
    display_name: Seq<char>,
    role: Seq<char>,
    handles: Seq<Handle>,
)
    ensures
        person_scan(attr_views(person_triples(id, display_name, role, handles))) == (PersonScan {
            display_name,
            role,
            handles: handle_views(handles),
        }),
        no_slash(id) ==> last_segment(iri("person"@, id)) == id,
{
    if no_slash(id) {
        lemma_last_segment_iri("person"@, id);
    }
    lemma_term_heads();
    reveal_strlit("http://querykey.dev/ns/");
    reveal_strlit("handle/");
    let s = iri("person"@, id);
    let t0 = (rdf_type(), term("Person"@));
    let t1 = (term("displayName"@), literal(display_name));
    let e = Seq::<(Seq<char>, Seq<char>)>::empty();
    let st0 = person_scan(e);
    // the type triple changes nothing
    assert(t0.0[7] != term("displayName"@)[7]);
    assert(t0.0[7] != term("role"@)[7]);
    assert(t0.0 != term("displayName"@));
    assert(t0.0 != term("role"@));
    assert(term("handle/"@)[7] == ns()[7]);
    assert(t0.0.take(term("handle/"@).len() as int)[7] == t0.0[7]);
    assert(t0.0.take(term("handle/"@).len() as int)[7] != term("handle/"@)[7]);
    lemma_person_scan_push(e, t0);
    assert(e.push(t0) =~= seq![t0]);
    lemma_person_scan_push(seq![t0], t1);
    assert(seq![t0].push(t1) =~= seq![t0, t1]);
    lemma_unquote_literal(display_name);
    let head = if role.len() > 0 {
        seq![t0, t1, (term("role"@), literal(role))]
    } else {
        seq![t0, t1]
    };
    if role.len() > 0 {
        let t2 = (term("role"@), literal(role));
        assert(t2.0 != term("displayName"@)) by {
            assert(t2.0[ns().len() as int] != term("displayName"@)[ns().len() as int]);
        }
        lemma_person_scan_push(seq![t0, t1], t2);
        assert(seq![t0, t1].push(t2) =~= head);
        lemma_unquote_literal(role);
    } else {
        assert(role =~= Seq::<char>::empty());
    }
    assert(person_scan(head) == (PersonScan { display_name, role, handles: Seq::empty() }));
    let whole = person_triples(id, display_name, role, handles);
    assert(attr_views(whole) =~= head + attr_views(handle_triples(s, handles)));
    lemma_person_handles(head, s, handles);
    assert(Seq::<(Seq<char>, Seq<char>)>::empty() + handle_views(handles) =~= handle_views(handles));
}

/// No `\"` in `x` (so reading it back unescapes nothing).
pub open spec fn no_escaped_quote(x: Seq<char>) -> bool {
    forall|k: int| 0 <= k < x.len() - 1 ==> !(#[trigger] x[k] == '\\' && x[k + 1] == '"')
}

/// An id that reads back from the IRI it is stored as.
pub open spec fn ref_safe(x: Seq<char>) -> bool {
    no_slash(x) && no_escaped_quote(x)
}

proof fn lemma_unescape_plain(x: Seq<char>)
    requires
        no_escaped_quote(x),
    ensures
        unescape_quotes(x) == x,
    decreases x.len(),
{
    if x.len() == 0 {
    } else {
        let r = x.skip(1);
        assert(no_escaped_quote(r)) by {
            assert forall|k: int| 0 <= k < r.len() - 1 implies !(#[trigger] r[k] == '\\' && r[k + 1] == '"') by {
                assert(r[k] == x[k + 1] && r[k + 1] == x[k + 2]);
            }
        }
        lemma_unescape_plain(r);
        assert(seq![x[0]] + r =~= x);
    }
}

/// A reference stored as an IRI reads back as the id.
proof fn lemma_iri_read_back(kind: Seq<char>, x: Seq<char>)
    requires
        ref_safe(x),
        forall|k: int| 0 <= k < kind.len() ==> kind[k] != '\\' && kind[k] != '"',
    ensures
        last_segment(unquote_text(iri(kind, x))) == x,
{
    reveal_strlit("http://querykey.dev/ns/");
    reveal_strlit("/");
    let p = ns() + kind + "/"@;
    let i = iri(kind, x);
    assert(i =~= p + x);
    assert(i[0] == 'h');
    assert(no_escaped_quote(p)) by {
        assert forall|k: int| 0 <= k < p.len() - 1 implies !(#[trigger] p[k] == '\\' && p[k + 1] == '"') by {
            if k < ns().len() {
            } else if k < ns().len() + kind.len() {
                assert(p[k] == kind[k - ns().len()]);
            }
        }
    }
    lemma_unescape_plain(p);
    lemma_unescape_plain(x);
    lemma_unescape_append(p, x);
    lemma_last_segment_iri(kind, x);
}

proof fn lemma_task_scan_push(a: Seq<(Seq<char>, Seq<char>)>, x: (Seq<char>, Seq<char>))
    ensures
        task_scan(a.push(x)) == task_step(task_scan(a), x),
{
    assert(a.push(x).drop_last() =~= a);
}

proof fn lemma_strip_ns(name: Seq<char>)
    ensures
        strip_prefix(term(name), ns()) == Some(name),
{
    assert(term(name).take(ns().len() as int) =~= ns());
    assert(term(name).skip(ns().len() as int) =~= name);
}

proof fn lemma_task_names()
    ensures
        "title"@ != "description"@,
        "status"@ != "title"@,
        "status"@ != "description"@,
        "confidence"@ != "title"@,
        "confidence"@ != "description"@,
        "confidence"@ != "status"@,
        "ambiguityScore"@ != "title"@,
        "ambiguityScore"@ != "description"@,
        "ambiguityScore"@ != "status"@,
        "ambiguityScore"@ != "confidence"@,
        "assignedTo"@ != "title"@,
        "assignedTo"@ != "description"@,
        "assignedTo"@ != "status"@,
        "assignedTo"@ != "confidence"@,
        "assignedTo"@ != "ambiguityScore"@,
        "assignedBy"@ != "title"@,
        "assignedBy"@ != "description"@,
        "assignedBy"@ != "status"@,
        "assignedBy"@ != "confidence"@,
        "assignedBy"@ != "ambiguityScore"@,
        "assignedBy"@ != "assignedTo"@,
        "deadline"@ != "title"@,
        "deadline"@ != "description"@,
        "deadline"@ != "status"@,
        "deadline"@ != "confidence"@,
        "deadline"@ != "ambiguityScore"@,
        "deadline"@ != "assignedTo"@,
        "deadline"@ != "assignedBy"@,
        "createdAt"@ != "title"@,
        "createdAt"@ != "description"@,
        "createdAt"@ != "status"@,
        "createdAt"@ != "confidence"@,
        "createdAt"@ != "ambiguityScore"@,
        "createdAt"@ != "assignedTo"@,
        "createdAt"@ != "assignedBy"@,
        "createdAt"@ != "deadline"@,
        "updatedAt"@ != "title"@,
        "updatedAt"@ != "description"@,
        "updatedAt"@ != "status"@,
        "updatedAt"@ != "confidence"@,
        "updatedAt"@ != "ambiguityScore"@,
        "updatedAt"@ != "assignedTo"@,
        "updatedAt"@ != "assignedBy"@,
        "updatedAt"@ != "deadline"@,
        "updatedAt"@ != "createdAt"@,
        "sourceMessage"@ != "title"@,
        "sourceMessage"@ != "description"@,
        "sourceMessage"@ != "status"@,
        "sourceMessage"@ != "confidence"@,
        "sourceMessage"@ != "ambiguityScore"@,
        "sourceMessage"@ != "assignedTo"@,
        "sourceMessage"@ != "assignedBy"@,
        "sourceMessage"@ != "deadline"@,
        "sourceMessage"@ != "createdAt"@,
        "sourceMessage"@ != "updatedAt"@,
{
    reveal_strlit("title");
    reveal_strlit("description");
    reveal_strlit("status");
    reveal_strlit("confidence");
    reveal_strlit("ambiguityScore");
    reveal_strlit("assignedTo");
    reveal_strlit("assignedBy");
    reveal_strlit("deadline");
    reveal_strlit("createdAt");
    reveal_strlit("updatedAt");
    reveal_strlit("sourceMessage");
    assert("title"@.len() != "description"@.len());
    assert("status"@.len() != "title"@.len());
    assert("status"@.len() != "description"@.len());
    assert("confidence"@.len() != "title"@.len());
    assert("confidence"@.len() != "description"@.len());
    assert("confidence"@.len() != "status"@.len());
    assert("ambiguityScore"@.len() != "title"@.len());
    assert("ambiguityScore"@.len() != "description"@.len());
    assert("ambiguityScore"@.len() != "status"@.len());
    assert("ambiguityScore"@.len() != "confidence"@.len());
    assert("assignedTo"@.len() != "title"@.len());
    assert("assignedTo"@.len() != "description"@.len());
    assert("assignedTo"@.len() != "status"@.len());
    assert("assignedTo"@[0] != "confidence"@[0]);
    assert("assignedTo"@.len() != "ambiguityScore"@.len());
    assert("assignedBy"@.len() != "title"@.len());
    assert("assignedBy"@.len() != "description"@.len());
    assert("assignedBy"@.len() != "status"@.len());
    assert("assignedBy"@[0] != "confidence"@[0]);
    assert("assignedBy"@.len() != "ambiguityScore"@.len());
    assert("assignedBy"@[8] != "assignedTo"@[8]);
    assert("deadline"@.len() != "title"@.len());
    assert("deadline"@.len() != "description"@.len());
    assert("deadline"@.len() != "status"@.len());
    assert("deadline"@.len() != "confidence"@.len());
    assert("deadline"@.len() != "ambiguityScore"@.len());
    assert("deadline"@.len() != "assignedTo"@.len());
    assert("deadline"@.len() != "assignedBy"@.len());
    assert("createdAt"@.len() != "title"@.len());
    assert("createdAt"@.len() != "description"@.len());
    assert("createdAt"@.len() != "status"@.len());
    assert("createdAt"@.len() != "confidence"@.len());
    assert("createdAt"@.len() != "ambiguityScore"@.len());
    assert("createdAt"@.len() != "assignedTo"@.len());
    assert("createdAt"@.len() != "assignedBy"@.len());
    assert("createdAt"@.len() != "deadline"@.len());
    assert("updatedAt"@.len() != "title"@.len());
    assert("updatedAt"@.len() != "description"@.len());
    assert("updatedAt"@.len() != "status"@.len());
    assert("updatedAt"@.len() != "confidence"@.len());
    assert("updatedAt"@.len() != "ambiguityScore"@.len());
    assert("updatedAt"@.len() != "assignedTo"@.len());
    assert("updatedAt"@.len() != "assignedBy"@.len());
    assert("updatedAt"@.len() != "deadline"@.len());
    assert("updatedAt"@[0] != "createdAt"@[0]);
    assert("sourceMessage"@.len() != "title"@.len());
    assert("sourceMessage"@.len() != "description"@.len());
    assert("sourceMessage"@.len() != "status"@.len());
    assert("sourceMessage"@.len() != "confidence"@.len());
    assert("sourceMessage"@.len() != "ambiguityScore"@.len());
    assert("sourceMessage"@.len() != "assignedTo"@.len());
    assert("sourceMessage"@.len() != "assignedBy"@.len());
    assert("sourceMessage"@.len() != "deadline"@.len());
    assert("sourceMessage"@.len() != "createdAt"@.len());
    assert("sourceMessage"@.len() != "updatedAt"@.len());
}

proof fn lemma_type_triple_ignored(st: TaskScan, kind_class: Seq<char>)
    ensures
        task_step(st, (rdf_type(), kind_class)) == st,
{
    lemma_term_heads();
    assert(rdf_type().take(ns().len() as int)[7] == rdf_type()[7]);
    assert(rdf_type().take(ns().len() as int)[7] != ns()[7]);
}

proof fn lemma_task_core(s: Seq<char>, t: TaskFacts)
    ensures
        task_scan(attr_views(task_core(s, t))) == (TaskScan {
            title: t.title@,
            description: t.description@,
            status: t.status,
            confidence: Some(t.confidence@),
            ambiguity_score: Some(t.ambiguity_score@),
            created_at: seq![t.created_at@],
            updated_at: seq![t.updated_at@],
            ..task_scan_start()
        }),
{
    lemma_task_names();
    let e = Seq::<(Seq<char>, Seq<char>)>::empty();
    let a0 = (rdf_type(), term("Task"@));
    let a1 = (term("title"@), literal(t.title@));
    let a2 = (term("description"@), literal(t.description@));
    let a3 = (term("status"@), literal(task_status_name(t.status)));
    let a4 = (term("confidence"@), literal(t.confidence@));
    let a5 = (term("ambiguityScore"@), literal(t.ambiguity_score@));
    let a6 = (term("createdAt"@), literal(t.created_at@));
    let a7 = (term("updatedAt"@), literal(t.updated_at@));
    lemma_strip_ns("title"@);
    lemma_strip_ns("description"@);
    lemma_strip_ns("status"@);
    lemma_strip_ns("confidence"@);
    lemma_strip_ns("ambiguityScore"@);
    lemma_strip_ns("createdAt"@);
    lemma_strip_ns("updatedAt"@);
    lemma_unquote_literal(t.title@);
    lemma_unquote_literal(t.description@);
    lemma_unquote_literal(task_status_name(t.status));
    lemma_unquote_literal(t.confidence@);
    lemma_unquote_literal(t.ambiguity_score@);
    lemma_unquote_literal(t.created_at@);
    lemma_unquote_literal(t.updated_at@);
    assert(status_named(task_status_name(t.status)) == t.status) by {
        let c = choose|x: TaskStatus| #[trigger] task_status_name(x) == task_status_name(t.status);
        lemma_task_status_names_distinct(c, t.status);
    }
    lemma_task_scan_push(e, a0);
    lemma_type_triple_ignored(task_scan(e), term("Task"@));
    let p1 = e.push(a0).push(a1);
    lemma_task_scan_push(e.push(a0), a1);
    let p2 = if t.description@.len() > 0 {
        p1.push(a2)
    } else {
        p1
    };
    if t.description@.len() > 0 {
        lemma_task_scan_push(p1, a2);
    } else {
        assert(t.description@ =~= Seq::<char>::empty());
    }
    lemma_task_scan_push(p2, a3);
    lemma_task_scan_push(p2.push(a3), a4);
    lemma_task_scan_push(p2.push(a3).push(a4), a5);
    lemma_task_scan_push(p2.push(a3).push(a4).push(a5), a6);
    lemma_task_scan_push(p2.push(a3).push(a4).push(a5).push(a6), a7);
    assert(attr_views(task_core(s, t)) =~= p2.push(a3).push(a4).push(a5).push(a6).push(a7));
    assert(Seq::<Seq<char>>::empty().push(t.created_at@) =~= seq![t.created_at@]);
    assert(Seq::<Seq<char>>::empty().push(t.updated_at@) =~= seq![t.updated_at@]);
}

proof fn lemma_task_links(pre: Seq<(Seq<char>, Seq<char>)>, s: Seq<char>, t: TaskFacts)
    requires
        ref_safe(t.assigned_to@),
        ref_safe(t.assigned_by@),
    ensures
        task_scan(pre + attr_views(task_links(s, t))) == (TaskScan {
            assigned_to: if t.assigned_to@.len() > 0 {
                t.assigned_to@
            } else {
                task_scan(pre).assigned_to
            },
            assigned_by: if t.assigned_by@.len() > 0 {
                t.assigned_by@
            } else {
                task_scan(pre).assigned_by
            },
            deadline: match t.deadline {
                Some(d) => Some(d@),
                None => task_scan(pre).deadline,
            },
            ..task_scan(pre)
        }),
{
    lemma_task_names();
    reveal_strlit("person");
    let b1 = (term("assignedTo"@), iri("person"@, t.assigned_to@));
    let b2 = (term("assignedBy"@), iri("person"@, t.assigned_by@));
    lemma_strip_ns("assignedTo"@);
    lemma_strip_ns("assignedBy"@);
    lemma_strip_ns("deadline"@);
    lemma_iri_read_back("person"@, t.assigned_to@);
    lemma_iri_read_back("person"@, t.assigned_by@);
    let q1 = if t.assigned_to@.len() > 0 {
        pre.push(b1)
    } else {
        pre
    };
    if t.assigned_to@.len() > 0 {
        lemma_task_scan_push(pre, b1);
    }
    let q2 = if t.assigned_by@.len() > 0 {
        q1.push(b2)
    } else {
        q1
    };
    if t.assigned_by@.len() > 0 {
        lemma_task_scan_push(q1, b2);
    }
    let q3 = match t.deadline {
        Some(d) => q2.push((term("deadline"@), literal(d@))),
        None => q2,
    };
    match t.deadline {
        Some(d) => {
            lemma_unquote_literal(d@);
            lemma_task_scan_push(q2, (term("deadline"@), literal(d@)));
        },
        None => {},
    }
    assert(pre + attr_views(task_links(s, t)) =~= q3);
}

proof fn lemma_task_sources(pre: Seq<(Seq<char>, Seq<char>)>, s: Seq<char>, ms: Seq<String>)
    requires
        forall|k: int| 0 <= k < ms.len() ==> ref_safe(#[trigger] ms[k]@),
    ensures
        task_scan(pre + attr_views(source_triples(s, ms))) == (TaskScan {
            source_messages: task_scan(pre).source_messages + strings(ms),
            ..task_scan(pre)
        }),
    decreases ms.len(),
{
    if ms.len() == 0 {
        assert(pre + attr_views(source_triples(s, ms)) =~= pre);
        assert(task_scan(pre).source_messages + strings(ms) =~= task_scan(pre).source_messages);
    } else {
        let dl = ms.drop_last();
        let m = ms.last();
        assert forall|k: int| 0 <= k < dl.len() implies ref_safe(#[trigger] dl[k]@) by {
            assert(dl[k] == ms[k]);
        }
        assert(ref_safe(ms[ms.len() - 1]@));
        lemma_task_sources(pre, s, dl);
        let x = (term("sourceMessage"@), iri("message"@, m@));
        assert(pre + attr_views(source_triples(s, ms)) =~= (pre + attr_views(source_triples(s, dl))).push(x));
        lemma_task_scan_push(pre + attr_views(source_triples(s, dl)), x);
        lemma_task_names();
        lemma_strip_ns("sourceMessage"@);
        reveal_strlit("message");
        lemma_iri_read_back("message"@, m@);
        assert(strings(ms) =~= strings(dl).push(m@));
        assert(task_scan(pre).source_messages + strings(ms) =~= (task_scan(pre).source_messages
            + strings(dl)).push(m@));
    }
}

/// The fields a stored task reads back as.
pub open spec fn task_read_view(t: TaskFacts) -> TaskScan {
    TaskScan {
        title: t.title@,
        description: t.description@,
        status: t.status,
        confidence: Some(t.confidence@),
        ambiguity_score: Some(t.ambiguity_score@),
        assigned_to: t.assigned_to@,
        assigned_by: t.assigned_by@,
        deadline: opt_view(t.deadline),
        created_at: seq![t.created_at@],
        updated_at: seq![t.updated_at@],
        source_messages: strings(t.source_messages@),
    }
}

/// What the graph gives back of a stored task: reading the task's
/// triples returns every stored field (the id too, when it has no `/`),
/// provided the people and messages it links to are ids that read back
/// from their IRIs.
pub proof fn lemma_task_read_back(t: TaskFacts)
    requires
        ref_safe(t.assigned_to@),
        ref_safe(t.assigned_by@),
        forall|k: int| 0 <= k < t.source_messages@.len() ==> ref_safe(#[trigger] t.source_messages@[k]@),
    ensures
        task_scan(attr_views(task_triples(t))) == task_read_view(t),
        no_slash(t.id@) ==> last_segment(iri("task"@, t.id@)) == t.id@,
{
    if no_slash(t.id@) {
        lemma_last_segment_iri("task"@, t.id@);
    }
    let s = iri("task"@, t.id@);
    let core = attr_views(task_core(s, t));
    lemma_task_core(s, t);
    lemma_task_links(core, s, t);
    let mid = core + attr_views(task_links(s, t));
    lemma_task_sources(mid, s, t.source_messages@);
    assert(attr_views(task_triples(t)) =~= mid + attr_views(source_triples(s, t.source_messages@)));
    if t.assigned_to@.len() == 0 {
        assert(t.assigned_to@ =~= Seq::<char>::empty());
    }
    if t.assigned_by@.len() == 0 {
        assert(t.assigned_by@ =~= Seq::<char>::empty());
    }
    assert(Seq::<Seq<char>>::empty() + strings(t.source_messages@) =~= strings(t.source_messages@));
}
} // verus!
