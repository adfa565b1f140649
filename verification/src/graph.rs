//! The derived graph: N-Triples projection of the vault's wikilink
//! edges, and the shape of SPARQL SELECT results.
use vstd::prelude::*;

use crate::text::{append_chars, concat_all, replace_char, replace_char_exec, string_of, to_chars};
use crate::vault::{EdgeV, LinkEdge, edge_views};

verus! {

/// Graph IRI namespace.
pub const NS: &'static str = "http://querykey.dev/ns/";

pub open spec fn ns() -> Seq<char> {
    "http://querykey.dev/ns/"@
}

/// Escapes `\` and `"` for an N-Triples literal.
pub open spec fn escape_literal(s: Seq<char>) -> Seq<char> {
    replace_char(replace_char(s, '\\', "\\\\"@), '"', "\\\""@)
}

/// `<NS kind/id>` with spaces in the id written `%20`.
pub open spec fn entity_iri(kind: Seq<char>, id: Seq<char>) -> Seq<char> {
    "<"@ + ns() + kind + "/"@ + replace_char(id, ' ', "%20"@) + ">"@
}

/// The N-Triples lines of one edge: the edge triple, plus a `label`
/// literal for a dangling target.
pub open spec fn edge_ntriples(e: EdgeV) -> Seq<char> {
    let s = entity_iri(e.from_kind, e.from_id);
    let p = "<"@ + ns() + e.predicate + ">"@;
    let o = entity_iri(e.to_kind, e.to_id);
    let main = s + " "@ + p + " "@ + o + " .\n"@;
    if e.resolved {
        main
    } else {
        main + o + " <"@ + ns() + "label> \""@ + escape_literal(e.to_label) + "\" .\n"@
    }
}

fn entity_iri_exec(kind: &String, id: &String) -> (r: Vec<char>)
    ensures
        r@ == entity_iri(kind@, id@),
{
    let mut v = to_chars("<");
    append_chars(&mut v, &to_chars(NS));
    append_chars(&mut v, &to_chars(kind.as_str()));
    append_chars(&mut v, &to_chars("/"));
    append_chars(&mut v, &replace_char_exec(&to_chars(id.as_str()), ' ', &to_chars("%20")));
    append_chars(&mut v, &to_chars(">"));
    v
}

/// Projects resolved wikilink edges into N-Triples for the derived
/// store. Dangling targets still get the edge plus a `label` literal so
/// they stay queryable.
pub fn link_ntriples(edges: &[LinkEdge]) -> (r: String)
    ensures
        r@ == concat_all(edge_views(edges@).map_values(|e: EdgeV| edge_ntriples(e))),
{
    let mut out: Vec<char> = Vec::new();
    let ghost lines = edge_views(edges@).map_values(|e: EdgeV| edge_ntriples(e));
    let mut i: usize = 0;
    while i < edges.len()
        invariant
            i <= edges.len(),
            lines == edge_views(edges@).map_values(|e: EdgeV| edge_ntriples(e)),
            out@ == concat_all(lines.take(i as int)),
        decreases edges.len() - i,
    {
        let e = &edges[i];
        let ghost before = out@;
        let s = entity_iri_exec(&e.from_kind, &e.from_id);
        let o = entity_iri_exec(&e.to_kind, &e.to_id);
        let mut line: Vec<char> = Vec::new();
        append_chars(&mut line, &s);
        append_chars(&mut line, &to_chars(" "));
        append_chars(&mut line, &to_chars("<"));
        append_chars(&mut line, &to_chars(NS));
        append_chars(&mut line, &to_chars(e.predicate.as_str()));
        append_chars(&mut line, &to_chars(">"));
        append_chars(&mut line, &to_chars(" "));
        append_chars(&mut line, &o);
        append_chars(&mut line, &to_chars(" .\n"));
        if !e.resolved {
            append_chars(&mut line, &o);
            append_chars(&mut line, &to_chars(" <"));
            append_chars(&mut line, &to_chars(NS));
            append_chars(&mut line, &to_chars("label> \""));
            let esc1 = replace_char_exec(&to_chars(e.to_label.as_str()), '\\', &to_chars("\\\\"));
            let esc2 = replace_char_exec(&esc1, '"', &to_chars("\\\""));
            append_chars(&mut line, &esc2);
            append_chars(&mut line, &to_chars("\" .\n"));
        }
        append_chars(&mut out, &line);
        proof {
            let ev = edges@[i as int]@;
            assert(edge_views(edges@)[i as int] == ev);
            assert(NS@ == ns());
            if ev.resolved {
                assert(line@ =~= edge_ntriples(ev));
            } else {
                assert(line@ =~= edge_ntriples(ev));
            }
            assert(lines.take(i + 1).drop_last() =~= lines.take(i as int));
            assert(lines.take(i + 1).last() == edge_ntriples(ev));
        }
        i += 1;
    }
    proof {
        assert(lines.take(edges.len() as int) =~= lines);
    }
    string_of(&out)
}

/// The SPARQL SELECT result shape (`head` + `results`).
#[derive(Debug, Clone)]
pub struct SparqlResult {
    pub head: SparqlHead,
    pub results: SparqlBindings,
}

#[derive(Debug, Clone)]
pub struct SparqlHead {
    pub vars: Vec<String>,
}

#[derive(Debug, Clone)]
pub struct SparqlBindings {
    /// One row per solution: `(variable, value)` pairs.
    pub bindings: Vec<Vec<(String, SparqlValue)>>,
}

#[derive(Debug, Clone)]
pub struct SparqlValue {
    /// `uri` or `literal`.
    pub value_type: String,
    pub value: String,
}

impl SparqlResult {
    /// The empty result (no variables, no rows).
    pub fn empty() -> (r: SparqlResult)
        ensures
            r.head.vars@.len() == 0,
            r.results.bindings@.len() == 0,
    {
        SparqlResult {
            head: SparqlHead { vars: Vec::new() },
            results: SparqlBindings { bindings: Vec::new() },
        }
    }
}

} // verus!
