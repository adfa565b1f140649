//! Semantic wikilinks — the `[[link]]` / `[[property:link]]` syntax that
//! turns a freeform markdown body into derived graph triples.
//!
//! - `[[Target]]` is an untyped reference to an entity.
//! - `[[property:Target]]` is a semantic link: the part before the first
//!   `:` is the predicate when it is a lowercase token, the rest is the
//!   target. An accidental `[[p::T]]` is read as `[[p:T]]`.
//! - `[[Target|Alias]]` keeps the display alias off the edge.
//!
//! This module is the pure parser; resolving a target to an entity is
//! the vault's job.
use vstd::prelude::*;

use crate::text::{
    before_first, before_first_exec, find, find_exec, index_of, index_of_exec, is_ascii_digit,
    is_ascii_lower, lemma_find_from, lemma_find_skip, lemma_index_of, same, slice_of, string_of,
    to_chars, trim, trim_of, trim_start_char, trim_start_char_exec,
};

verus! {

/// One parsed `[[…]]` link.
#[derive(Debug, Clone, PartialEq, Eq)]
pub struct WikiLink {
    /// The predicate; `None` for a plain (untyped) reference.
    pub property: Option<String>,
    /// The target as written; resolved later.
    pub target: String,
}

impl View for WikiLink {
    type V = (Option<Seq<char>>, Seq<char>);

    open spec fn view(&self) -> (Option<Seq<char>>, Seq<char>) {
        (
            match self.property {
                Some(p) => Some(p@),
                None => None,
            },
            self.target@,
        )
    }
}

/// The `[a-z0-9_-]` token alphabet.
pub open spec fn token_char(c: char) -> bool {
    is_ascii_lower(c) || is_ascii_digit(c) || c == '_' || c == '-'
}

/// URI schemes that are never predicates (`[[https://x]]` is a link).
pub open spec fn is_uri_scheme(t: Seq<char>) -> bool {
    ||| t == seq!['h', 't', 't', 'p']
    ||| t == seq!['h', 't', 't', 'p', 's']
    ||| t == seq!['f', 't', 'p']
    ||| t == seq!['m', 'a', 'i', 'l', 't', 'o']
    ||| t == seq!['f', 'i', 'l', 'e']
    ||| t == seq!['d', 'a', 't', 'a']
    ||| t == seq!['t', 'e', 'l']
}

/// A predicate token: trimmed, a lowercase ASCII letter first, only
/// `[a-z0-9_-]`, and not a URI scheme.
pub open spec fn property_token(s: Seq<char>) -> bool {
    let t = trim(s);
    &&& t.len() > 0
    &&& is_ascii_lower(t[0])
    &&& forall|i: int| 0 <= i < t.len() ==> token_char(#[trigger] t[i])
    &&& !is_uri_scheme(t)
}

/// What the text between `[[` and `]]` denotes, if anything.
pub open spec fn inner_link(inner: Seq<char>) -> Option<(Option<Seq<char>>, Seq<char>)> {
    let lp = trim(before_first(inner, '|'));
    if lp.len() == 0 {
        None
    } else {
        match index_of(lp, ':') {
            Some(i) => {
                let pre = lp.take(i);
                let target = trim(trim_start_char(lp.skip(i + 1), ':'));
                if property_token(pre) && target.len() > 0 {
                    Some((Some(trim(pre)), target))
                } else {
                    Some((None, lp))
                }
            },
            None => Some((None, lp)),
        }
    }
}

pub open spec fn open_mark() -> Seq<char> {
    seq!['[', '[']
}

pub open spec fn close_mark() -> Seq<char> {
    seq![']', ']']
}

/// Every link of `body`, in document order: scan for `[[`, then for the
/// next `]]`; stop when either is missing.
pub open spec fn links(body: Seq<char>) -> Seq<(Option<Seq<char>>, Seq<char>)>
    decreases body.len(),
{
    match find(body, open_mark()) {
        None => seq![],
        Some(st) => if 0 <= st && st + 2 <= body.len() {
            let after = body.skip(st + 2);
            match find(after, close_mark()) {
                None => seq![],
                Some(e) => if 0 <= e && e + 2 <= after.len() {
                    let tail = links(after.skip(e + 2));
                    match inner_link(after.take(e)) {
                        Some(l) => seq![l] + tail,
                        None => tail,
                    }
                } else {
                    seq![]
                },
            }
        } else {
            seq![]
        },
    }
}

/// The views of a list of links.
pub open spec fn link_views(v: Seq<WikiLink>) -> Seq<(Option<Seq<char>>, Seq<char>)> {
    v.map_values(|w: WikiLink| w@)
}

fn is_uri_scheme_exec(t: &Vec<char>) -> (b: bool)
    ensures
        b == is_uri_scheme(t@),
{
    let http: Vec<char> = vec!['h', 't', 't', 'p'];
    let https: Vec<char> = vec!['h', 't', 't', 'p', 's'];
    let ftp: Vec<char> = vec!['f', 't', 'p'];
    let mailto: Vec<char> = vec!['m', 'a', 'i', 'l', 't', 'o'];
    let file: Vec<char> = vec!['f', 'i', 'l', 'e'];
    let data: Vec<char> = vec!['d', 'a', 't', 'a'];
    let tel: Vec<char> = vec!['t', 'e', 'l'];
    same(t, &http) || same(t, &https) || same(t, &ftp) || same(t, &mailto) || same(t, &file)
        || same(t, &data) || same(t, &tel)
}

/// Whether `s` (trimmed) is a predicate token.
fn is_property_token(s: &Vec<char>) -> (b: bool)
    ensures
        b == property_token(s@),
{
    let t = trim_of(s);
    if t.len() == 0 {
        return false;
    }
    let c0 = t[0];
    if !('a' <= c0 && c0 <= 'z') {
        return false;
    }
    let mut i: usize = 0;
    while i < t.len()
        invariant
            i <= t.len(),
            t@ == trim(s@),
            forall|j: int| 0 <= j < i ==> token_char(#[trigger] t@[j]),
        decreases t.len() - i,
    {
        let c = t[i];
        if !(('a' <= c && c <= 'z') || ('0' <= c && c <= '9') || c == '_' || c == '-') {
            proof {
                assert(!token_char(t@[i as int]));
            }
            return false;
        }
        i += 1;
    }
    !is_uri_scheme_exec(&t)
}

/// Parses the text between `[[` and `]]`.
fn parse_inner(inner: &Vec<char>) -> (r: Option<WikiLink>)
    ensures
        r matches Some(w) ==> inner_link(inner@) == Some(w@),
        r is None ==> inner_link(inner@) is None,
{
    let lp = trim_of(&before_first_exec(inner, '|'));
    if lp.len() == 0 {
        return None;
    }
    proof {
        lemma_index_of(lp@, ':');
    }
    if let Some(i) = index_of_exec(&lp, ':') {
        let pre = slice_of(&lp, 0, i);
        let post = slice_of(&lp, i + 1, lp.len());
        let target = trim_of(&trim_start_char_exec(&post, ':'));
        proof {
            assert(pre@ == lp@.take(i as int));
            assert(post@ == lp@.skip(i + 1));
        }
        if is_property_token(&pre) && target.len() > 0 {
            let p = trim_of(&pre);
            return Some(WikiLink { property: Some(string_of(&p)), target: string_of(&target) });
        }
    }
    Some(WikiLink { property: None, target: string_of(&lp) })
}

/// Extracts every `[[…]]` from a markdown body, in document order.
pub fn parse(body: &str) -> (r: Vec<WikiLink>)
    ensures
        link_views(r@) == links(body@),
{
    let v = to_chars(body);
    let open: Vec<char> = vec!['[', '['];
    let close: Vec<char> = vec![']', ']'];
    let mut out: Vec<WikiLink> = Vec::new();
    let mut pos: usize = 0;
    proof {
        assert(v@.skip(0) =~= v@);
        assert(open@ =~= open_mark());
        assert(close@ =~= close_mark());
    }
    loop
        invariant
            pos <= v.len(),
            v@ == body@,
            open@ == open_mark(),
            close@ == close_mark(),
            links(body@) == link_views(out@) + links(v@.skip(pos as int)),
        ensures
            links(body@) == link_views(out@),
        decreases v.len() - pos,
    {
        let ghost rest = v@.skip(pos as int);
        proof {
            lemma_find_skip(v@, open@, pos as int, 0);
            lemma_find_from(v@, open@, pos as int);
        }
        let st = match find_exec(&v, &open, pos) {
            None => {
                proof {
                    assert(links(rest) =~= seq![]);
                    assert(link_views(out@) + seq![] =~= link_views(out@));
                }
                break;
            },
            Some(st) => st,
        };
        let ghost after = rest.skip(st - pos + 2);
        proof {
            assert(after =~= v@.skip(st + 2));
            lemma_find_skip(v@, close@, st + 2, 0);
            lemma_find_from(v@, close@, st + 2);
        }
        let end = match find_exec(&v, &close, st + 2) {
            None => {
                proof {
                    assert(links(rest) =~= seq![]);
                    assert(link_views(out@) + seq![] =~= link_views(out@));
                }
                break;
            },
            Some(end) => end,
        };
        let inner = slice_of(&v, st + 2, end);
        proof {
            let e = end - (st + 2);
            assert(find(after, close@) == Some(e));
            assert(inner@ =~= after.take(e));
            assert(after.skip(e + 2) =~= v@.skip(end + 2));
        }
        let parsed = parse_inner(&inner);
        match parsed {
            Some(link) => {
                proof {
                    assert(link_views(out@.push(link)) =~= link_views(out@).push(link@));
                    assert(link_views(out@.push(link)) + links(v@.skip(end + 2)) =~= link_views(
                        out@,
                    ) + (seq![link@] + links(v@.skip(end + 2))));
                }
                out.push(link);
            },
            None => {},
        }
        pos = end + 2;
    }
    out
}


/// A parsed link: a non-empty target, and a predicate (when there is
/// one) that is a lowercase `[a-z][a-z0-9_-]*` word and not a URI
/// scheme.
pub open spec fn well_formed_link(l: (Option<Seq<char>>, Seq<char>)) -> bool {
    &&& l.1.len() > 0
    &&& l.0 matches Some(p) ==> {
        &&& p.len() > 0
        &&& is_ascii_lower(p[0])
        &&& forall|i: int| 0 <= i < p.len() ==> token_char(#[trigger] p[i])
        &&& !is_uri_scheme(p)
    }
}

/// Every link the parser yields is well formed: no empty targets, and
/// anything before the `:` that is not a lowercase word (or is a URI
/// scheme) is never taken as a predicate.
pub proof fn lemma_links_well_formed(body: Seq<char>)
    ensures
        forall|k: int| 0 <= k < links(body).len() ==> well_formed_link(#[trigger] links(body)[k]),
    decreases body.len(),
{
    match find(body, open_mark()) {
        None => {},
        Some(st) => if 0 <= st && st + 2 <= body.len() {
            let after = body.skip(st + 2);
            match find(after, close_mark()) {
                None => {},
                Some(e) => if 0 <= e && e + 2 <= after.len() {
                    let rest = after.skip(e + 2);
                    lemma_links_well_formed(rest);
                    let tail = links(rest);
                    match inner_link(after.take(e)) {
                        Some(l) => {
                            assert(well_formed_link(l));
                            let all = seq![l] + tail;
                            assert forall|k: int| 0 <= k < all.len() implies well_formed_link(#[trigger] all[k]) by {
                                if k > 0 {
                                    assert(all[k] == tail[k - 1]);
                                }
                            }
                        },
                        None => {},
                    }
                } else {
                },
            }
        } else {
        },
    }
}
} // verus!
