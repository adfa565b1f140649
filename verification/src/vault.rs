//! The canonical markdown vault: files on disk are the store of record
//! and the graph is a derived, rebuildable index projected from them.
//!
//! This module holds the vault's own logic: the frontmatter framing
//! (`--- yaml --- body`), resolution slugs, peer directory names, the
//! privacy `.gitignore` block, the semantic-wikilink edge resolution and
//! the 24-hour card propagation state machine. Reading and writing the
//! files is done by the caller, which hands the contents over as plain
//! values.
use vstd::prelude::*;

use crate::text::{
    append_chars, find_from, replace_char, is_ws, lemma_ws_start_bounds, ws_start, concat_string, find, find_exec, index_of, index_of_exec, is_ascii_alnum,
    lemma_find_first, lemma_find_from, lemma_find_skip, lemma_index_of, lower, occurs_at, same, slice_of,
    starts_with, starts_with_exec, string_of, strip_prefix, strip_prefix_exec, to_chars, to_lower,
    trim, trim_char, trim_char_exec, trim_end, trim_end_of, trim_of, is_ascii_digit, is_ascii_lower,
    run_end, run_start, trim_start, ws_end,
};
use crate::wikilink::{links, link_views, parse as parse_links};

verus! {

// ---------- frontmatter framing ----------

/// `---\n<yaml>---\n\n<body without trailing whitespace>\n`.
pub open spec fn compose_text(yaml: Seq<char>, body: Seq<char>) -> Seq<char> {
    "---\n"@ + yaml + "---\n\n"@ + trim_end(body) + "\n"@
}

/// Frames YAML frontmatter and a body into one markdown file.
pub fn compose(yaml: &str, body: &str) -> (s: String)
    ensures
        s@ == compose_text(yaml@, body@),
{
    let mut v = to_chars("---\n");
    append_chars(&mut v, &to_chars(yaml));
    append_chars(&mut v, &to_chars("---\n\n"));
    append_chars(&mut v, &trim_end_of(&to_chars(body)));
    append_chars(&mut v, &to_chars("\n"));
    string_of(&v)
}

/// Index of the first character at or after `i` that is neither `\n`
/// nor `\r`.
pub open spec fn eol_end(s: Seq<char>, i: int) -> int
    decreases s.len() - i,
{
    if 0 <= i < s.len() && (s[i] == '\n' || s[i] == '\r') {
        eol_end(s, i + 1)
    } else {
        i
    }
}

/// The text after the opening fence: `---\n`, or `---\r\n` in a file with
/// Windows line endings.
pub open spec fn after_open_fence(c: Seq<char>) -> Option<Seq<char>> {
    match strip_prefix(c, "---\n"@) {
        Some(x) => Some(x),
        None => strip_prefix(c, "---\r\n"@),
    }
}

/// `--- yaml --- body` → `(yaml, body)`. The YAML keeps its final line
/// ending; the body drops its leading blank lines and trailing
/// whitespace. A file with `\r\n` line endings splits as its `\n` twin
/// does (its YAML keeps the `\r\n`s). Without frontmatter the whole text
/// (less a leading BOM and trailing whitespace) is the body and the YAML
/// is empty.
pub open spec fn split_text(content: Seq<char>) -> (Seq<char>, Seq<char>) {
    let c = match strip_prefix(content, seq!['\u{feff}']) {
        Some(x) => x,
        None => content,
    };
    match after_open_fence(c) {
        Some(rest) => match find(rest, "\n---"@) {
            Some(end) => {
                let after = rest.skip(end + 4);
                (rest.take(end + 1), trim_end(after.skip(eol_end(after, 0))))
            },
            None => (Seq::empty(), trim_end(c)),
        },
        None => (Seq::empty(), trim_end(c)),
    }
}

/// Splits a markdown file into its frontmatter YAML and its body.
pub fn split(content: &str) -> (r: (String, String))
    ensures
        (r.0@, r.1@) == split_text(content@),
{
    let cv = to_chars(content);
    let bom: Vec<char> = vec!['\u{feff}'];
    proof {
        assert(bom@ =~= seq!['\u{feff}']);
        reveal_strlit("---\n");
        reveal_strlit("---\r\n");
        reveal_strlit("\n---");
    }
    let c = match strip_prefix_exec(&cv, &bom) {
        Some(x) => x,
        None => cv,
    };
    let open = to_chars("---\n");
    let open_crlf = to_chars("---\r\n");
    let close = to_chars("\n---");
    let opened = match strip_prefix_exec(&c, &open) {
        Some(x) => Some(x),
        None => strip_prefix_exec(&c, &open_crlf),
    };
    if let Some(rest) = opened {
        proof {
            lemma_find_from(rest@, close@, 0);
        }
        if let Some(end) = find_exec(&rest, &close, 0) {
            let n = rest.len();
            proof {
                assert(end + 4 <= n);
            }
            let yaml = slice_of(&rest, 0, end + 1);
            let after = slice_of(&rest, end + 4, rest.len());
            let mut k: usize = 0;
            while k < after.len() && (after[k] == '\n' || after[k] == '\r')
                invariant
                    k <= after.len(),
                    eol_end(after@, 0) == eol_end(after@, k as int),
                decreases after.len() - k,
            {
                k += 1;
            }
            let body = trim_end_of(&slice_of(&after, k, after.len()));
            proof {
                assert(yaml@ =~= rest@.take(end + 1));
                assert(after@ =~= rest@.skip(end + 4));
                assert(after@.subrange(k as int, after@.len() as int) =~= after@.skip(k as int));
            }
            return (string_of(&yaml), string_of(&body));
        }
    }
    (String::new(), string_of(&trim_end_of(&c)))
}

/// `ws_start` stops at the first non-whitespace character from the end.
pub proof fn lemma_ws_start_exact(s: Seq<char>, j: int, m: int)
    requires
        0 <= m <= j <= s.len(),
        forall|k: int| m <= k < j ==> is_ws(#[trigger] s[k]),
        m == 0 || !is_ws(s[m - 1]),
    ensures
        ws_start(s, j) == m,
    decreases j - m,
{
    if j > m {
        lemma_ws_start_exact(s, j - 1, m);
    }
}

/// `eol_end` stops at the first character that is not a line ending.
pub proof fn lemma_eol_end_exact(s: Seq<char>, i: int, m: int)
    requires
        0 <= i <= m <= s.len(),
        forall|k: int| i <= k < m ==> (#[trigger] s[k] == '\n' || s[k] == '\r'),
        m == s.len() || (s[m] != '\n' && s[m] != '\r'),
    ensures
        eol_end(s, i) == m,
    decreases m - i,
{
    if i < m {
        lemma_eol_end_exact(s, i + 1, m);
    }
}

/// A body as the vault stores it: no leading line breaks, no trailing
/// whitespace.
pub open spec fn canonical_body(body: Seq<char>) -> bool {
    &&& trim_end(body) == body
    &&& body.len() > 0 ==> body[0] != '\n' && body[0] != '\r'
}

/// YAML that frames cleanly: it ends with a newline and holds no
/// `\n---` of its own.
pub open spec fn framable_yaml(yaml: Seq<char>) -> bool {
    &&& yaml.len() > 0
    &&& yaml.last() == '\n'
    &&& find(yaml, "\n---"@) is None
}

/// The body as a file written from `body` stores it: trailing whitespace
/// and then leading line breaks dropped.
pub open spec fn stored_body(body: Seq<char>) -> Seq<char> {
    let t = trim_end(body);
    t.skip(eol_end(t, 0))
}

pub proof fn lemma_eol_end_bounds(s: Seq<char>, i: int)
    requires
        0 <= i <= s.len(),
    ensures
        i <= eol_end(s, i) <= s.len(),
        forall|k: int| i <= k < eol_end(s, i) ==> (#[trigger] s[k] == '\n' || s[k] == '\r'),
        eol_end(s, i) < s.len() ==> s[eol_end(s, i)] != '\n' && s[eol_end(s, i)] != '\r',
    decreases s.len() - i,
{
    if i < s.len() && (s[i] == '\n' || s[i] == '\r') {
        lemma_eol_end_bounds(s, i + 1);
    }
}

/// Round trip: reading back a composed file gives the same frontmatter
/// and the stored form of the body, which is the body itself when it is
/// already stored form; writing that again and reading it back gives the
/// same pair (write, read, write is stable).
pub proof fn lemma_split_compose(yaml: Seq<char>, body: Seq<char>)
    requires
        framable_yaml(yaml),
    ensures
        split_text(compose_text(yaml, body)) == (yaml, stored_body(body)),
        canonical_body(stored_body(body)),
        canonical_body(body) ==> stored_body(body) == body,
        split_text(compose_text(yaml, stored_body(body))) == (yaml, stored_body(body)),
{
    lemma_split_compose_stored(yaml, body);
    let b2 = stored_body(body);
    lemma_split_compose_stored(yaml, b2);
    lemma_stored_canonical(body);
    lemma_stored_canonical(b2);
}

/// A stored body is canonical, and a canonical body is its own stored
/// form.
proof fn lemma_stored_canonical(body: Seq<char>)
    ensures
        canonical_body(stored_body(body)),
        canonical_body(body) ==> stored_body(body) == body,
{
    let t = trim_end(body);
    lemma_ws_start_bounds(body, body.len() as int);
    lemma_eol_end_bounds(t, 0);
    let e = eol_end(t, 0);
    let b2 = t.skip(e);
    if b2.len() > 0 {
        assert(b2.last() == t.last());
        assert(t.last() == body[ws_start(body, body.len() as int) - 1]);
        assert(!is_ws(b2.last()));
        lemma_ws_start_exact(b2, b2.len() as int, b2.len() as int);
        assert(b2.take(b2.len() as int) =~= b2);
        assert(b2[0] == t[e]);
    } else {
        assert(trim_end(b2) =~= b2);
    }
    if canonical_body(body) {
        if body.len() > 0 {
            assert(t == body);
            assert(body[0] != '\n' && body[0] != '\r');
            lemma_eol_end_exact(t, 0, 0);
        } else {
            assert(t =~= body);
        }
        assert(b2 =~= body);
    }
}

proof fn lemma_split_compose_stored(yaml: Seq<char>, body: Seq<char>)
    requires
        framable_yaml(yaml),
    ensures
        split_text(compose_text(yaml, body)) == (yaml, stored_body(body)),
{
    reveal_strlit("---\n");
    reveal_strlit("---\n\n");
    reveal_strlit("\n");
    reveal_strlit("\n---");
    reveal_strlit("\n\n");
    let c = compose_text(yaml, body);
    let yl = yaml.len() as int;
    let tb = trim_end(body);
    let rest = yaml + "---\n\n"@ + tb + "\n"@;
    assert(c =~= "---\n"@ + rest);
    // No byte-order mark.
    assert(!starts_with(c, seq!['\u{feff}'])) by {
        if starts_with(c, seq!['\u{feff}']) {
            assert(c.take(1)[0] == '\u{feff}');
        }
    }
    assert(starts_with(c, "---\n"@)) by {
        assert(c.take(4) =~= "---\n"@);
    }
    assert(c.skip(4) =~= rest);
    // The closing fence is found right after the YAML.
    assert(occurs_at(rest, "\n---"@, yl - 1)) by {
        assert(rest.subrange(yl - 1, yl + 3) =~= "\n---"@);
    }
    lemma_find_from(yaml, "\n---"@, 0);
    assert forall|j: int| 0 <= j < yl - 1 implies !occurs_at(rest, "\n---"@, j) by {
        if occurs_at(rest, "\n---"@, j) {
            if j + 4 <= yl {
                assert(yaml.subrange(j, j + 4) =~= rest.subrange(j, j + 4));
                assert(occurs_at(yaml, "\n---"@, j));
            } else {
                assert(rest.subrange(j, j + 4)[yl - 1 - j] == rest[yl - 1]);
                assert(rest[yl - 1] == '\n');
            }
        }
    }
    lemma_find_first(rest, "\n---"@, yl - 1, 0);
    assert(rest.take(yl) =~= yaml);
    let after = rest.skip(yl + 3);
    let mid = "---\n\n"@;
    assert(mid.len() == 5);
    assert(rest =~= yaml + (mid + tb + "\n"@));
    assert(after =~= (mid + tb + "\n"@).skip(3));
    assert(mid.skip(3) =~= "\n\n"@);
    assert((mid + tb + "\n"@).skip(3) =~= mid.skip(3) + tb + "\n"@);
    assert(after =~= "\n\n"@ + tb + "\n"@);
    lemma_stored_canonical(body);
    let b2 = stored_body(body);
    lemma_ws_start_bounds(body, body.len() as int);
    lemma_eol_end_bounds(tb, 0);
    let e = eol_end(tb, 0);
    if tb.len() > 0 {
        assert(tb.last() == body[ws_start(body, body.len() as int) - 1]);
        assert(e < tb.len());
    }
    assert forall|k: int| 0 <= k < 2 + e implies (#[trigger] after[k] == '\n' || after[k] == '\r') by {
        if k >= 2 {
            assert(after[k] == tb[k - 2]);
        }
    }
    if e < tb.len() {
        assert(after[2 + e] == tb[e]);
    } else {
        assert(after[2 + e] == '\n');
        assert(tb.len() == 0);
    }
    if tb.len() > 0 {
        lemma_eol_end_exact(after, 0, 2 + e);
        let tail = b2 + "\n"@;
        assert(after.skip(2 + e) =~= tail);
        lemma_ws_start_exact(tail, tail.len() as int, b2.len() as int);
        assert(tail.take(b2.len() as int) =~= b2);
    } else {
        lemma_eol_end_exact(after, 0, 3);
        assert(after.skip(3) =~= Seq::<char>::empty());
        assert(trim_end(Seq::<char>::empty()) =~= Seq::<char>::empty());
        assert(b2 =~= Seq::<char>::empty());
    }
}

// ---------- Windows line endings ----------

/// A text with each `\n` written as `\r\n`.
pub open spec fn crlf(s: Seq<char>) -> Seq<char> {
    replace_char(s, '\n', seq!['\r', '\n'])
}

pub proof fn lemma_crlf_append(a: Seq<char>, b: Seq<char>)
    ensures
        crlf(a + b) == crlf(a) + crlf(b),
    decreases b.len(),
{
    if b.len() == 0 {
        assert(a + b =~= a);
        assert(crlf(b) =~= Seq::<char>::empty());
        assert(crlf(a) + crlf(b) =~= crlf(a));
    } else {
        lemma_crlf_append(a, b.drop_last());
        assert((a + b).drop_last() =~= a + b.drop_last());
        assert((a + b).last() == b.last());
        let piece = if b.last() == '\n' {
            seq!['\r', '\n']
        } else {
            seq![b.last()]
        };
        assert(crlf(a) + crlf(b.drop_last()) + piece =~= crlf(a) + (crlf(b.drop_last()) + piece));
    }
}

/// One character, with a `\n` written as `\r\n`.
pub open spec fn crlf_char(c: char) -> Seq<char> {
    if c == '\n' {
        seq!['\r', '\n']
    } else {
        seq![c]
    }
}

proof fn lemma_crlf_front(s: Seq<char>)
    requires
        s.len() > 0,
    ensures
        crlf(s) == crlf_char(s[0]) + crlf(s.skip(1)),
{
    let one = seq![s[0]];
    assert(s =~= one + s.skip(1));
    lemma_crlf_append(one, s.skip(1));
    assert(one.drop_last() =~= Seq::<char>::empty());
    assert(one.last() == s[0]);
    assert(crlf(Seq::<char>::empty()) =~= Seq::<char>::empty());
    assert(crlf(one) == crlf(one.drop_last()) + crlf_char(s[0]));
    assert(crlf(one) =~= crlf_char(s[0]));
}

proof fn lemma_crlf_len(s: Seq<char>)
    ensures
        crlf(s).len() >= s.len(),
        s.len() > 0 && s.last() != '\n' ==> crlf(s).last() == s.last(),
        s.len() > 0 && s.last() == '\n' ==> crlf(s).last() == '\n',
    decreases s.len(),
{
    if s.len() > 0 {
        lemma_crlf_len(s.drop_last());
    }
}

/// No `\n---` in `s` means none in `crlf(s)` either.
proof fn lemma_crlf_no_fence(s: Seq<char>)
    requires
        forall|k: int| 0 <= k ==> !occurs_at(s, "\n---"@, k),
    ensures
        forall|j: int| 0 <= j ==> !occurs_at(crlf(s), "\n---"@, j),
    decreases s.len(),
{
    reveal_strlit("\n---");
    if s.len() > 0 {
        let s2 = s.skip(1);
        assert forall|k: int| 0 <= k implies !occurs_at(s2, "\n---"@, k) by {
            if occurs_at(s2, "\n---"@, k) {
                assert(s.subrange(k + 1, k + 5) =~= s2.subrange(k, k + 4));
                assert(occurs_at(s, "\n---"@, k + 1));
            }
        }
        lemma_crlf_no_fence(s2);
        lemma_crlf_front(s);
        let p = crlf_char(s[0]);
        let t = crlf(s);
        assert forall|j: int| 0 <= j implies !occurs_at(t, "\n---"@, j) by {
            if occurs_at(t, "\n---"@, j) {
                assert(t.subrange(j, j + 4)[0] == t[j]);
                assert(t[j] == '\n');
                if j >= p.len() {
                    assert(crlf(s2).subrange(j - p.len(), j - p.len() + 4) =~= t.subrange(j, j + 4));
                    assert(occurs_at(crlf(s2), "\n---"@, j - p.len()));
                } else if s[0] == '\n' {
                    assert(j == 1);
                    // `crlf(s2)` starts with `---`, so `s2` does.
                    let u = crlf(s2);
                    assert(t.subrange(j, j + 4)[1] == u[0]);
                    assert(t.subrange(j, j + 4)[2] == u[1]);
                    assert(t.subrange(j, j + 4)[3] == u[2]);
                    assert(u[0] == '-' && u[1] == '-' && u[2] == '-');
                    lemma_crlf_front(s2);
                    let s3 = s2.skip(1);
                    assert(s2[0] == '-');
                    lemma_crlf_front(s3);
                    let s4 = s3.skip(1);
                    assert(s3[0] == '-');
                    lemma_crlf_front(s4);
                    assert(s4[0] == '-');
                    assert(s.subrange(0, 4) =~= "\n---"@);
                    assert(occurs_at(s, "\n---"@, 0));
                } else {
                    assert(t[0] == s[0]);
                }
            }
        }
    } else {
        assert forall|j: int| 0 <= j implies !occurs_at(crlf(s), "\n---"@, j) by {
            assert(crlf(s).len() == 0);
        }
    }
}

/// A text of whitespace stays whitespace, and one of line breaks stays
/// line breaks.
proof fn lemma_crlf_ws(s: Seq<char>)
    ensures
        (forall|k: int| 0 <= k < s.len() ==> is_ws(#[trigger] s[k])) ==> forall|k: int|
            0 <= k < crlf(s).len() ==> is_ws(#[trigger] crlf(s)[k]),
        (forall|k: int| 0 <= k < s.len() ==> (#[trigger] s[k] == '\n')) ==> forall|k: int|
            0 <= k < crlf(s).len() ==> (#[trigger] crlf(s)[k] == '\n' || crlf(s)[k] == '\r'),
    decreases s.len(),
{
    if s.len() > 0 {
        let d = s.drop_last();
        lemma_crlf_ws(d);
        let piece = crlf_char(s.last());
        assert(crlf(s) == crlf(d) + piece);
        let cs = crlf(s);
        let cd = crlf(d);
        if forall|k: int| 0 <= k < s.len() ==> is_ws(#[trigger] s[k]) {
            assert(forall|k: int| 0 <= k < d.len() ==> is_ws(#[trigger] d[k])) by {
                assert forall|k: int| 0 <= k < d.len() implies is_ws(#[trigger] d[k]) by {
                    assert(d[k] == s[k]);
                }
            }
            assert(is_ws(s[s.len() - 1]));
            assert forall|k: int| 0 <= k < cs.len() implies is_ws(#[trigger] cs[k]) by {
                if k < cd.len() {
                    assert(cs[k] == cd[k]);
                } else {
                    assert(cs[k] == piece[k - cd.len()]);
                }
            }
        }
        if forall|k: int| 0 <= k < s.len() ==> (#[trigger] s[k] == '\n') {
            assert(forall|k: int| 0 <= k < d.len() ==> (#[trigger] d[k] == '\n')) by {
                assert forall|k: int| 0 <= k < d.len() implies (#[trigger] d[k] == '\n') by {
                    assert(d[k] == s[k]);
                }
            }
            assert(s[s.len() - 1] == '\n');
            assert forall|k: int| 0 <= k < cs.len() implies (#[trigger] cs[k] == '\n' || cs[k] == '\r') by {
                if k < cd.len() {
                    assert(cs[k] == cd[k]);
                } else {
                    assert(cs[k] == piece[k - cd.len()]);
                }
            }
        }
    } else {
        assert(crlf(s).len() == 0);
    }
}

/// The body part of the split: leading line breaks, then trailing
/// whitespace, dropped; the same after the CRLF rewrite.
proof fn lemma_crlf_body(a: Seq<char>)
    requires
        forall|k: int| 0 <= k < a.len() ==> a[k] != '\r',
    ensures
        trim_end(crlf(a).skip(eol_end(crlf(a), 0))) == crlf(trim_end(a.skip(eol_end(a, 0)))),
{
    let e = eol_end(a, 0);
    let ca = crlf(a);
    lemma_eol_end_bounds(a, 0);
    let lead = a.take(e);
    let z = a.skip(e);
    assert(a =~= lead + z);
    lemma_crlf_append(lead, z);
    lemma_crlf_ws(lead);
    assert forall|k: int| 0 <= k < lead.len() implies #[trigger] lead[k] == '\n' by {
        assert(lead[k] == a[k]);
        assert(a[k] != '\r');
    }
    let cl = crlf(lead);
    let cz = crlf(z);
    assert forall|k: int| 0 <= k < cl.len() implies (#[trigger] ca[k] == '\n' || ca[k] == '\r') by {
        assert(ca[k] == cl[k]);
    }
    if z.len() > 0 {
        assert(z[0] == a[e]);
        lemma_crlf_front(z);
        assert(cz[0] == z[0]);
        assert(ca[cl.len() as int] == cz[0]);
    }
    lemma_eol_end_exact(ca, 0, cl.len() as int);
    assert(ca.skip(cl.len() as int) =~= cz);
    // Trailing whitespace.
    let w = ws_start(z, z.len() as int);
    lemma_ws_start_bounds(z, z.len() as int);
    let zw = z.take(w);
    let zt = z.skip(w);
    assert(z =~= zw + zt);
    lemma_crlf_append(zw, zt);
    lemma_crlf_ws(zt);
    assert forall|k: int| 0 <= k < zt.len() implies is_ws(#[trigger] zt[k]) by {
        assert(zt[k] == z[k + w]);
    }
    lemma_crlf_len(zw);
    let czw = crlf(zw);
    if zw.len() > 0 {
        assert(zw.last() == z[w - 1]);
        assert(!is_ws(zw.last()));
        assert(zw.last() != '\n');
    }
    assert forall|k: int| czw.len() <= k < cz.len() implies is_ws(#[trigger] cz[k]) by {
        assert(cz[k] == crlf(zt)[k - czw.len()]);
    }
    lemma_ws_start_exact(cz, cz.len() as int, czw.len() as int);
    assert(trim_end(cz) =~= czw);
    assert(trim_end(z) =~= zw);
}

/// The fence that closes the YAML is found at the same place, moved by
/// the `\r`s the rewrite put in the YAML.
proof fn lemma_crlf_close(y: Seq<char>, a: Seq<char>)
    requires
        forall|k: int| 0 <= k ==> !occurs_at(y, "\n---"@, k),
    ensures
        find(crlf(y) + (seq!['\r', '\n', '-', '-', '-'] + crlf(a)), "\n---"@) == Some(crlf(y).len() + 1int),
{
    reveal_strlit("\n---");
    let cy = crlf(y);
    let ca = crlf(a);
    let rest2 = cy + (seq!['\r', '\n', '-', '-', '-'] + ca);
    let ny = cy.len() as int;
    lemma_crlf_no_fence(y);
    assert(occurs_at(rest2, "\n---"@, ny + 1)) by {
        assert(rest2.subrange(ny + 1, ny + 5) =~= "\n---"@);
    }
    assert forall|j: int| 0 <= j < ny + 1 implies !occurs_at(rest2, "\n---"@, j) by {
        if occurs_at(rest2, "\n---"@, j) {
            assert(rest2.subrange(j, j + 4)[0] == rest2[j]);
            if j + 4 <= ny {
                assert(cy.subrange(j, j + 4) =~= rest2.subrange(j, j + 4));
                assert(occurs_at(cy, "\n---"@, j));
            } else if j == ny {
                assert(rest2[ny] == '\r');
            } else {
                assert(rest2.subrange(j, j + 4)[ny - j] == rest2[ny]);
                assert(rest2[ny] == '\r');
            }
        }
    }
    lemma_find_first(rest2, "\n---"@, ny + 1, 0);
}

/// A CRLF file splits as its LF twin does: the frontmatter and the body
/// of `crlf(lf)` are those of `lf` with each `\n` written as `\r\n`.
/// Stated for an LF text without `\r` that opens with `---\n` and has a
/// closing `\n---`.
pub proof fn lemma_split_crlf_twin(lf: Seq<char>)
    requires
        forall|k: int| 0 <= k < lf.len() ==> lf[k] != '\r',
        starts_with(lf, "---\n"@),
        find(lf.skip(4), "\n---"@) is Some,
    ensures
        split_text(crlf(lf)) == (crlf(split_text(lf).0), crlf(split_text(lf).1)),
{
    reveal_strlit("---\n");
    reveal_strlit("---\r\n");
    reveal_strlit("\n---");
    let rest = lf.skip(4);
    let end = find(rest, "\n---"@)->0;
    lemma_find_from(rest, "\n---"@, 0);
    let y = rest.take(end);
    let a = rest.skip(end + 4);
    assert(lf =~= "---\n"@ + (y + ("\n---"@ + a)));
    assert forall|k: int| 0 <= k < a.len() implies a[k] != '\r' by {
        assert(a[k] == lf[k + end + 8]);
    }
    // The LF split.
    assert(!starts_with(lf, seq!['\u{feff}'])) by {
        if starts_with(lf, seq!['\u{feff}']) {
            assert(lf.take(1)[0] == lf.take(4)[0]);
        }
    }
    assert(after_open_fence(lf) == Some(rest)) by {
        assert(lf.take(4) =~= "---\n"@);
    }
    let yaml = rest.take(end + 1);
    assert(yaml =~= y + seq!['\n']);
    assert(split_text(lf) == (yaml, trim_end(a.skip(eol_end(a, 0)))));
    // `crlf(lf)` piece by piece.
    lemma_crlf_append("---\n"@, y + ("\n---"@ + a));
    lemma_crlf_append(y, "\n---"@ + a);
    lemma_crlf_append("\n---"@, a);
    lemma_crlf_append(y, seq!['\n']);
    assert(crlf(Seq::<char>::empty()) =~= Seq::<char>::empty());
    assert(crlf(seq!['\n']) =~= seq!['\r', '\n']) by {
        lemma_crlf_front(seq!['\n']);
        assert(seq!['\n'].skip(1) =~= Seq::<char>::empty());
    }
    assert(crlf("---\n"@) =~= "---\r\n"@) by {
        let s0 = seq!['-', '-', '-', '\n'];
        assert("---\n"@ =~= s0);
        lemma_crlf_front(s0);
        lemma_crlf_front(s0.skip(1));
        lemma_crlf_front(s0.skip(2));
        lemma_crlf_front(s0.skip(3));
        assert(s0.skip(1).skip(1) =~= s0.skip(2));
        assert(s0.skip(2).skip(1) =~= s0.skip(3));
        assert(s0.skip(3).skip(1) =~= Seq::<char>::empty());
    }
    assert(crlf("\n---"@) =~= seq!['\r', '\n', '-', '-', '-']) by {
        let s0 = seq!['\n', '-', '-', '-'];
        assert("\n---"@ =~= s0);
        lemma_crlf_front(s0);
        lemma_crlf_front(s0.skip(1));
        lemma_crlf_front(s0.skip(2));
        lemma_crlf_front(s0.skip(3));
        assert(s0.skip(1).skip(1) =~= s0.skip(2));
        assert(s0.skip(2).skip(1) =~= s0.skip(3));
        assert(s0.skip(3).skip(1) =~= Seq::<char>::empty());
    }
    let cy = crlf(y);
    let ca = crlf(a);
    let c = crlf(lf);
    let rest2 = cy + (seq!['\r', '\n', '-', '-', '-'] + ca);
    assert(c =~= "---\r\n"@ + rest2);
    // Its opening fence.
    assert(!starts_with(c, seq!['\u{feff}'])) by {
        if starts_with(c, seq!['\u{feff}']) {
            assert(c.take(1)[0] == c[0]);
        }
    }
    assert(strip_prefix(c, "---\n"@) is None) by {
        if starts_with(c, "---\n"@) {
            assert(c.take(4)[3] == c[3]);
        }
    }
    assert(after_open_fence(c) == Some(rest2)) by {
        assert(c.take(5) =~= "---\r\n"@);
        assert(c.skip(5) =~= rest2);
    }
    // Its closing fence, right after the YAML.
    assert forall|k: int| 0 <= k implies !occurs_at(y, "\n---"@, k) by {
        if occurs_at(y, "\n---"@, k) {
            assert(rest.subrange(k, k + 4) =~= y.subrange(k, k + 4));
            assert(occurs_at(rest, "\n---"@, k));
        }
    }
    lemma_crlf_close(y, a);
    let ny = cy.len() as int;
    assert(rest2.take(ny + 2) =~= cy + seq!['\r', '\n']);
    assert(rest2.skip(ny + 5) =~= ca);
    lemma_crlf_body(a);
}

// ---------- slugs and names ----------

/// `(output, last pushed a dash)` after the slug scan of `s`.
pub open spec fn slug_scan(s: Seq<char>) -> (Seq<char>, bool)
    decreases s.len(),
{
    if s.len() == 0 {
        (Seq::empty(), false)
    } else {
        let (out, dash) = slug_scan(s.drop_last());
        let c = s.last();
        if is_ascii_alnum(c) {
            (out.push(lower(c)), false)
        } else if out.len() > 0 && !dash {
            (out.push('-'), true)
        } else {
            (out, dash)
        }
    }
}

/// Resolution slug: lowercase ASCII alphanumerics, every run of other
/// characters one `-`, no `-` at either end. `John  Smith`,
/// `john-smith` and `John-Smith` all compare equal.
pub open spec fn slug_of(s: Seq<char>) -> Seq<char> {
    trim_char(slug_scan(trim(s)).0, '-')
}

pub fn slug_chars(s: &Vec<char>) -> (r: Vec<char>)
    ensures
        r@ == slug_of(s@),
{
    let t = trim_of(s);
    let mut out: Vec<char> = Vec::new();
    let mut dash = false;
    let mut i: usize = 0;
    while i < t.len()
        invariant
            i <= t.len(),
            t@ == trim(s@),
            (out@, dash) == slug_scan(t@.take(i as int)),
        decreases t.len() - i,
    {
        let c = t[i];
        proof {
            assert(t@.take(i + 1).drop_last() =~= t@.take(i as int));
        }
        if ('a' <= c && c <= 'z') || ('A' <= c && c <= 'Z') || ('0' <= c && c <= '9') {
            out.push(to_lower(c));
            dash = false;
        } else if out.len() > 0 && !dash {
            out.push('-');
            dash = true;
        }
        i += 1;
    }
    proof {
        assert(t@.take(t.len() as int) =~= t@);
    }
    trim_char_exec(&out, '-')
}

/// The shape of a slug: lowercase ASCII letters, digits and single
/// dashes, no dash at either end.
pub open spec fn slug_form(x: Seq<char>) -> bool {
    &&& slug_chars_ok(x)
    &&& x.len() > 0 ==> x[0] != '-' && x.last() != '-'
    &&& no_double_dash(x)
}

pub open spec fn slug_chars_ok(x: Seq<char>) -> bool {
    forall|k: int| 0 <= k < x.len() ==> is_ascii_lower(#[trigger] x[k]) || is_ascii_digit(x[k]) || x[k] == '-'
}

pub open spec fn no_double_dash(x: Seq<char>) -> bool {
    forall|k: int| 0 <= k < x.len() - 1 ==> !(#[trigger] x[k] == '-' && x[k + 1] == '-')
}

proof fn lemma_slug_scan_shape(s: Seq<char>)
    ensures
        slug_chars_ok(slug_scan(s).0),
        slug_scan(s).0.len() > 0 ==> slug_scan(s).0[0] != '-',
        no_double_dash(slug_scan(s).0),
        slug_scan(s).1 == (slug_scan(s).0.len() > 0 && slug_scan(s).0.last() == '-'),
    decreases s.len(),
{
    if s.len() > 0 {
        lemma_slug_scan_shape(s.drop_last());
        let (out, dash) = slug_scan(s.drop_last());
        let c = s.last();
        if is_ascii_alnum(c) {
            let o = out.push(lower(c));
            assert(is_ascii_lower(lower(c)) || is_ascii_digit(lower(c)));
            assert forall|k: int| 0 <= k < o.len() implies is_ascii_lower(#[trigger] o[k]) || is_ascii_digit(o[k]) || o[k] == '-' by {
                if k < out.len() {
                    assert(o[k] == out[k]);
                }
            }
            assert forall|k: int| 0 <= k < o.len() - 1 implies !(#[trigger] o[k] == '-' && o[k + 1] == '-') by {
                if k + 1 < out.len() {
                    assert(o[k] == out[k] && o[k + 1] == out[k + 1]);
                }
            }
        } else if out.len() > 0 && !dash {
            let o = out.push('-');
            assert forall|k: int| 0 <= k < o.len() implies is_ascii_lower(#[trigger] o[k]) || is_ascii_digit(o[k]) || o[k] == '-' by {
                if k < out.len() {
                    assert(o[k] == out[k]);
                }
            }
            assert forall|k: int| 0 <= k < o.len() - 1 implies !(#[trigger] o[k] == '-' && o[k + 1] == '-') by {
                if k + 1 < out.len() {
                    assert(o[k] == out[k] && o[k + 1] == out[k + 1]);
                } else {
                    assert(o[k] == out.last());
                }
            }
        }
    }
}

/// A slug has the slug shape.
pub proof fn lemma_slug_form(s: Seq<char>)
    ensures
        slug_form(slug_of(s)),
{
    let out = slug_scan(trim(s)).0;
    lemma_slug_scan_shape(trim(s));
    crate::text::lemma_run_end_bounds(out, '-', 0);
    assert(run_end(out, '-', 0) == 0);
    assert(out.skip(0) =~= out);
    let t = out;
    crate::text::lemma_run_start_bounds(t, '-', t.len() as int);
    let j = run_start(t, '-', t.len() as int);
    if t.len() > 0 && t.last() == '-' {
        assert(t.len() >= 2 || t[0] != '-');
        assert(run_start(t, '-', t.len() - 1) == t.len() - 1) by {
            if t.len() >= 2 {
                assert(!(t[t.len() - 2] == '-' && t[t.len() - 1] == '-'));
            }
        }
        assert(j == t.len() - 1);
    } else {
        assert(j == t.len());
    }
    let r = t.take(j);
    assert(slug_of(s) == r);
    assert forall|k: int| 0 <= k < r.len() implies is_ascii_lower(#[trigger] r[k]) || is_ascii_digit(r[k]) || r[k] == '-' by {
        assert(r[k] == t[k]);
    }
    assert forall|k: int| 0 <= k < r.len() - 1 implies !(#[trigger] r[k] == '-' && r[k + 1] == '-') by {
        assert(r[k] == t[k] && r[k + 1] == t[k + 1]);
    }
    if r.len() > 0 {
        assert(r[0] == t[0]);
        assert(r.last() == t[j - 1]);
    }
}

proof fn lemma_scan_of_slug_prefix(x: Seq<char>)
    requires
        slug_chars_ok(x),
        x.len() > 0 ==> x[0] != '-',
        no_double_dash(x),
    ensures
        slug_scan(x) == (x, x.len() > 0 && x.last() == '-'),
    decreases x.len(),
{
    if x.len() > 0 {
        let y = x.drop_last();
        assert(slug_chars_ok(y)) by {
            assert forall|k: int| 0 <= k < y.len() implies is_ascii_lower(#[trigger] y[k]) || is_ascii_digit(y[k]) || y[k] == '-' by {
                assert(y[k] == x[k]);
            }
        }
        assert(no_double_dash(y)) by {
            assert forall|k: int| 0 <= k < y.len() - 1 implies !(#[trigger] y[k] == '-' && y[k + 1] == '-') by {
                assert(y[k] == x[k] && y[k + 1] == x[k + 1]);
            }
        }
        if y.len() > 0 {
            assert(y[0] == x[0]);
        }
        lemma_scan_of_slug_prefix(y);
        let c = x.last();
        assert(is_ascii_lower(x[x.len() - 1]) || is_ascii_digit(x[x.len() - 1]) || x[x.len() - 1] == '-');
        if c == '-' {
            assert(y.len() > 0);
            assert(!(x[x.len() - 2] == '-' && x[x.len() - 1] == '-'));
            assert(y.last() == x[x.len() - 2]);
        } else {
            assert(lower(c) == c);
        }
        assert(y.push(c) =~= x);
    }
}

/// A slug is its own slug: slugs compare equal exactly when the names
/// they stand for do.
pub proof fn lemma_slug_idempotent(s: Seq<char>)
    ensures
        slug_of(slug_of(s)) == slug_of(s),
{
    let x = slug_of(s);
    lemma_slug_form(s);
    // no whitespace in a slug
    if x.len() > 0 {
        assert(!is_ws(x[0]));
        assert(!is_ws(x.last()));
    }
    crate::text::lemma_ws_end_bounds(x, 0);
    assert(ws_end(x, 0) == 0);
    assert(trim_start(x) =~= x);
    if x.len() > 0 {
        crate::text::lemma_trim_end_plain(x);
    } else {
        assert(trim_end(x) =~= x);
    }
    assert(trim(x) == x);
    lemma_scan_of_slug_prefix(x);
    crate::text::lemma_run_end_bounds(x, '-', 0);
    assert(run_end(x, '-', 0) == 0);
    assert(x.skip(0) =~= x);
    assert(run_start(x, '-', x.len() as int) == x.len());
    assert(x.take(x.len() as int) =~= x);
}

/// The resolution slug of `s`.
pub fn slug(s: &str) -> (r: String)
    ensures
        r@ == slug_of(s@),
{
    string_of(&slug_chars(&to_chars(s)))
}

/// A character kept as is in a peer directory name.
pub open spec fn dirname_char(c: char) -> bool {
    is_ascii_alnum(c) || c == '.' || c == '_' || c == '-'
}

/// Filesystem-safe directory name of a peer handle: every other
/// character becomes `_` (so `:` never reaches the filesystem).
pub open spec fn peer_dirname_of(h: Seq<char>) -> Seq<char> {
    h.map_values(|c: char| if dirname_char(c) { c } else { '_' })
}

// ---------- the vault ----------

/// Joins a relative file name onto a directory path.
pub open spec fn join_path(root: Seq<char>, name: Seq<char>) -> Seq<char> {
    if root.len() == 0 {
        name
    } else if root.last() == '/' {
        root + name
    } else {
        root + "/"@ + name
    }
}

fn join_path_exec(root: &Vec<char>, name: &Vec<char>) -> (r: Vec<char>)
    ensures
        r@ == join_path(root@, name@),
{
    let mut v = slice_of(root, 0, root.len());
    proof {
        assert(v@ =~= root@);
        reveal_strlit("/");
    }
    if root.len() > 0 && root[root.len() - 1] != '/' {
        v.push('/');
        proof {
            assert(root@.push('/') =~= root@ + "/"@);
        }
    }
    append_chars(&mut v, name);
    v
}

/// A vault rooted at a directory.
pub struct Vault {
    root: String,
}

/// Person data that link resolution reads: `id`, `display name` and
/// the body of `people/<id>.md` when that file could be read.
#[derive(Debug, Clone)]
pub struct PersonRef {
    pub id: String,
    pub display_name: String,
    pub body: Option<String>,
}

/// Task or event data that link resolution reads.
#[derive(Debug, Clone)]
pub struct EntityRef {
    pub id: String,
    pub title: String,
    pub description: String,
}

/// Everything in the vault that wikilinks are read from and resolved
/// against: persons, tasks, events and `(slug, body)` notes.
#[derive(Debug, Clone)]
pub struct LinkSources {
    pub persons: Vec<PersonRef>,
    pub tasks: Vec<EntityRef>,
    pub events: Vec<EntityRef>,
    pub notes: Vec<(String, String)>,
}

/// A derived relationship edge extracted from a `[[wikilink]]`.
#[derive(Debug, Clone, PartialEq, Eq)]
pub struct LinkEdge {
    pub from_kind: String,
    pub from_id: String,
    pub predicate: String,
    pub to_kind: String,
    pub to_id: String,
    /// The target exactly as written (trimmed).
    pub to_label: String,
    pub resolved: bool,
}

pub struct EdgeV {
    pub from_kind: Seq<char>,
    pub from_id: Seq<char>,
    pub predicate: Seq<char>,
    pub to_kind: Seq<char>,
    pub to_id: Seq<char>,
    pub to_label: Seq<char>,
    pub resolved: bool,
}

impl View for LinkEdge {
    type V = EdgeV;

    open spec fn view(&self) -> EdgeV {
        EdgeV {
            from_kind: self.from_kind@,
            from_id: self.from_id@,
            predicate: self.predicate@,
            to_kind: self.to_kind@,
            to_id: self.to_id@,
            to_label: self.to_label@,
            resolved: self.resolved,
        }
    }
}

pub open spec fn edge_views(s: Seq<LinkEdge>) -> Seq<EdgeV> {
    s.map_values(|e: LinkEdge| e@)
}

/// First index in `[i, n)` satisfying `p`.
pub open spec fn first_index(n: int, p: spec_fn(int) -> bool, i: int) -> Option<int>
    decreases n - i,
{
    if i >= n {
        None
    } else if p(i) {
        Some(i)
    } else {
        first_index(n, p, i + 1)
    }
}

pub proof fn lemma_first_index(n: int, p: spec_fn(int) -> bool, i: int)
    requires
        0 <= i,
    ensures
        first_index(n, p, i) matches Some(k) ==> i <= k < n && p(k),
    decreases n - i,
{
    if i < n && !p(i) {
        lemma_first_index(n, p, i + 1);
    }
}

/// `first_index` finds the first index that satisfies `p`, or tells that
/// none does.
pub proof fn lemma_first_index_first(n: int, p: spec_fn(int) -> bool, i: int)
    requires
        0 <= i,
    ensures
        first_index(n, p, i) matches Some(k) ==> i <= k < n && p(k) && forall|m: int|
            i <= m < k ==> !#[trigger] p(m),
        first_index(n, p, i) is None ==> forall|m: int| i <= m < n ==> !#[trigger] p(m),
    decreases n - i,
{
    if i < n && !p(i) {
        lemma_first_index_first(n, p, i + 1);
    }
}

/// A person whose id or display name has slug `key`.
pub open spec fn person_pred(ps: Seq<PersonRef>, key: Seq<char>) -> spec_fn(int) -> bool {
    |j: int| slug_of(ps[j].id@) == key || slug_of(ps[j].display_name@) == key
}

/// A task or event whose id is exactly `t` or whose title has slug `key`.
pub open spec fn entity_pred(es: Seq<EntityRef>, t: Seq<char>, key: Seq<char>) -> spec_fn(int) -> bool {
    |j: int| es[j].id@ == t || slug_of(es[j].title@) == key
}

/// A note whose slug has slug `key`.
pub open spec fn note_pred(ns: Seq<(String, String)>, key: Seq<char>) -> spec_fn(int) -> bool {
    |j: int| slug_of(ns[j].0@) == key
}

/// An explicit `kind:id` reference kind.
pub open spec fn is_ref_kind(k: Seq<char>) -> bool {
    k == "person"@ || k == "task"@ || k == "event"@ || k == "note"@
}

/// An explicit `kind:id` reference: `(kind, trimmed id)`.
pub open spec fn explicit_ref(t: Seq<char>) -> Option<(Seq<char>, Seq<char>)> {
    match index_of(t, ':') {
        Some(i) => if is_ref_kind(t.take(i)) {
            Some((t.take(i), trim(t.skip(i + 1))))
        } else {
            None
        },
        None => None,
    }
}

/// Where a wikilink target points: `(kind, id, resolved)`. First match
/// wins: an explicit `kind:id` ref; a person by id or display name
/// slug; a task, then an event, by exact id or title slug; a note by
/// slug; otherwise a dangling `thing` named by the target's slug.
pub open spec fn resolve_target(src: LinkSources, raw: Seq<char>) -> (Seq<char>, Seq<char>, bool) {
    let t = trim(raw);
    let key = slug_of(t);
    let ps = src.persons@;
    let ts = src.tasks@;
    let es = src.events@;
    let ns = src.notes@;
    match explicit_ref(t) {
        Some((k, id)) => (k, id, true),
        None => match first_index(ps.len() as int, person_pred(ps, key), 0) {
            Some(j) => ("person"@, ps[j].id@, true),
            None => match first_index(ts.len() as int, entity_pred(ts, t, key), 0) {
                Some(j) => ("task"@, ts[j].id@, true),
                None => match first_index(es.len() as int, entity_pred(es, t, key), 0) {
                    Some(j) => ("event"@, es[j].id@, true),
                    None => match first_index(ns.len() as int, note_pred(ns, key), 0) {
                        Some(j) => ("note"@, ns[j].0@, true),
                        None => ("thing"@, key, false),
                    },
                },
            },
        },
    }
}

/// A wikilink names a task by its title: with no explicit `kind:id` ref
/// and no person of that name, a target whose slug is that of some task's
/// title resolves to a task: the first one whose id is the target or
/// whose title has the target's slug, resolved.
pub proof fn lemma_title_finds_task(src: LinkSources, raw: Seq<char>, j: int)
    requires
        explicit_ref(trim(raw)) is None,
        forall|m: int|
            0 <= m < src.persons@.len() ==> slug_of(#[trigger] src.persons@[m].id@) != slug_of(trim(raw))
                && slug_of(src.persons@[m].display_name@) != slug_of(trim(raw)),
        0 <= j < src.tasks@.len(),
        slug_of(src.tasks@[j].title@) == slug_of(trim(raw)),
    ensures
        resolve_target(src, raw).0 == "task"@,
        resolve_target(src, raw).2,
        exists|m: int|
            0 <= m <= j && resolve_target(src, raw).1 == (#[trigger] src.tasks@[m]).id@ && (src.tasks@[m].id@
                == trim(raw) || slug_of(src.tasks@[m].title@) == slug_of(trim(raw))) && forall|q: int|
                0 <= q < m ==> !(src.tasks@[q].id@ == trim(raw) || slug_of(src.tasks@[q].title@) == slug_of(
                    trim(raw),
                )),
{
    let t = trim(raw);
    let key = slug_of(t);
    let ps = src.persons@;
    let ts = src.tasks@;
    lemma_first_index_first(ps.len() as int, person_pred(ps, key), 0);
    if let Some(k) = first_index(ps.len() as int, person_pred(ps, key), 0) {
        assert(person_pred(ps, key)(k));
        assert(slug_of(ps[k].id@) != key);
    }
    lemma_first_index_first(ts.len() as int, entity_pred(ts, t, key), 0);
    assert(entity_pred(ts, t, key)(j));
    let m = first_index(ts.len() as int, entity_pred(ts, t, key), 0)->0;
    assert(entity_pred(ts, t, key)(m));
    assert forall|q: int| 0 <= q < m implies !(ts[q].id@ == t || slug_of(ts[q].title@) == key) by {
        assert(!entity_pred(ts, t, key)(q));
    }
    assert(resolve_target(src, raw).1 == ts[m].id@);
}

/// Likewise for events, when no task is named by the target either.
pub proof fn lemma_title_finds_event(src: LinkSources, raw: Seq<char>, j: int)
    requires
        explicit_ref(trim(raw)) is None,
        forall|m: int|
            0 <= m < src.persons@.len() ==> slug_of(#[trigger] src.persons@[m].id@) != slug_of(trim(raw))
                && slug_of(src.persons@[m].display_name@) != slug_of(trim(raw)),
        forall|m: int|
            0 <= m < src.tasks@.len() ==> (#[trigger] src.tasks@[m]).id@ != trim(raw) && slug_of(
                src.tasks@[m].title@,
            ) != slug_of(trim(raw)),
        0 <= j < src.events@.len(),
        slug_of(src.events@[j].title@) == slug_of(trim(raw)),
    ensures
        resolve_target(src, raw).0 == "event"@,
        resolve_target(src, raw).2,
        exists|m: int|
            0 <= m <= j && resolve_target(src, raw).1 == (#[trigger] src.events@[m]).id@ && (src.events@[m].id@
                == trim(raw) || slug_of(src.events@[m].title@) == slug_of(trim(raw))) && forall|q: int|
                0 <= q < m ==> !(src.events@[q].id@ == trim(raw) || slug_of(src.events@[q].title@)
                    == slug_of(trim(raw))),
{
    let t = trim(raw);
    let key = slug_of(t);
    let ps = src.persons@;
    let ts = src.tasks@;
    let es = src.events@;
    lemma_first_index_first(ps.len() as int, person_pred(ps, key), 0);
    if let Some(k) = first_index(ps.len() as int, person_pred(ps, key), 0) {
        assert(person_pred(ps, key)(k));
        assert(slug_of(ps[k].id@) != key);
    }
    lemma_first_index_first(ts.len() as int, entity_pred(ts, t, key), 0);
    if let Some(k) = first_index(ts.len() as int, entity_pred(ts, t, key), 0) {
        assert(entity_pred(ts, t, key)(k));
        assert(ts[k].id@ != t);
    }
    lemma_first_index_first(es.len() as int, entity_pred(es, t, key), 0);
    assert(entity_pred(es, t, key)(j));
    let m = first_index(es.len() as int, entity_pred(es, t, key), 0)->0;
    assert(entity_pred(es, t, key)(m));
    assert forall|q: int| 0 <= q < m implies !(es[q].id@ == t || slug_of(es[q].title@) == key) by {
        assert(!entity_pred(es, t, key)(q));
    }
    assert(resolve_target(src, raw).1 == es[m].id@);
}

/// The edge a parsed link of entity `(from_kind, from_id)` yields;
/// untyped links get the predicate `references`.
pub open spec fn link_edge(
    src: LinkSources,
    from_kind: Seq<char>,
    from_id: Seq<char>,
    l: (Option<Seq<char>>, Seq<char>),
) -> EdgeV {
    let (to_kind, to_id, resolved) = resolve_target(src, l.1);
    EdgeV {
        from_kind,
        from_id,
        predicate: match l.0 {
            Some(p) => p,
            None => "references"@,
        },
        to_kind,
        to_id,
        to_label: trim(l.1),
        resolved,
    }
}

/// The edges of one body.
pub open spec fn body_edges(src: LinkSources, from_kind: Seq<char>, from_id: Seq<char>, body: Seq<char>) -> Seq<EdgeV> {
    links(body).map_values(|l: (Option<Seq<char>>, Seq<char>)| link_edge(src, from_kind, from_id, l))
}

/// Edges of the first `n` persons (those whose body could be read).
pub open spec fn person_edges(src: LinkSources, n: int) -> Seq<EdgeV>
    decreases n,
{
    if n <= 0 {
        Seq::empty()
    } else {
        let p = src.persons@[n - 1];
        person_edges(src, n - 1) + match p.body {
            Some(b) => body_edges(src, "person"@, p.id@, b@),
            None => Seq::empty(),
        }
    }
}

/// Edges of the first `n` tasks or events (`kind` names which).
pub open spec fn entity_edges(src: LinkSources, es: Seq<EntityRef>, kind: Seq<char>, n: int) -> Seq<EdgeV>
    decreases n,
{
    if n <= 0 {
        Seq::empty()
    } else {
        entity_edges(src, es, kind, n - 1) + body_edges(src, kind, es[n - 1].id@, es[n - 1].description@)
    }
}

/// Edges of the first `n` notes.
pub open spec fn note_edges(src: LinkSources, n: int) -> Seq<EdgeV>
    decreases n,
{
    if n <= 0 {
        Seq::empty()
    } else {
        note_edges(src, n - 1) + body_edges(src, "note"@, src.notes@[n - 1].0@, src.notes@[n - 1].1@)
    }
}

/// Every edge of the vault: persons, tasks, events, then notes, each in
/// list order and each body's links in document order.
pub open spec fn all_edges(src: LinkSources) -> Seq<EdgeV> {
    person_edges(src, src.persons.len() as int) + entity_edges(
        src,
        src.tasks@,
        "task"@,
        src.tasks.len() as int,
    ) + entity_edges(src, src.events@, "event"@, src.events.len() as int) + note_edges(
        src,
        src.notes.len() as int,
    )
}

fn copy_string(s: &String) -> (r: String)
    ensures
        r@ == s@,
{
    string_of(&to_chars(s.as_str()))
}

fn resolve(src: &LinkSources, raw: &str) -> (r: (String, String, bool))
    ensures
        (r.0@, r.1@, r.2) == resolve_target(*src, raw@),
{
    let t = trim_of(&to_chars(raw));
    let key = slug_chars(&t);
    proof {
        lemma_index_of(t@, ':');
    }
    if let Some(i) = index_of_exec(&t, ':') {
        let k = slice_of(&t, 0, i);
        let person = to_chars("person");
        let task = to_chars("task");
        let event = to_chars("event");
        let note = to_chars("note");
        if same(&k, &person) || same(&k, &task) || same(&k, &event) || same(&k, &note) {
            let id = trim_of(&slice_of(&t, i + 1, t.len()));
            proof {
                assert(k@ =~= t@.take(i as int));
                assert(t@.subrange(i + 1, t@.len() as int) =~= t@.skip(i + 1));
            }
            return (string_of(&k), string_of(&id), true);
        }
        proof {
            assert(k@ =~= t@.take(i as int));
        }
    }
    let ghost ps = src.persons@;
    let ghost pp = person_pred(ps, key@);
    let mut j: usize = 0;
    while j < src.persons.len()
        invariant
            j <= src.persons.len(),
            ps == src.persons@,
            pp == person_pred(ps, key@),
            key@ == slug_of(t@),
            t@ == trim(raw@),
            explicit_ref(t@) is None,
            first_index(ps.len() as int, pp, 0) == first_index(ps.len() as int, pp, j as int),
        decreases src.persons.len() - j,
    {
        let p = &src.persons[j];
        if same(&slug_chars(&to_chars(p.id.as_str())), &key) || same(
            &slug_chars(&to_chars(p.display_name.as_str())),
            &key,
        ) {
            return (string_of(&to_chars("person")), copy_string(&p.id), true);
        }
        j += 1;
    }
    let ghost ts = src.tasks@;
    let ghost tp = entity_pred(ts, t@, key@);
    let mut j: usize = 0;
    while j < src.tasks.len()
        invariant
            j <= src.tasks.len(),
            ts == src.tasks@,
            tp == entity_pred(ts, t@, key@),
            key@ == slug_of(t@),
            t@ == trim(raw@),
            explicit_ref(t@) is None,
            first_index(src.persons@.len() as int, person_pred(src.persons@, key@), 0) is None,
            first_index(ts.len() as int, tp, 0) == first_index(ts.len() as int, tp, j as int),
        decreases src.tasks.len() - j,
    {
        let x = &src.tasks[j];
        if same(&to_chars(x.id.as_str()), &t) || same(&slug_chars(&to_chars(x.title.as_str())), &key) {
            return (string_of(&to_chars("task")), copy_string(&x.id), true);
        }
        j += 1;
    }
    let ghost es = src.events@;
    let ghost ep = entity_pred(es, t@, key@);
    let mut j: usize = 0;
    while j < src.events.len()
        invariant
            j <= src.events.len(),
            es == src.events@,
            ep == entity_pred(es, t@, key@),
            first_index(src.tasks@.len() as int, entity_pred(src.tasks@, t@, key@), 0) is None,
            key@ == slug_of(t@),
            t@ == trim(raw@),
            explicit_ref(t@) is None,
            first_index(src.persons@.len() as int, person_pred(src.persons@, key@), 0) is None,
            first_index(es.len() as int, ep, 0) == first_index(es.len() as int, ep, j as int),
        decreases src.events.len() - j,
    {
        let x = &src.events[j];
        if same(&to_chars(x.id.as_str()), &t) || same(&slug_chars(&to_chars(x.title.as_str())), &key) {
            return (string_of(&to_chars("event")), copy_string(&x.id), true);
        }
        j += 1;
    }
    let ghost ns = src.notes@;
    let ghost np = note_pred(ns, key@);
    let mut j: usize = 0;
    while j < src.notes.len()
        invariant
            j <= src.notes.len(),
            ns == src.notes@,
            np == note_pred(ns, key@),
            first_index(src.tasks@.len() as int, entity_pred(src.tasks@, t@, key@), 0) is None,
            first_index(src.events@.len() as int, entity_pred(src.events@, t@, key@), 0) is None,
            key@ == slug_of(t@),
            t@ == trim(raw@),
            explicit_ref(t@) is None,
            first_index(src.persons@.len() as int, person_pred(src.persons@, key@), 0) is None,
            first_index(ns.len() as int, np, 0) == first_index(ns.len() as int, np, j as int),
        decreases src.notes.len() - j,
    {
        if same(&slug_chars(&to_chars(src.notes[j].0.as_str())), &key) {
            return (string_of(&to_chars("note")), copy_string(&src.notes[j].0), true);
        }
        j += 1;
    }
    (string_of(&to_chars("thing")), string_of(&key), false)
}

/// Appends the edges of one body to `out`.
fn emit(src: &LinkSources, from_kind: &str, from_id: &str, body: &str, out: &mut Vec<LinkEdge>)
    ensures
        edge_views(final(out)@) == edge_views(old(out)@) + body_edges(*src, from_kind@, from_id@, body@),
{
    let ls = parse_links(body);
    let ghost target = body_edges(*src, from_kind@, from_id@, body@);
    let mut i: usize = 0;
    while i < ls.len()
        invariant
            i <= ls.len(),
            link_views(ls@) == links(body@),
            target == body_edges(*src, from_kind@, from_id@, body@),
            edge_views(out@) == edge_views(old(out)@) + target.take(i as int),
        decreases ls.len() - i,
    {
        let wl = &ls[i];
        let (to_kind, to_id, resolved) = resolve(src, wl.target.as_str());
        let predicate = match &wl.property {
            Some(p) => copy_string(p),
            None => string_of(&to_chars("references")),
        };
        let e = LinkEdge {
            from_kind: string_of(&to_chars(from_kind)),
            from_id: string_of(&to_chars(from_id)),
            predicate,
            to_kind,
            to_id,
            to_label: string_of(&trim_of(&to_chars(wl.target.as_str()))),
            resolved,
        };
        let ghost before = out@;
        out.push(e);
        proof {
            assert(link_views(ls@)[i as int] == wl@);
            assert(target[i as int] == link_edge(*src, from_kind@, from_id@, wl@));
            assert(e@ == target[i as int]);
            assert(edge_views(out@) =~= edge_views(before).push(e@));
            assert(target.take(i + 1) =~= target.take(i as int).push(target[i as int]));
        }
        i += 1;
    }
    proof {
        assert(target.take(ls.len() as int) =~= target);
    }
}

impl Vault {
    /// A vault rooted at `root`.
    pub fn new(root: &str) -> (v: Vault)
        ensures
            v.root_path() == root@,
    {
        Vault { root: string_of(&to_chars(root)) }
    }

    pub closed spec fn root_path(&self) -> Seq<char> {
        self.root@
    }

    /// The vault's root directory.
    pub fn root(&self) -> (r: &str)
        ensures
            r@ == self.root_path(),
    {
        self.root.as_str()
    }

    /// Path of your own broadcast card, `<root>/card.md`.
    pub fn card_path(&self) -> (p: String)
        ensures
            p@ == join_path(self.root_path(), "card.md"@),
    {
        string_of(&join_path_exec(&to_chars(self.root.as_str()), &to_chars("card.md")))
    }

    /// `(slug, body)` of every note, given the `(slug, file text)` of
    /// each `notes/*.md` (a note may have no frontmatter).
    pub fn list_notes(&self, files: &Vec<(String, String)>) -> (r: Vec<(String, String)>)
        ensures
            r.len() == files.len(),
            forall|i: int|
                0 <= i < files.len() ==> (#[trigger] r@[i]).0@ == files@[i].0@ && r@[i].1@
                    == split_text(files@[i].1@).1,
    {
        let mut out: Vec<(String, String)> = Vec::new();
        let mut i: usize = 0;
        while i < files.len()
            invariant
                i <= files.len(),
                out.len() == i,
                forall|k: int|
                    0 <= k < i ==> (#[trigger] out@[k]).0@ == files@[k].0@ && out@[k].1@
                        == split_text(files@[k].1@).1,
            decreases files.len() - i,
        {
            let (_, body) = split(files[i].1.as_str());
            out.push((copy_string(&files[i].0), body));
            i += 1;
        }
        out
    }

    /// Every semantic-wikilink edge of the vault, resolved.
    pub fn collect_links(&self, src: &LinkSources) -> (r: Vec<LinkEdge>)
        ensures
            edge_views(r@) == all_edges(*src),
    {
        let mut out: Vec<LinkEdge> = Vec::new();
        let mut i: usize = 0;
        proof {
            assert(edge_views(out@) =~= Seq::<EdgeV>::empty());
        }
        while i < src.persons.len()
            invariant
                i <= src.persons.len(),
                edge_views(out@) == person_edges(*src, i as int),
            decreases src.persons.len() - i,
        {
            let p = &src.persons[i];
            let ghost before = edge_views(out@);
            match &p.body {
                Some(b) => emit(src, "person", p.id.as_str(), b.as_str(), &mut out),
                None => {},
            }
            proof {
                reveal_strlit("person");
                if p.body is None {
                    assert(edge_views(out@) =~= before + Seq::<EdgeV>::empty());
                }
            }
            i += 1;
        }
        let ghost pe = edge_views(out@);
        let mut i: usize = 0;
        while i < src.tasks.len()
            invariant
                i <= src.tasks.len(),
                pe == person_edges(*src, src.persons.len() as int),
                edge_views(out@) == pe + entity_edges(*src, src.tasks@, "task"@, i as int),
            decreases src.tasks.len() - i,
        {
            let t = &src.tasks[i];
            emit(src, "task", t.id.as_str(), t.description.as_str(), &mut out);
            proof {
                assert(pe + entity_edges(*src, src.tasks@, "task"@, i + 1) =~= pe + entity_edges(
                    *src,
                    src.tasks@,
                    "task"@,
                    i as int,
                ) + body_edges(*src, "task"@, t.id@, t.description@));
            }
            i += 1;
        }
        let ghost te = edge_views(out@);
        let mut i: usize = 0;
        proof {
            assert(te + entity_edges(*src, src.events@, "event"@, 0) =~= te);
        }
        while i < src.events.len()
            invariant
                i <= src.events.len(),
                te == person_edges(*src, src.persons.len() as int) + entity_edges(
                    *src,
                    src.tasks@,
                    "task"@,
                    src.tasks.len() as int,
                ),
                edge_views(out@) == te + entity_edges(*src, src.events@, "event"@, i as int),
            decreases src.events.len() - i,
        {
            let t = &src.events[i];
            emit(src, "event", t.id.as_str(), t.description.as_str(), &mut out);
            proof {
                assert(te + entity_edges(*src, src.events@, "event"@, i + 1) =~= te
                    + entity_edges(*src, src.events@, "event"@, i as int) + body_edges(
                    *src,
                    "event"@,
                    t.id@,
                    t.description@,
                ));
            }
            i += 1;
        }
        let ghost ee = edge_views(out@);
        let mut i: usize = 0;
        proof {
            assert(ee + note_edges(*src, 0) =~= ee);
        }
        while i < src.notes.len()
            invariant
                i <= src.notes.len(),
                ee == person_edges(*src, src.persons.len() as int) + entity_edges(
                    *src,
                    src.tasks@,
                    "task"@,
                    src.tasks.len() as int,
                ) + entity_edges(*src, src.events@, "event"@, src.events.len() as int),
                edge_views(out@) == ee + note_edges(*src, i as int),
            decreases src.notes.len() - i,
        {
            emit(src, "note", src.notes[i].0.as_str(), src.notes[i].1.as_str(), &mut out);
            proof {
                assert(ee + note_edges(*src, i + 1) =~= ee + note_edges(*src, i as int)
                    + body_edges(*src, "note"@, src.notes@[i as int].0@, src.notes@[i as int].1@));
            }
            i += 1;
        }
        out
    }

    /// Outgoing links of entity `(kind, id)`.
    pub fn links_from(&self, src: &LinkSources, kind: &str, id: &str) -> (r: Vec<LinkEdge>)
        ensures
            edge_views(r@) == all_edges(*src).filter(
                |e: EdgeV| e.from_kind == kind@ && e.from_id == id@,
            ),
    {
        let all = self.collect_links(src);
        let ghost p = |e: EdgeV| e.from_kind == kind@ && e.from_id == id@;
        let k = to_chars(kind);
        let d = to_chars(id);
        let mut out: Vec<LinkEdge> = Vec::new();
        let mut i: usize = 0;
        while i < all.len()
            invariant
                i <= all.len(),
                k@ == kind@,
                d@ == id@,
                p == (|e: EdgeV| e.from_kind == kind@ && e.from_id == id@),
                edge_views(out@) == edge_views(all@).take(i as int).filter(p),
            decreases all.len() - i,
        {
            let e = &all[i];
            let keep = same(&to_chars(e.from_kind.as_str()), &k) && same(
                &to_chars(e.from_id.as_str()),
                &d,
            );
            let ghost before = edge_views(out@);
            proof {
                let t = edge_views(all@).take(i + 1);
                assert(t.drop_last() =~= edge_views(all@).take(i as int));
                assert(t.last() == e@);
                reveal(Seq::filter);
            }
            if keep {
                out.push(e.clone_edge());
                proof {
                    assert(edge_views(out@) =~= before.push(e@));
                }
            }
            i += 1;
        }
        proof {
            assert(edge_views(all@).take(all.len() as int) =~= edge_views(all@));
        }
        out
    }

    /// Backlinks: resolved edges that point at entity `(kind, id)`.
    pub fn links_to(&self, src: &LinkSources, kind: &str, id: &str) -> (r: Vec<LinkEdge>)
        ensures
            edge_views(r@) == all_edges(*src).filter(
                |e: EdgeV| e.resolved && e.to_kind == kind@ && e.to_id == id@,
            ),
    {
        let all = self.collect_links(src);
        let ghost p = |e: EdgeV| e.resolved && e.to_kind == kind@ && e.to_id == id@;
        let k = to_chars(kind);
        let d = to_chars(id);
        let mut out: Vec<LinkEdge> = Vec::new();
        let mut i: usize = 0;
        while i < all.len()
            invariant
                i <= all.len(),
                k@ == kind@,
                d@ == id@,
                p == (|e: EdgeV| e.resolved && e.to_kind == kind@ && e.to_id == id@),
                edge_views(out@) == edge_views(all@).take(i as int).filter(p),
            decreases all.len() - i,
        {
            let e = &all[i];
            let keep = e.resolved && same(&to_chars(e.to_kind.as_str()), &k) && same(
                &to_chars(e.to_id.as_str()),
                &d,
            );
            let ghost before = edge_views(out@);
            proof {
                let t = edge_views(all@).take(i + 1);
                assert(t.drop_last() =~= edge_views(all@).take(i as int));
                assert(t.last() == e@);
                reveal(Seq::filter);
            }
            if keep {
                out.push(e.clone_edge());
                proof {
                    assert(edge_views(out@) =~= before.push(e@));
                }
            }
            i += 1;
        }
        proof {
            assert(edge_views(all@).take(all.len() as int) =~= edge_views(all@));
        }
        out
    }

    /// Filesystem-safe directory name of a peer's handle.
    pub fn peer_dirname(handle: &str) -> (r: String)
        ensures
            r@ == peer_dirname_of(handle@),
    {
        let v = to_chars(handle);
        let mut out: Vec<char> = Vec::new();
        let mut i: usize = 0;
        while i < v.len()
            invariant
                i <= v.len(),
                out@ == peer_dirname_of(v@.take(i as int)),
            decreases v.len() - i,
        {
            let c = v[i];
            let keep = ('a' <= c && c <= 'z') || ('A' <= c && c <= 'Z') || ('0' <= c && c <= '9')
                || c == '.' || c == '_' || c == '-';
            out.push(if keep { c } else { '_' });
            proof {
                assert(peer_dirname_of(v@.take(i + 1)) =~= peer_dirname_of(v@.take(i as int)).push(
                    if dirname_char(c) { c } else { '_' },
                ));
            }
            i += 1;
        }
        proof {
            assert(v@.take(v.len() as int) =~= v@);
        }
        string_of(&out)
    }
}

impl LinkEdge {
    /// A copy of the edge with the same view.
    pub fn clone_edge(&self) -> (r: LinkEdge)
        ensures
            r@ == self@,
    {
        LinkEdge {
            from_kind: copy_string(&self.from_kind),
            from_id: copy_string(&self.from_id),
            predicate: copy_string(&self.predicate),
            to_kind: copy_string(&self.to_kind),
            to_id: copy_string(&self.to_id),
            to_label: copy_string(&self.to_label),
            resolved: self.resolved,
        }
    }
}


// ---------- privacy asymmetry ----------

/// The first line of the vault's privacy block in `.gitignore`.
pub open spec fn privacy_mark() -> Seq<char> {
    "# QueryKey vault privacy asymmetry"@
}

/// Your own card.md stays tracked (history = undo); other people's
/// cards (`/peers/`) and the derived cache (`/.querykey/`) are ignored.
pub open spec fn privacy_block() -> Seq<char> {
    privacy_mark() + " — see docs/card-format.md.\n# Your own card.md is TRACKED (history = undo). Other\n# people's cards and the derived cache are NOT.\n/peers/\n/.querykey/\n"@
}

/// The `.gitignore` text to write, given the current one (`None` when
/// it cannot be read): `None` when the privacy block is already there,
/// else the current text (if any) followed by the block.
pub open spec fn privacy_update(existing: Option<Seq<char>>) -> Option<Seq<char>> {
    match existing {
        Some(e) => if find(e, privacy_mark()) is Some {
            None
        } else {
            Some(
                e + (if e.len() > 0 && e.last() == '\n' {
                    "\n"@
                } else {
                    "\n\n"@
                }) + privacy_block(),
            )
        },
        None => Some(privacy_block()),
    }
}

fn privacy_block_exec() -> (v: Vec<char>)
    ensures
        v@ == privacy_block(),
{
    let mut v = to_chars("# QueryKey vault privacy asymmetry");
    append_chars(
        &mut v,
        &to_chars(
            " — see docs/card-format.md.\n# Your own card.md is TRACKED (history = undo). Other\n# people's cards and the derived cache are NOT.\n/peers/\n/.querykey/\n",
        ),
    );
    v
}

/// Decides the `.gitignore` write that keeps the vault's privacy
/// asymmetry in force; `None` means the file is already right.
pub fn privacy_gitignore(existing: Option<&str>) -> (r: Option<String>)
    ensures
        r matches Some(s) ==> privacy_update(
            match existing {
                Some(e) => Some(e@),
                None => None,
            },
        ) == Some(s@),
        r is None ==> privacy_update(
            match existing {
                Some(e) => Some(e@),
                None => None,
            },
        ) is None,
{
    let block = privacy_block_exec();
    match existing {
        None => Some(string_of(&block)),
        Some(e) => {
            let ev = to_chars(e);
            let mark = to_chars("# QueryKey vault privacy asymmetry");
            if find_exec(&ev, &mark, 0).is_some() {
                None
            } else {
                let mut out = slice_of(&ev, 0, ev.len());
                proof {
                    assert(out@ =~= ev@);
                }
                if ev.len() > 0 && ev[ev.len() - 1] == '\n' {
                    append_chars(&mut out, &to_chars("\n"));
                } else {
                    append_chars(&mut out, &to_chars("\n\n"));
                }
                append_chars(&mut out, &block);
                Some(string_of(&out))
            }
        },
    }
}

/// Idempotence: once the privacy block has been written, the next check
/// leaves `.gitignore` alone.
pub proof fn lemma_privacy_gitignore_idempotent(existing: Option<Seq<char>>)
    ensures
        privacy_update(existing) matches Some(s) ==> privacy_update(Some(s)) is None,
{
    if let Some(s) = privacy_update(existing) {
        let pre = s.len() - privacy_block().len();
        assert(s.subrange(pre, pre + privacy_mark().len()) =~= privacy_mark());
        lemma_find_from(s, privacy_mark(), 0);
        assert(occurs_at(s, privacy_mark(), pre));
    }
}

/// The privacy write appends and never clobbers: the new text starts
/// with the current one and ends with the whole privacy block (with its
/// `/peers/` and `/.querykey/` rules).
pub proof fn lemma_privacy_update_appends(existing: Option<Seq<char>>)
    ensures
        privacy_update(existing) matches Some(s) ==> {
            &&& s.len() >= privacy_block().len()
            &&& s.skip(s.len() - privacy_block().len()) == privacy_block()
            &&& (existing matches Some(e) ==> s.take(e.len() as int) == e)
        },
{
    if let Some(s) = privacy_update(existing) {
        assert(s.skip(s.len() - privacy_block().len()) =~= privacy_block());
        if let Some(e) = existing {
            assert(s.take(e.len() as int) =~= e);
        }
    }
}

// ---------- the 24-hour card propagation delay ----------

/// Seconds an edit waits before it propagates.
pub open spec fn propagation_delay() -> int {
    86400int
}

/// Local card propagation state: the working `card.md` text, the staged
/// edit with the time it becomes eligible, and the published snapshot a
/// transport would broadcast. Times are seconds since the Unix epoch.
pub struct CardSync {
    pub working: Option<String>,
    pub pending: Option<(String, i64)>,
    pub published: Option<String>,
}

pub struct CardSyncV {
    pub working: Option<Seq<char>>,
    pub pending: Option<(Seq<char>, i64)>,
    pub published: Option<Seq<char>>,
}

pub open spec fn opt_view(o: Option<String>) -> Option<Seq<char>> {
    match o {
        Some(s) => Some(s@),
        None => None,
    }
}

impl View for CardSync {
    type V = CardSyncV;

    open spec fn view(&self) -> CardSyncV {
        CardSyncV {
            working: opt_view(self.working),
            pending: match self.pending {
                Some(p) => Some((p.0@, p.1)),
                None => None,
            },
            published: opt_view(self.published),
        }
    }
}

/// Staging an edit: the working card and the pending edit both become
/// `card`, eligible one delay after `now`; the published snapshot is
/// untouched.
pub open spec fn stage_spec(s: CardSyncV, card: Seq<char>, now: i64) -> CardSyncV {
    CardSyncV {
        working: Some(card),
        pending: Some((card, (now + propagation_delay()) as i64)),
        published: s.published,
    }
}

/// Whether a pending edit is due at `now`.
pub open spec fn due(s: CardSyncV, now: i64) -> bool {
    s.pending matches Some(p) && now >= p.1
}

/// Promotion: a due pending edit becomes the published snapshot and
/// the pending state is cleared; otherwise nothing changes.
pub open spec fn promote_spec(s: CardSyncV, now: i64) -> CardSyncV {
    match s.pending {
        Some(p) => if now >= p.1 {
            CardSyncV { working: s.working, pending: None, published: Some(p.0) }
        } else {
            s
        },
        None => s,
    }
}

/// Revert: a pending edit is dropped and the working card is restored
/// from the published snapshot (left as is when nothing was published
/// yet); without a pending edit nothing changes.
pub open spec fn revert_spec(s: CardSyncV) -> CardSyncV {
    if s.pending is Some {
        CardSyncV {
            working: if s.published is Some {
                s.published
            } else {
                s.working
            },
            pending: None,
            published: s.published,
        }
    } else {
        s
    }
}

fn copy_opt(o: &Option<String>) -> (r: Option<String>)
    ensures
        opt_view(r) == opt_view(*o),
{
    match o {
        Some(s) => Some(copy_string(s)),
        None => None,
    }
}

impl CardSync {
    /// Writes the working card and stages it as pending for one delay.
    pub fn stage_card_edit(&mut self, rendered: &str, now: i64)
        requires
            now <= i64::MAX - propagation_delay(),
        ensures
            final(self)@ == stage_spec(old(self)@, rendered@, now),
    {
        let w = string_of(&to_chars(rendered));
        let p = string_of(&to_chars(rendered));
        self.working = Some(w);
        self.pending = Some((p, now + 86400));
    }

    /// The staged edit and when it becomes eligible, if any.
    pub fn card_pending(&self) -> (r: Option<(String, i64)>)
        ensures
            r matches Some(p) ==> self@.pending == Some((p.0@, p.1)),
            r is None ==> self@.pending is None,
    {
        match &self.pending {
            Some(p) => Some((copy_string(&p.0), p.1)),
            None => None,
        }
    }

    /// The snapshot a peer would currently receive.
    pub fn card_published(&self) -> (r: Option<String>)
        ensures
            opt_view(r) == self@.published,
    {
        copy_opt(&self.published)
    }

    /// Promotes the pending edit when its window has elapsed; returns
    /// whether it promoted.
    pub fn promote_due_card(&mut self, now: i64) -> (promoted: bool)
        ensures
            promoted == due(old(self)@, now),
            final(self)@ == promote_spec(old(self)@, now),
    {
        let is_due = match &self.pending {
            Some(p) => now >= p.1,
            None => false,
        };
        if is_due {
            let p = self.pending.take();
            match p {
                Some(p) => {
                    self.published = Some(p.0);
                },
                None => {},
            }
        }
        is_due
    }

    /// Reverts a not-yet-propagated edit; returns whether anything was
    /// pending.
    pub fn revert_pending_card(&mut self) -> (reverted: bool)
        ensures
            reverted == old(self)@.pending is Some,
            final(self)@ == revert_spec(old(self)@),
    {
        if self.pending.is_none() {
            return false;
        }
        self.pending = None;
        if self.published.is_some() {
            self.working = copy_opt(&self.published);
        }
        true
    }
}

/// A staged edit stays invisible to peers until its delay has elapsed:
/// promotion before then changes nothing.
pub proof fn lemma_edit_invisible_before_delay(s: CardSyncV, card: Seq<char>, t: i64, later: i64)
    requires
        t <= i64::MAX - propagation_delay(),
        later < t + propagation_delay(),
    ensures
        !due(stage_spec(s, card, t), later),
        promote_spec(stage_spec(s, card, t), later) == stage_spec(s, card, t),
        stage_spec(s, card, t).published == s.published,
{
}

/// Once the delay has elapsed, the staged edit is what peers receive.
pub proof fn lemma_edit_published_after_delay(s: CardSyncV, card: Seq<char>, t: i64, later: i64)
    requires
        t <= i64::MAX - propagation_delay(),
        later >= t + propagation_delay(),
    ensures
        due(stage_spec(s, card, t), later),
        promote_spec(stage_spec(s, card, t), later).published == Some(card),
        promote_spec(stage_spec(s, card, t), later).pending is None,
{
}

/// Staging an edit at `t` makes it eligible exactly 24 hours
/// (86400 seconds) later: before then a promotion does nothing and the
/// published snapshot stays as it was; from then on it publishes the edit.
pub proof fn lemma_staged_edit_waits_a_day(s: CardSyncV, card: Seq<char>, t: i64, later: i64)
    requires
        t <= i64::MAX - 86400,
    ensures
        stage_spec(s, card, t).pending == Some((card, (t + 86400) as i64)),
        stage_spec(s, card, t).published == s.published,
        later < t + 86400 ==> !due(stage_spec(s, card, t), later) && promote_spec(stage_spec(s, card, t), later)
            == stage_spec(s, card, t),
        later >= t + 86400 ==> promote_spec(stage_spec(s, card, t), later).published == Some(card),
{
}

/// A bad edit reverted before it propagated was never seen: the
/// published snapshot is unchanged and the working card is restored
/// from it.
pub proof fn lemma_revert_restores_published(s: CardSyncV, card: Seq<char>, t: i64)
    requires
        t <= i64::MAX - propagation_delay(),
        s.published is Some,
    ensures
        revert_spec(stage_spec(s, card, t)).published == s.published,
        revert_spec(stage_spec(s, card, t)).working == s.published,
        revert_spec(stage_spec(s, card, t)).pending is None,
{
}

/// Promotion and revert are idempotent: a second call changes nothing.
pub proof fn lemma_promote_revert_idempotent(s: CardSyncV, now: i64)
    ensures
        promote_spec(promote_spec(s, now), now) == promote_spec(s, now),
        revert_spec(revert_spec(s)) == revert_spec(s),
        !due(promote_spec(s, now), now) || !due(s, now),
{
}


// ---------- entity references ----------

/// `kind:id`, as entity ids are written in frontmatter.
pub open spec fn ref_text(kind: Seq<char>, id: Seq<char>) -> Seq<char> {
    kind + ":"@ + id
}

pub fn entity_ref(kind: &str, id: &str) -> (r: String)
    ensures
        r@ == ref_text(kind@, id@),
{
    let mut v = to_chars(kind);
    append_chars(&mut v, &to_chars(":"));
    append_chars(&mut v, &to_chars(id));
    string_of(&v)
}

/// A reference that is empty when there is no id (`person:` of an
/// unassigned task).
pub fn optional_ref(kind: &str, id: &str) -> (r: String)
    ensures
        r@ == if id@.len() == 0 {
            Seq::empty()
        } else {
            ref_text(kind@, id@)
        },
{
    if id.unicode_len() == 0 {
        String::new()
    } else {
        entity_ref(kind, id)
    }
}

/// The id of a `kind:id` reference, or the fallback when `raw` does not
/// carry the prefix.
pub open spec fn ref_id_of(kind: Seq<char>, raw: Seq<char>, fallback: Seq<char>) -> Seq<char> {
    match strip_prefix(raw, kind + ":"@) {
        Some(id) => id,
        None => fallback,
    }
}

pub fn ref_id(kind: &str, raw: &str, fallback: &str) -> (r: String)
    ensures
        r@ == ref_id_of(kind@, raw@, fallback@),
{
    let mut p = to_chars(kind);
    append_chars(&mut p, &to_chars(":"));
    match strip_prefix_exec(&to_chars(raw), &p) {
        Some(id) => string_of(&id),
        None => string_of(&to_chars(fallback)),
    }
}

/// Reading back a written reference gives the id; an empty optional
/// reference reads back (falling back to itself) as the empty id.
pub proof fn lemma_ref_round_trip(kind: Seq<char>, id: Seq<char>, fallback: Seq<char>)
    ensures
        ref_id_of(kind, ref_text(kind, id), fallback) == id,
        ref_id_of(kind, Seq::empty(), Seq::empty()) == Seq::<char>::empty(),
{
    reveal_strlit(":");
    let r = ref_text(kind, id);
    let p = kind + ":"@;
    assert(r.take(p.len() as int) =~= p);
    assert(r.skip(p.len() as int) =~= id);
}
} // verus!
