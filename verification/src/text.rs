//! Character-level text primitives with exact specifications.
//!
//! Everything the parsers need from `str` — trimming, searching,
//! prefix tests, line splitting — is specified here over `Seq<char>`
//! (the view of a `str`/`String`) and implemented over `Vec<char>`.
use vstd::prelude::*;

verus! {

broadcast use vstd::string::group_string_axioms;

/// Appends one character to a `String`.
#[verifier::external_body]
pub(crate) fn push_char(s: &mut String, c: char)
    ensures
        final(s)@ == old(s)@.push(c),
{
    s.push(c);
}

/// The characters of `s`, in order.
pub fn to_chars(s: &str) -> (v: Vec<char>)
    ensures
        v@ == s@,
{
    let mut v: Vec<char> = Vec::new();
    for c in it: s.chars()
        invariant
            v@ == it.seq().take(it.index()),
            it.seq() == s@,
    {
        v.push(c);
    }
    v
}


/// Builds a `String` from characters.
pub fn string_of(v: &Vec<char>) -> (s: String)
    ensures
        s@ == v@,
{
    let mut s = String::new();
    let mut i: usize = 0;
    while i < v.len()
        invariant
            i <= v.len(),
            s@ == v@.take(i as int),
        decreases v.len() - i,
    {
        push_char(&mut s, v[i]);
        proof {
            assert(v@.take(i + 1) == v@.take(i as int).push(v@[i as int]));
        }
        i += 1;
    }
    proof {
        assert(v@.take(v.len() as int) == v@);
    }
    s
}

/// The characters `v[lo..hi]` as a new vector.
pub fn slice_of(v: &Vec<char>, lo: usize, hi: usize) -> (r: Vec<char>)
    requires
        lo <= hi <= v.len(),
    ensures
        r@ == v@.subrange(lo as int, hi as int),
{
    let mut r: Vec<char> = Vec::new();
    let mut i: usize = lo;
    while i < hi
        invariant
            lo <= i <= hi <= v.len(),
            r@ == v@.subrange(lo as int, i as int),
        decreases hi - i,
    {
        r.push(v[i]);
        proof {
            assert(v@.subrange(lo as int, i + 1) == v@.subrange(lo as int, i as int).push(v@[i as int]));
        }
        i += 1;
    }
    r
}

/// Unicode `White_Space` (what `char::is_whitespace` accepts).
pub open spec fn is_ws(c: char) -> bool {
    ||| ('\u{9}' <= c && c <= '\u{d}')
    ||| c == ' '
    ||| c == '\u{85}'
    ||| c == '\u{a0}'
    ||| c == '\u{1680}'
    ||| ('\u{2000}' <= c && c <= '\u{200a}')
    ||| c == '\u{2028}'
    ||| c == '\u{2029}'
    ||| c == '\u{202f}'
    ||| c == '\u{205f}'
    ||| c == '\u{3000}'
}

pub fn is_whitespace(c: char) -> (b: bool)
    ensures
        b == is_ws(c),
{
    ('\u{9}' <= c && c <= '\u{d}') || c == ' ' || c == '\u{85}' || c == '\u{a0}' || c
        == '\u{1680}' || ('\u{2000}' <= c && c <= '\u{200a}') || c == '\u{2028}' || c
        == '\u{2029}' || c == '\u{202f}' || c == '\u{205f}' || c == '\u{3000}'
}

/// First index at or after `i` that holds no whitespace (or `s.len()`).
pub open spec fn ws_end(s: Seq<char>, i: int) -> int
    decreases s.len() - i,
{
    if 0 <= i < s.len() && is_ws(s[i]) {
        ws_end(s, i + 1)
    } else {
        i
    }
}

/// Index just past the last non-whitespace character before `j` (or 0).
pub open spec fn ws_start(s: Seq<char>, j: int) -> int
    decreases j,
{
    if 0 < j <= s.len() && is_ws(s[j - 1]) {
        ws_start(s, j - 1)
    } else {
        j
    }
}

/// `str::trim_start`.
pub open spec fn trim_start(s: Seq<char>) -> Seq<char> {
    s.skip(ws_end(s, 0))
}

/// `str::trim_end`.
pub open spec fn trim_end(s: Seq<char>) -> Seq<char> {
    s.take(ws_start(s, s.len() as int))
}

/// `str::trim`.
pub open spec fn trim(s: Seq<char>) -> Seq<char> {
    trim_end(trim_start(s))
}

/// A trimmed, non-empty text starts and ends with non-whitespace.
pub proof fn lemma_trim_fixed(x: Seq<char>)
    requires
        trim(x) == x,
        x.len() > 0,
    ensures
        !is_ws(x[0]),
        !is_ws(x.last()),
{
    lemma_ws_end_bounds(x, 0);
    let t = x.skip(ws_end(x, 0));
    lemma_ws_start_bounds(t, t.len() as int);
    if is_ws(x[0]) {
        lemma_ws_end_bounds(x, 1);
        assert(trim(x).len() < x.len());
    }
    assert(ws_end(x, 0) == 0);
    assert(t =~= x);
    if is_ws(x.last()) {
        lemma_ws_start_bounds(x, x.len() - 1);
        assert(trim(x).len() < x.len());
    }
}

/// Trimming twice trims once.
pub proof fn lemma_trim_idempotent(x: Seq<char>)
    ensures
        trim(trim(x)) == trim(x),
{
    let y = trim(x);
    let t = trim_start(x);
    lemma_ws_end_bounds(x, 0);
    lemma_ws_start_bounds(t, t.len() as int);
    if y.len() > 0 {
        assert(y[0] == t[0]);
        if ws_end(x, 0) < x.len() {
            assert(t[0] == x[ws_end(x, 0)]);
        }
        assert(!is_ws(y[0]));
        assert(y.last() == t[ws_start(t, t.len() as int) - 1]);
        assert(!is_ws(y.last()));
        assert(ws_end(y, 0) == 0);
        assert(trim_start(y) =~= y);
        lemma_trim_end_plain(y);
    } else {
        assert(trim(y) =~= y);
    }
}

/// Text that ends in non-whitespace is its own `trim_end`.
pub proof fn lemma_trim_end_plain(y: Seq<char>)
    requires
        y.len() > 0,
        !is_ws(y.last()),
    ensures
        trim_end(y) == y,
{
    assert(ws_start(y, y.len() as int) == y.len());
    assert(y.take(y.len() as int) =~= y);
}

pub proof fn lemma_ws_end_bounds(s: Seq<char>, i: int)
    requires
        0 <= i <= s.len(),
    ensures
        i <= ws_end(s, i) <= s.len(),
        forall|k: int| i <= k < ws_end(s, i) ==> is_ws(#[trigger] s[k]),
        ws_end(s, i) < s.len() ==> !is_ws(s[ws_end(s, i)]),
    decreases s.len() - i,
{
    if i < s.len() && is_ws(s[i]) {
        lemma_ws_end_bounds(s, i + 1);
    }
}

pub proof fn lemma_ws_start_bounds(s: Seq<char>, j: int)
    requires
        0 <= j <= s.len(),
    ensures
        0 <= ws_start(s, j) <= j,
        forall|k: int| ws_start(s, j) <= k < j ==> is_ws(#[trigger] s[k]),
        ws_start(s, j) > 0 ==> !is_ws(s[ws_start(s, j) - 1]),
    decreases j,
{
    if 0 < j && is_ws(s[j - 1]) {
        lemma_ws_start_bounds(s, j - 1);
    }
}

/// Index of the first non-whitespace character at or after `i`.
pub fn skip_ws(v: &Vec<char>, i: usize) -> (r: usize)
    requires
        i <= v.len(),
    ensures
        r == ws_end(v@, i as int),
        i <= r <= v.len(),
{
    let mut k = i;
    while k < v.len() && is_whitespace(v[k])
        invariant
            i <= k <= v.len(),
            ws_end(v@, i as int) == ws_end(v@, k as int),
        decreases v.len() - k,
    {
        k += 1;
    }
    k
}

/// Index just past the last non-whitespace character before `j`.
pub fn back_ws(v: &Vec<char>, j: usize) -> (r: usize)
    requires
        j <= v.len(),
    ensures
        r == ws_start(v@, j as int),
        r <= j,
{
    let mut k = j;
    while k > 0 && is_whitespace(v[k - 1])
        invariant
            k <= j <= v.len(),
            ws_start(v@, j as int) == ws_start(v@, k as int),
        decreases k,
    {
        k -= 1;
    }
    k
}

pub fn trim_start_of(v: &Vec<char>) -> (r: Vec<char>)
    ensures
        r@ == trim_start(v@),
{
    let a = skip_ws(v, 0);
    slice_of(v, a, v.len())
}

pub fn trim_end_of(v: &Vec<char>) -> (r: Vec<char>)
    ensures
        r@ == trim_end(v@),
{
    let b = back_ws(v, v.len());
    slice_of(v, 0, b)
}

pub fn trim_of(v: &Vec<char>) -> (r: Vec<char>)
    ensures
        r@ == trim(v@),
{
    let t = trim_start_of(v);
    trim_end_of(&t)
}

/// `p` occurs in `s` at index `i`.
pub open spec fn occurs_at(s: Seq<char>, p: Seq<char>, i: int) -> bool {
    0 <= i && i + p.len() <= s.len() && s.subrange(i, i + p.len()) == p
}

/// First occurrence of `p` in `s` at or after `i` (`str::find`).
pub open spec fn find_from(s: Seq<char>, p: Seq<char>, i: int) -> Option<int>
    decreases s.len() + 1 - i,
{
    if i < 0 || i + p.len() > s.len() {
        None
    } else if s.subrange(i, i + p.len()) == p {
        Some(i)
    } else {
        find_from(s, p, i + 1)
    }
}

pub open spec fn find(s: Seq<char>, p: Seq<char>) -> Option<int> {
    find_from(s, p, 0)
}

pub proof fn lemma_find_from(s: Seq<char>, p: Seq<char>, i: int)
    requires
        0 <= i,
    ensures
        find_from(s, p, i) matches Some(k) ==> i <= k && occurs_at(s, p, k) && forall|j: int|
            i <= j < k ==> !occurs_at(s, p, j),
        find_from(s, p, i) is None ==> forall|j: int| i <= j ==> !occurs_at(s, p, j),
    decreases s.len() + 1 - i,
{
    if i + p.len() <= s.len() && s.subrange(i, i + p.len()) != p {
        lemma_find_from(s, p, i + 1);
    }
}

/// `find` is the first occurrence.
pub proof fn lemma_find_first(s: Seq<char>, p: Seq<char>, k: int, i: int)
    requires
        0 <= i <= k,
        occurs_at(s, p, k),
        forall|j: int| i <= j < k ==> !occurs_at(s, p, j),
    ensures
        find_from(s, p, i) == Some(k),
    decreases k - i,
{
    if i < k {
        assert(!occurs_at(s, p, i));
        lemma_find_first(s, p, k, i + 1);
    }
}

/// Whether `p` occurs in `v` at index `i`.
pub fn occurs_at_exec(v: &Vec<char>, p: &Vec<char>, i: usize) -> (b: bool)
    ensures
        b == occurs_at(v@, p@, i as int),
{
    if i > v.len() || p.len() > v.len() - i {
        return false;
    }
    let mut k: usize = 0;
    while k < p.len()
        invariant
            i + p.len() <= v.len(),
            k <= p.len(),
            forall|j: int| 0 <= j < k ==> v@[i + j] == p@[j],
        decreases p.len() - k,
    {
        if v[i + k] != p[k] {
            proof {
                assert(v@.subrange(i as int, i + p.len())[k as int] != p@[k as int]);
            }
            return false;
        }
        k += 1;
    }
    proof {
        assert(v@.subrange(i as int, i + p.len()) =~= p@);
    }
    true
}

/// First occurrence of `p` in `v` at or after `i`.
pub fn find_exec(v: &Vec<char>, p: &Vec<char>, i: usize) -> (r: Option<usize>)
    ensures
        r matches Some(k) ==> find_from(v@, p@, i as int) == Some(k as int),
        r is None ==> find_from(v@, p@, i as int) is None,
{
    if p.len() > v.len() || i > v.len() - p.len() {
        return None;
    }
    let last = v.len() - p.len();
    let mut k = i;
    while k < last
        invariant
            i <= k <= last,
            last + p.len() == v.len(),
            find_from(v@, p@, i as int) == find_from(v@, p@, k as int),
        decreases last - k,
    {
        if occurs_at_exec(v, p, k) {
            return Some(k);
        }
        k += 1;
    }
    if occurs_at_exec(v, p, k) {
        Some(k)
    } else {
        proof {
            assert(find_from(v@, p@, k + 1) is None);
        }
        None
    }
}

/// `s` starts with `p`.
pub open spec fn starts_with(s: Seq<char>, p: Seq<char>) -> bool {
    p.len() <= s.len() && s.take(p.len() as int) == p
}

pub fn starts_with_exec(v: &Vec<char>, p: &Vec<char>) -> (b: bool)
    ensures
        b == starts_with(v@, p@),
{
    let b = occurs_at_exec(v, p, 0);
    proof {
        assert(v@.subrange(0, p@.len() as int) == v@.take(p@.len() as int));
    }
    b
}

/// `str::strip_prefix`.
pub open spec fn strip_prefix(s: Seq<char>, p: Seq<char>) -> Option<Seq<char>> {
    if starts_with(s, p) {
        Some(s.skip(p.len() as int))
    } else {
        None
    }
}

pub fn strip_prefix_exec(v: &Vec<char>, p: &Vec<char>) -> (r: Option<Vec<char>>)
    ensures
        r matches Some(x) ==> strip_prefix(v@, p@) == Some(x@),
        r is None ==> strip_prefix(v@, p@) is None,
{
    if starts_with_exec(v, p) {
        Some(slice_of(v, p.len(), v.len()))
    } else {
        None
    }
}

/// A line without its `\n`: a trailing `\r` is dropped as well.
pub open spec fn strip_cr(l: Seq<char>) -> Seq<char> {
    if l.len() > 0 && l.last() == '\r' {
        l.drop_last()
    } else {
        l
    }
}

/// `str::lines`: split after each `\n`, dropping the `\n` and a `\r`
/// just before it; no empty line after a final line ending.
pub open spec fn lines(s: Seq<char>) -> Seq<Seq<char>>
    decreases s.len(),
{
    if s.len() == 0 {
        seq![]
    } else {
        match find(s, seq!['\n']) {
            None => seq![s],
            Some(i) => if 0 <= i < s.len() {
                seq![strip_cr(s.take(i))] + lines(s.skip(i + 1))
            } else {
                seq![]
            },
        }
    }
}


/// The first line break of `a + b` is that of `a` when `a` has one.
proof fn lemma_first_nl_prefix(a: Seq<char>, b: Seq<char>)
    requires
        index_of(a, '\n') is Some,
    ensures
        index_of(a + b, '\n') == index_of(a, '\n'),
{
    lemma_index_of(a, '\n');
    lemma_index_of(a + b, '\n');
    let i = index_of(a, '\n')->0;
    assert((a + b)[i] == '\n');
    if let Some(k) = index_of(a + b, '\n') {
        if k < i {
            assert(a[k] == (a + b)[k]);
        }
    }
}

/// `lines` of a text that ends in a line break splits there cleanly:
/// the lines of `a + b` are those of `a` followed by those of `b`.
pub proof fn lemma_lines_append(a: Seq<char>, b: Seq<char>)
    requires
        a.len() == 0 || a.last() == '\n',
    ensures
        lines(a + b) == lines(a) + lines(b),
    decreases a.len(),
{
    if a.len() == 0 {
        assert(a + b =~= b);
        assert(lines(a) + lines(b) =~= lines(b));
    } else {
        lemma_index_of(a, '\n');
        if index_of(a, '\n') is None {
            assert(a[a.len() - 1] == '\n');
        }
        let i = index_of(a, '\n')->0;
        lemma_first_nl_prefix(a, b);
        let s = a + b;
        assert(s.take(i) =~= a.take(i));
        assert(s.skip(i + 1) =~= a.skip(i + 1) + b);
        let a2 = a.skip(i + 1);
        assert(a2.len() == 0 || a2.last() == a.last());
        lemma_lines_append(a2, b);
        assert(lines(s) =~= seq![strip_cr(a.take(i))] + lines(a2 + b));
        assert(lines(a) =~= seq![strip_cr(a.take(i))] + lines(a2));
        assert(lines(s) =~= lines(a) + lines(b));
    }
}

/// A single line with its line break reads back as that one line.
pub proof fn lemma_lines_one(x: Seq<char>)
    requires
        forall|k: int| 0 <= k < x.len() ==> x[k] != '\n',
        x.len() == 0 || x.last() != '\r',
    ensures
        lines(x + seq!['\n']) == seq![x],
{
    let s = x + seq!['\n'];
    lemma_index_of(s, '\n');
    assert(s[x.len() as int] == '\n');
    if let Some(k) = index_of(s, '\n') {
        if k < x.len() {
            assert(s[k] == x[k]);
        }
    }
    assert(s.take(x.len() as int) =~= x);
    assert(s.skip(x.len() as int + 1) =~= Seq::<char>::empty());
    assert(index_of(s, '\n') == Some(x.len() as int));
    assert(strip_cr(x) == x);
    assert(lines(Seq::<char>::empty()) =~= Seq::<Seq<char>>::empty());
    assert(lines(s) =~= seq![strip_cr(x)] + lines(Seq::<char>::empty()));
    assert(lines(s) =~= seq![x]);
}

/// A final line break adds no line after a line that does not end in
/// `\n` or `\r`.
pub proof fn lemma_lines_trailing(x: Seq<char>)
    requires
        x.len() > 0,
        x.last() != '\n',
        x.last() != '\r',
    ensures
        lines(x + seq!['\n']) == lines(x),
    decreases x.len(),
{
    let s = x + seq!['\n'];
    lemma_index_of(x, '\n');
    match index_of(x, '\n') {
        None => {
            lemma_lines_one(x);
        },
        Some(i) => {
            lemma_first_nl_prefix(x, seq!['\n']);
            assert(s.take(i) =~= x.take(i));
            let x2 = x.skip(i + 1);
            assert(i != x.len() - 1);
            assert(s.skip(i + 1) =~= x2 + seq!['\n']);
            assert(x2.last() == x.last());
            lemma_lines_trailing(x2);
        },
    }
}

/// A line holds no `\n`.
pub open spec fn has_no_newline(l: Seq<char>) -> bool {
    forall|m: int| 0 <= m < l.len() ==> l[m] != '\n'
}

/// No line of a text holds a `\n`.
pub proof fn lemma_lines_no_newline(s: Seq<char>)
    ensures
        forall|k: int| 0 <= k < lines(s).len() ==> has_no_newline(#[trigger] lines(s)[k]),
    decreases s.len(),
{
    if s.len() > 0 {
        lemma_index_of(s, '\n');
        if let Some(i) = index_of(s, '\n') {
            let rest = s.skip(i + 1);
            lemma_lines_no_newline(rest);
            let x = strip_cr(s.take(i));
            assert(has_no_newline(x));
            assert forall|k: int| 0 <= k < lines(s).len() implies has_no_newline(#[trigger] lines(s)[k]) by {
                if k > 0 {
                    assert(lines(s)[k] == lines(rest)[k - 1]);
                }
            }
        }
    }
}

/// A line without `\n` is read back alone.
pub proof fn lemma_lines_single(x: Seq<char>)
    requires
        x.len() > 0,
        has_no_newline(x),
    ensures
        lines(x) == seq![x],
{
    lemma_index_of(x, '\n');
}

/// A line followed by `\r\n` is read back without both.
pub proof fn lemma_lines_one_crlf(x: Seq<char>)
    requires
        has_no_newline(x),
    ensures
        lines(x + seq!['\r', '\n']) == seq![x],
{
    let s = x + seq!['\r', '\n'];
    let n = x.len() as int;
    lemma_index_of(s, '\n');
    assert(s[n + 1] == '\n');
    if let Some(k) = index_of(s, '\n') {
        if k < n {
            assert(s[k] == x[k]);
        }
    }
    assert(index_of(s, '\n') == Some(n + 1));
    assert(s.take(n + 1) =~= x.push('\r'));
    assert(strip_cr(x.push('\r')) =~= x);
    assert(s.skip(n + 2) =~= Seq::<char>::empty());
    assert(lines(s) =~= seq![strip_cr(s.take(n + 1))] + lines(Seq::<char>::empty()));
}

/// The lines that `join` puts together, each closed by the separator,
/// are read back as they were: `\n` or `\r\n`, lines without `\n`,
/// and, with `\n`, none ending in `\r`.
pub proof fn lemma_lines_join_closed(ls: Seq<Seq<char>>, sep: Seq<char>)
    requires
        ls.len() > 0,
        sep == seq!['\n'] || sep == seq!['\r', '\n'],
        forall|k: int| 0 <= k < ls.len() ==> has_no_newline(#[trigger] ls[k]),
        forall|k: int| 0 <= k < ls.len() ==> #[trigger] ls[k].len() == 0 || ls[k].last() != '\r',
    ensures
        lines(join(ls, sep) + sep) == ls,
    decreases ls.len(),
{
    let last = ls.last();
    assert(has_no_newline(ls[ls.len() - 1]));
    assert(ls[ls.len() - 1].len() == 0 || ls[ls.len() - 1].last() != '\r');
    if sep == seq!['\n'] {
        lemma_lines_one(last);
    } else {
        lemma_lines_one_crlf(last);
    }
    if ls.len() == 1 {
        assert(ls =~= seq![last]);
    } else {
        let dl = ls.drop_last();
        assert forall|k: int| 0 <= k < dl.len() implies has_no_newline(#[trigger] dl[k]) by {
            assert(dl[k] == ls[k]);
        }
        assert forall|k: int| 0 <= k < dl.len() implies #[trigger] dl[k].len() == 0 || dl[k].last() != '\r' by {
            assert(dl[k] == ls[k]);
        }
        lemma_lines_join_closed(dl, sep);
        let a = join(dl, sep) + sep;
        assert(a.last() == '\n');
        lemma_lines_append(a, last + sep);
        assert(join(ls, sep) + sep =~= a + (last + sep));
        assert(dl.push(last) =~= ls);
    }
}

/// As above, with no separator after the last line, which is not empty.
pub proof fn lemma_lines_join(ls: Seq<Seq<char>>, sep: Seq<char>)
    requires
        ls.len() > 0,
        ls.last().len() > 0,
        sep == seq!['\n'] || sep == seq!['\r', '\n'],
        forall|k: int| 0 <= k < ls.len() ==> has_no_newline(#[trigger] ls[k]),
        forall|k: int| 0 <= k < ls.len() ==> #[trigger] ls[k].len() == 0 || ls[k].last() != '\r',
    ensures
        lines(join(ls, sep)) == ls,
{
    let last = ls.last();
    assert(has_no_newline(ls[ls.len() - 1]));
    lemma_lines_single(last);
    if ls.len() == 1 {
        assert(ls =~= seq![last]);
    } else {
        let dl = ls.drop_last();
        assert forall|k: int| 0 <= k < dl.len() implies has_no_newline(#[trigger] dl[k]) by {
            assert(dl[k] == ls[k]);
        }
        assert forall|k: int| 0 <= k < dl.len() implies #[trigger] dl[k].len() == 0 || dl[k].last() != '\r' by {
            assert(dl[k] == ls[k]);
        }
        lemma_lines_join_closed(dl, sep);
        let a = join(dl, sep) + sep;
        assert(a.last() == '\n');
        lemma_lines_append(a, last);
        assert(dl.push(last) =~= ls);
    }
}

/// A text that does not end in `\n` ends in a non-empty line.
pub proof fn lemma_lines_last_nonempty(s: Seq<char>)
    requires
        s.len() > 0,
        s.last() != '\n',
    ensures
        lines(s).len() > 0,
        lines(s).last().len() > 0,
    decreases s.len(),
{
    lemma_index_of(s, '\n');
    if let Some(i) = index_of(s, '\n') {
        let rest = s.skip(i + 1);
        assert(i != s.len() - 1);
        assert(rest.last() == s.last());
        lemma_lines_last_nonempty(rest);
    }
}

pub proof fn lemma_find_skip(s: Seq<char>, p: Seq<char>, a: int, j: int)
    requires
        0 <= a <= s.len(),
        0 <= j,
    ensures
        find_from(s.skip(a), p, j) == (match find_from(s, p, a + j) {
            Some(k) => Some(k - a),
            None => None::<int>,
        }),
    decreases s.len() + 1 - (a + j),
{
    let t = s.skip(a);
    if j + p.len() <= t.len() {
        assert(t.subrange(j, j + p.len()) =~= s.subrange(a + j, a + j + p.len()));
        if t.subrange(j, j + p.len()) != p {
            lemma_find_skip(s, p, a, j + 1);
        }
    }
}

pub fn strip_cr_exec(l: Vec<char>) -> (r: Vec<char>)
    ensures
        r@ == strip_cr(l@),
{
    let mut l = l;
    if l.len() > 0 && l[l.len() - 1] == '\r' {
        l.pop();
    }
    l
}

/// The views of a vector of character vectors.
pub open spec fn views(v: Seq<Vec<char>>) -> Seq<Seq<char>> {
    v.map_values(|x: Vec<char>| x@)
}

/// `str::lines` over characters.
pub fn lines_of(v: &Vec<char>) -> (r: Vec<Vec<char>>)
    ensures
        views(r@) == lines(v@),
{
    let nl: Vec<char> = vec!['\n'];
    let mut out: Vec<Vec<char>> = Vec::new();
    let mut pos: usize = 0;
    proof {
        assert(v@.skip(0) =~= v@);
    }
    while pos < v.len()
        invariant
            pos <= v.len(),
            nl@ == seq!['\n'],
            lines(v@) == views(out@) + lines(v@.skip(pos as int)),
        decreases v.len() - pos,
    {
        let ghost rest = v@.skip(pos as int);
        proof {
            lemma_find_skip(v@, nl@, pos as int, 0);
            lemma_find_from(v@, nl@, pos as int);
        }
        match find_exec(v, &nl, pos) {
            None => {
                let line = slice_of(v, pos, v.len());
                proof {
                    assert(line@ == rest);
                    assert(lines(rest) == seq![rest]);
                    assert(lines(v@.skip(v.len() as int)) =~= Seq::<Seq<char>>::empty());
                    assert(views(out@.push(line)) =~= views(out@).push(line@));
                }
                out.push(line);
                pos = v.len();
            },
            Some(k) => {
                let line = strip_cr_exec(slice_of(v, pos, k));
                proof {
                    let i = k - pos;
                    assert(find(rest, nl@) == Some(i));
                    assert(rest.take(i) =~= v@.subrange(pos as int, k as int));
                    assert(rest.skip(i + 1) =~= v@.skip(k + 1));
                    assert(views(out@.push(line)) =~= views(out@).push(line@));
                    assert(lines(rest) == seq![strip_cr(rest.take(i))] + lines(rest.skip(i + 1)));
                    assert(views(out@.push(line)) + lines(v@.skip(k + 1)) =~= views(out@) + (
                    seq![line@] + lines(v@.skip(k + 1))));
                }
                out.push(line);
                pos = k + 1;
            },
        }
    }
    proof {
        assert(lines(v@.skip(pos as int)) =~= Seq::<Seq<char>>::empty());
        assert(views(out@) + Seq::<Seq<char>>::empty() =~= views(out@));
    }
    out
}


/// Character-sequence equality.
pub fn same(a: &Vec<char>, b: &Vec<char>) -> (r: bool)
    ensures
        r == (a@ == b@),
{
    if a.len() != b.len() {
        return false;
    }
    let mut i: usize = 0;
    while i < a.len()
        invariant
            a.len() == b.len(),
            i <= a.len(),
            forall|j: int| 0 <= j < i ==> a@[j] == b@[j],
        decreases a.len() - i,
    {
        if a[i] != b[i] {
            return false;
        }
        i += 1;
    }
    proof {
        assert(a@ =~= b@);
    }
    true
}

/// First index at or after `i` that does not hold `c` (or `s.len()`).
pub open spec fn run_end(s: Seq<char>, c: char, i: int) -> int
    decreases s.len() - i,
{
    if 0 <= i < s.len() && s[i] == c {
        run_end(s, c, i + 1)
    } else {
        i
    }
}

/// `str::trim_start_matches(c)`.
pub open spec fn trim_start_char(s: Seq<char>, c: char) -> Seq<char> {
    s.skip(run_end(s, c, 0))
}

pub proof fn lemma_run_end_bounds(s: Seq<char>, c: char, i: int)
    requires
        0 <= i <= s.len(),
    ensures
        i <= run_end(s, c, i) <= s.len(),
        forall|k: int| i <= k < run_end(s, c, i) ==> #[trigger] s[k] == c,
        run_end(s, c, i) < s.len() ==> s[run_end(s, c, i)] != c,
    decreases s.len() - i,
{
    if i < s.len() && s[i] == c {
        lemma_run_end_bounds(s, c, i + 1);
    }
}

pub fn trim_start_char_exec(v: &Vec<char>, c: char) -> (r: Vec<char>)
    ensures
        r@ == trim_start_char(v@, c),
{
    let mut k: usize = 0;
    while k < v.len() && v[k] == c
        invariant
            k <= v.len(),
            run_end(v@, c, 0) == run_end(v@, c, k as int),
        decreases v.len() - k,
    {
        k += 1;
    }
    slice_of(v, k, v.len())
}

/// Index of the first `c` in `s`, if any.
pub open spec fn index_of(s: Seq<char>, c: char) -> Option<int> {
    find(s, seq![c])
}

pub proof fn lemma_index_of(s: Seq<char>, c: char)
    ensures
        index_of(s, c) matches Some(i) ==> 0 <= i < s.len() && s[i] == c && forall|j: int|
            0 <= j < i ==> #[trigger] s[j] != c,
        index_of(s, c) is None ==> forall|j: int| 0 <= j < s.len() ==> #[trigger] s[j] != c,
{
    lemma_find_from(s, seq![c], 0);
    if let Some(i) = index_of(s, c) {
        assert(s.subrange(i, i + 1)[0] == c);
        assert forall|j: int| 0 <= j < i implies #[trigger] s[j] != c by {
            if s[j] == c {
                assert(s.subrange(j, j + 1) =~= seq![c]);
                assert(occurs_at(s, seq![c], j));
            }
        }
    } else {
        assert forall|j: int| 0 <= j < s.len() implies #[trigger] s[j] != c by {
            if s[j] == c {
                assert(s.subrange(j, j + 1) =~= seq![c]);
                assert(occurs_at(s, seq![c], j));
            }
        }
    }
}

/// Index of the first `c` in `v`.
pub fn index_of_exec(v: &Vec<char>, c: char) -> (r: Option<usize>)
    ensures
        r matches Some(i) ==> index_of(v@, c) == Some(i as int),
        r is None ==> index_of(v@, c) is None,
{
    let pat: Vec<char> = vec![c];
    proof {
        assert(pat@ =~= seq![c]);
    }
    find_exec(v, &pat, 0)
}

/// The part of `s` before the first `c` (all of `s` without one):
/// `s.split(c).next()`.
pub open spec fn before_first(s: Seq<char>, c: char) -> Seq<char> {
    match index_of(s, c) {
        Some(i) => s.take(i),
        None => s,
    }
}

pub fn before_first_exec(v: &Vec<char>, c: char) -> (r: Vec<char>)
    ensures
        r@ == before_first(v@, c),
{
    proof {
        lemma_index_of(v@, c);
    }
    match index_of_exec(v, c) {
        Some(i) => slice_of(v, 0, i),
        None => slice_of(v, 0, v.len()),
    }
}

pub open spec fn is_ascii_lower(c: char) -> bool {
    'a' <= c && c <= 'z'
}

pub open spec fn is_ascii_upper(c: char) -> bool {
    'A' <= c && c <= 'Z'
}

pub open spec fn is_ascii_digit(c: char) -> bool {
    '0' <= c && c <= '9'
}

pub open spec fn is_ascii_alnum(c: char) -> bool {
    is_ascii_lower(c) || is_ascii_upper(c) || is_ascii_digit(c)
}


/// Index just past the last character before `j` that is not `c`.
pub open spec fn run_start(s: Seq<char>, c: char, j: int) -> int
    decreases j,
{
    if 0 < j <= s.len() && s[j - 1] == c {
        run_start(s, c, j - 1)
    } else {
        j
    }
}

/// `str::trim_end_matches(c)`.
pub open spec fn trim_end_char(s: Seq<char>, c: char) -> Seq<char> {
    s.take(run_start(s, c, s.len() as int))
}

/// `str::trim_matches(c)`.
pub open spec fn trim_char(s: Seq<char>, c: char) -> Seq<char> {
    trim_end_char(trim_start_char(s, c), c)
}

pub proof fn lemma_run_start_bounds(s: Seq<char>, c: char, j: int)
    requires
        0 <= j <= s.len(),
    ensures
        0 <= run_start(s, c, j) <= j,
        forall|k: int| run_start(s, c, j) <= k < j ==> #[trigger] s[k] == c,
        run_start(s, c, j) > 0 ==> s[run_start(s, c, j) - 1] != c,
    decreases j,
{
    if 0 < j && s[j - 1] == c {
        lemma_run_start_bounds(s, c, j - 1);
    }
}

pub fn trim_end_char_exec(v: &Vec<char>, c: char) -> (r: Vec<char>)
    ensures
        r@ == trim_end_char(v@, c),
{
    let mut k: usize = v.len();
    while k > 0 && v[k - 1] == c
        invariant
            k <= v.len(),
            run_start(v@, c, v.len() as int) == run_start(v@, c, k as int),
        decreases k,
    {
        k -= 1;
    }
    slice_of(v, 0, k)
}

pub fn trim_char_exec(v: &Vec<char>, c: char) -> (r: Vec<char>)
    ensures
        r@ == trim_char(v@, c),
{
    let t = trim_start_char_exec(v, c);
    trim_end_char_exec(&t, c)
}

/// Appends the characters of `b` to `a`.
pub fn append_chars(a: &mut Vec<char>, b: &Vec<char>)
    ensures
        final(a)@ == old(a)@ + b@,
{
    let mut i: usize = 0;
    while i < b.len()
        invariant
            i <= b.len(),
            a@ == old(a)@ + b@.take(i as int),
        decreases b.len() - i,
    {
        a.push(b[i]);
        proof {
            assert(b@.take(i + 1) == b@.take(i as int).push(b@[i as int]));
            assert(old(a)@ + b@.take(i + 1) =~= (old(a)@ + b@.take(i as int)).push(b@[i as int]));
        }
        i += 1;
    }
    proof {
        assert(b@.take(b.len() as int) =~= b@);
    }
}

/// `a` followed by `b`, as a `String`.
pub fn concat_string(a: &Vec<char>, b: &Vec<char>) -> (s: String)
    ensures
        s@ == a@ + b@,
{
    let mut v = slice_of(a, 0, a.len());
    proof {
        assert(v@ =~= a@);
    }
    append_chars(&mut v, b);
    string_of(&v)
}


/// `str::split(c)`: the pieces between occurrences of `c` (never empty).
pub open spec fn split_char(s: Seq<char>, c: char) -> Seq<Seq<char>>
    decreases s.len(),
{
    match index_of(s, c) {
        Some(i) => if 0 <= i < s.len() {
            seq![s.take(i)] + split_char(s.skip(i + 1), c)
        } else {
            seq![s]
        },
        None => seq![s],
    }
}

pub fn split_char_exec(v: &Vec<char>, c: char) -> (r: Vec<Vec<char>>)
    ensures
        views(r@) == split_char(v@, c),
{
    let pat: Vec<char> = vec![c];
    let mut out: Vec<Vec<char>> = Vec::new();
    let mut pos: usize = 0;
    proof {
        assert(v@.skip(0) =~= v@);
        assert(pat@ =~= seq![c]);
    }
    loop
        invariant_except_break
            split_char(v@, c) == views(out@) + split_char(v@.skip(pos as int), c),
        invariant
            pos <= v.len(),
            pat@ == seq![c],
        ensures
            split_char(v@, c) == views(out@),
        decreases v.len() - pos,
    {
        let ghost rest = v@.skip(pos as int);
        proof {
            lemma_find_skip(v@, pat@, pos as int, 0);
            lemma_find_from(v@, pat@, pos as int);
        }
        match find_exec(v, &pat, pos) {
            None => {
                let piece = slice_of(v, pos, v.len());
                proof {
                    assert(piece@ == rest);
                    assert(split_char(rest, c) == seq![rest]);
                    assert(views(out@.push(piece)) =~= views(out@).push(piece@));
                    assert(views(out@) + seq![rest] =~= views(out@).push(piece@));
                }
                out.push(piece);
                break;
            },
            Some(k) => {
                let piece = slice_of(v, pos, k);
                proof {
                    let i = k - pos;
                    assert(index_of(rest, c) == Some(i));
                    assert(rest.take(i) =~= piece@);
                    assert(rest.skip(i + 1) =~= v@.skip(k + 1));
                    assert(views(out@.push(piece)) =~= views(out@).push(piece@));
                    assert(views(out@.push(piece)) + split_char(v@.skip(k + 1), c) =~= views(out@)
                        + (seq![piece@] + split_char(v@.skip(k + 1), c)));
                }
                out.push(piece);
                pos = k + 1;
            },
        }
    }
    out
}

/// `join(sep)` of a list of pieces.
pub open spec fn join(ls: Seq<Seq<char>>, sep: Seq<char>) -> Seq<char>
    decreases ls.len(),
{
    if ls.len() == 0 {
        Seq::empty()
    } else if ls.len() == 1 {
        ls[0]
    } else {
        join(ls.drop_last(), sep) + sep + ls.last()
    }
}

pub fn join_exec(ls: &Vec<Vec<char>>, sep: &Vec<char>) -> (r: Vec<char>)
    ensures
        r@ == join(views(ls@), sep@),
{
    let mut out: Vec<char> = Vec::new();
    let mut i: usize = 0;
    while i < ls.len()
        invariant
            i <= ls.len(),
            out@ == join(views(ls@).take(i as int), sep@),
        decreases ls.len() - i,
    {
        let ghost before = out@;
        if i > 0 {
            append_chars(&mut out, sep);
        }
        append_chars(&mut out, &ls[i]);
        proof {
            let t = views(ls@).take(i + 1);
            assert(t.drop_last() =~= views(ls@).take(i as int));
            if i == 0 {
                assert(out@ =~= t[0]);
            } else {
                assert(out@ =~= before + sep@ + t.last());
            }
        }
        i += 1;
    }
    proof {
        assert(views(ls@).take(ls.len() as int) =~= views(ls@));
    }
    out
}

/// Appends copies of `ls[lo..hi]` to `out`.
pub fn push_range(out: &mut Vec<Vec<char>>, ls: &Vec<Vec<char>>, lo: usize, hi: usize)
    requires
        lo <= hi <= ls.len(),
    ensures
        views(final(out)@) == views(old(out)@) + views(ls@).subrange(lo as int, hi as int),
{
    let mut i = lo;
    while i < hi
        invariant
            lo <= i <= hi <= ls.len(),
            views(out@) == views(old(out)@) + views(ls@).subrange(lo as int, i as int),
        decreases hi - i,
    {
        let line = slice_of(&ls[i], 0, ls[i].len());
        let ghost before = out@;
        out.push(line);
        proof {
            assert(line@ =~= ls@[i as int]@);
            assert(views(out@) =~= views(before).push(line@));
            assert(views(ls@).subrange(lo as int, i + 1) =~= views(ls@).subrange(lo as int, i as int).push(
                line@,
            ));
        }
        i += 1;
    }
}


/// `char::to_ascii_lowercase`.
pub open spec fn lower(c: char) -> char {
    if is_ascii_upper(c) {
        ((c as u32) + 32) as char
    } else {
        c
    }
}

pub fn to_lower(c: char) -> (r: char)
    ensures
        r == lower(c),
{
    if 'A' <= c && c <= 'Z' {
        let b: u8 = (c as u32 + 32) as u8;
        b as char
    } else {
        c
    }
}

/// `char::to_ascii_uppercase`.
pub open spec fn upper(c: char) -> char {
    if is_ascii_lower(c) {
        ((c as u32) - 32) as char
    } else {
        c
    }
}

pub fn to_upper(c: char) -> (r: char)
    ensures
        r == upper(c),
{
    if 'a' <= c && c <= 'z' {
        let b: u8 = (c as u32 - 32) as u8;
        b as char
    } else {
        c
    }
}

/// `str::to_ascii_uppercase`.
pub open spec fn upper_all(s: Seq<char>) -> Seq<char> {
    s.map_values(|c: char| upper(c))
}

pub fn upper_all_exec(v: &Vec<char>) -> (r: Vec<char>)
    ensures
        r@ == upper_all(v@),
{
    let mut r: Vec<char> = Vec::new();
    let mut i: usize = 0;
    while i < v.len()
        invariant
            i <= v.len(),
            r@ == upper_all(v@.take(i as int)),
        decreases v.len() - i,
    {
        r.push(to_upper(v[i]));
        proof {
            assert(upper_all(v@.take(i + 1)) =~= upper_all(v@.take(i as int)).push(upper(v@[i as int])));
        }
        i += 1;
    }
    proof {
        assert(v@.take(v.len() as int) =~= v@);
    }
    r
}

/// `str::replace(c, r)` for a single character `c`.
pub open spec fn replace_char(s: Seq<char>, c: char, r: Seq<char>) -> Seq<char>
    decreases s.len(),
{
    if s.len() == 0 {
        Seq::empty()
    } else {
        replace_char(s.drop_last(), c, r) + (if s.last() == c {
            r
        } else {
            seq![s.last()]
        })
    }
}

pub fn replace_char_exec(v: &Vec<char>, c: char, r: &Vec<char>) -> (o: Vec<char>)
    ensures
        o@ == replace_char(v@, c, r@),
{
    let mut out: Vec<char> = Vec::new();
    let mut i: usize = 0;
    while i < v.len()
        invariant
            i <= v.len(),
            out@ == replace_char(v@.take(i as int), c, r@),
        decreases v.len() - i,
    {
        let ghost before = out@;
        if v[i] == c {
            append_chars(&mut out, r);
        } else {
            out.push(v[i]);
        }
        proof {
            let t = v@.take(i + 1);
            assert(t.drop_last() =~= v@.take(i as int));
            assert(t.last() == v@[i as int]);
            if v@[i as int] == c {
                assert(out@ =~= before + r@);
            } else {
                assert(out@ =~= before + seq![v@[i as int]]);
            }
        }
        i += 1;
    }
    proof {
        assert(v@.take(v.len() as int) =~= v@);
    }
    out
}

/// Concatenation of a list of pieces (`concat()`).
pub open spec fn concat_all(ls: Seq<Seq<char>>) -> Seq<char>
    decreases ls.len(),
{
    if ls.len() == 0 {
        Seq::empty()
    } else {
        concat_all(ls.drop_last()) + ls.last()
    }
}

} // verus!
