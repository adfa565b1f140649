//! Dashboard read side and notes write side for `applications.md` /
//! `plans.md` at the vault root.
//!
//! Expected shape:
//!
//! ```text
//! ## Section title
//!
//! ### Item title
//! - **field-key:** field-value
//! - **notes:** can span continuation lines
//! ```
//!
//! Each item collects its section, its title and its ordered `key → value`
//! fields. A field value runs from its bullet until the next bullet, a
//! blank line or a section break.
use vstd::prelude::*;

use crate::text::{
    append_chars, concat_string, find, find_exec, has_no_newline, index_of, is_ascii_upper, is_ws, join,
    join_exec, lemma_find_first, lemma_find_from, lemma_index_of, lemma_run_start_bounds,
    lemma_lines_join, lemma_lines_join_closed, lemma_lines_last_nonempty, lemma_lines_no_newline,
    lemma_trim_end_plain, lemma_trim_fixed, lemma_trim_idempotent, lemma_ws_end_bounds, lemma_ws_start_bounds, lines, occurs_at, run_start, ws_end, ws_start,
    lines_of, push_range, same, slice_of, split_char, split_char_exec, starts_with,
    starts_with_exec, string_of, strip_prefix, strip_prefix_exec, to_chars, trim, trim_end_char,
    trim_end_char_exec, trim_of, trim_start, trim_start_of, views,
};

verus! {

/// A `(key, value)` field as characters.
pub type FieldV = (Seq<char>, Seq<char>);

/// An item as characters: `(section, title, fields)`.
pub type ItemV = (Seq<char>, Seq<char>, Seq<FieldV>);

/// One `### item` with its section and ordered fields.
#[derive(Debug, Clone)]
pub struct DashboardItem {
    pub section: String,
    pub title: String,
    /// Ordered `(key, value)` pairs from the `**key:** value` bullets.
    pub fields: Vec<(String, String)>,
}

/// A parsed dashboard file.
#[derive(Debug, Clone)]
pub struct Dashboard {
    pub source_path: String,
    pub items: Vec<DashboardItem>,
}

pub open spec fn string_pairs(s: Seq<(String, String)>) -> Seq<FieldV> {
    s.map_values(|p: (String, String)| (p.0@, p.1@))
}

pub open spec fn char_pairs(s: Seq<(Vec<char>, Vec<char>)>) -> Seq<FieldV> {
    s.map_values(|p: (Vec<char>, Vec<char>)| (p.0@, p.1@))
}

impl View for DashboardItem {
    type V = ItemV;

    open spec fn view(&self) -> ItemV {
        (self.section@, self.title@, string_pairs(self.fields@))
    }
}

pub open spec fn item_views(s: Seq<DashboardItem>) -> Seq<ItemV> {
    s.map_values(|it: DashboardItem| it@)
}

/// `- **key:** value` bullet body (after the `- `) → `(key, value)`.
pub open spec fn bullet_kv(body: Seq<char>) -> Option<FieldV> {
    match strip_prefix(trim_start(body), "**"@) {
        None => None,
        Some(rest) => match find(rest, "**"@) {
            None => None,
            Some(close) => {
                let key = trim(trim_end_char(rest.take(close), ':'));
                let after = trim(rest.skip(close + 2));
                let value = trim(
                    match strip_prefix(after, ":"@) {
                        Some(x) => x,
                        None => after,
                    },
                );
                Some((key, value))
            },
        },
    }
}

/// The line scanner's state between two lines.
pub struct ScanState {
    pub items: Seq<ItemV>,
    pub section: Seq<char>,
    pub item: Option<ItemV>,
    pub field: Option<FieldV>,
}

/// Closes the open field into the open item (value trimmed).
pub open spec fn finish_field(st: ScanState) -> ScanState {
    match st.field {
        None => st,
        Some(f) => ScanState {
            items: st.items,
            section: st.section,
            item: match st.item {
                Some(it) => Some((it.0, it.1, it.2.push((f.0, trim(f.1))))),
                None => None,
            },
            field: None,
        },
    }
}

/// Closes the open field and item, appending the item.
pub open spec fn finish_item(st: ScanState) -> ScanState {
    let s1 = finish_field(st);
    match s1.item {
        Some(it) => ScanState { items: s1.items.push(it), section: s1.section, item: None, field: s1.field },
        None => s1,
    }
}

/// The bullet field a line opens, if it is `- **key:** value`.
pub open spec fn line_bullet(t: Seq<char>) -> Option<FieldV> {
    match strip_prefix(t, "- "@) {
        Some(rest) => bullet_kv(rest),
        None => None,
    }
}

/// One line of the scan.
pub open spec fn scan_step(st: ScanState, line: Seq<char>) -> ScanState {
    let t = trim_start(line);
    match strip_prefix(t, "## "@) {
        Some(rest) => {
            let s1 = finish_item(st);
            ScanState { items: s1.items, section: trim(rest), item: s1.item, field: s1.field }
        },
        None => match strip_prefix(t, "### "@) {
            Some(rest) => {
                let s1 = finish_item(st);
                ScanState {
                    items: s1.items,
                    section: s1.section,
                    item: Some((s1.section, trim(rest), Seq::empty())),
                    field: s1.field,
                }
            },
            None => if st.item is Some {
                match line_bullet(t) {
                    Some(kv) => {
                        let s1 = finish_field(st);
                        ScanState { items: s1.items, section: s1.section, item: s1.item, field: Some(kv) }
                    },
                    None => match st.field {
                        Some(f) => {
                            let stripped = trim(line);
                            if stripped.len() == 0 {
                                finish_field(st)
                            } else {
                                ScanState {
                                    items: st.items,
                                    section: st.section,
                                    item: st.item,
                                    field: Some(
                                        (
                                            f.0,
                                            if f.1.len() == 0 {
                                                stripped
                                            } else {
                                                f.1 + seq!['\n'] + stripped
                                            },
                                        ),
                                    ),
                                }
                            }
                        },
                        None => st,
                    },
                }
            } else {
                st
            },
        },
    }
}

pub open spec fn scan_init() -> ScanState {
    ScanState { items: Seq::empty(), section: Seq::empty(), item: None, field: None }
}

/// The state after scanning `ls` in order.
pub open spec fn scan(ls: Seq<Seq<char>>) -> ScanState
    decreases ls.len(),
{
    if ls.len() == 0 {
        scan_init()
    } else {
        scan_step(scan(ls.drop_last()), ls.last())
    }
}

/// The items of a dashboard text.
pub open spec fn dashboard_items(text: Seq<char>) -> Seq<ItemV> {
    finish_item(scan(lines(text))).items
}

/// An item under construction.
struct ItemBuf {
    section: Vec<char>,
    title: Vec<char>,
    fields: Vec<(Vec<char>, Vec<char>)>,
}

impl ItemBuf {
    spec fn view(&self) -> ItemV {
        (self.section@, self.title@, char_pairs(self.fields@))
    }
}

struct Scanner {
    items: Vec<DashboardItem>,
    section: Vec<char>,
    item: Option<ItemBuf>,
    field: Option<(Vec<char>, Vec<char>)>,
}

impl Scanner {
    spec fn state(&self) -> ScanState {
        ScanState {
            items: item_views(self.items@),
            section: self.section@,
            item: match self.item {
                Some(b) => Some(b.view()),
                None => None,
            },
            field: match self.field {
                Some(f) => Some((f.0@, f.1@)),
                None => None,
            },
        }
    }

    fn finish_field(&mut self)
        ensures
            final(self).state() == finish_field(old(self).state()),
    {
        let f = self.field.take();
        match f {
            None => {},
            Some((k, v)) => {
                let tv = trim_of(&v);
                match &mut self.item {
                    Some(it) => {
                        let ghost before = it.fields@;
                        it.fields.push((k, tv));
                        proof {
                            assert(char_pairs(it.fields@) =~= char_pairs(before).push((k@, tv@)));
                        }
                    },
                    None => {},
                }
            },
        }
    }

    fn finish_item(&mut self)
        ensures
            final(self).state() == finish_item(old(self).state()),
    {
        self.finish_field();
        let it = self.item.take();
        match it {
            None => {},
            Some(b) => {
                let mut fields: Vec<(String, String)> = Vec::new();
                let mut i: usize = 0;
                while i < b.fields.len()
                    invariant
                        i <= b.fields.len(),
                        string_pairs(fields@) =~= char_pairs(b.fields@).take(i as int),
                    decreases b.fields.len() - i,
                {
                    let k = string_of(&b.fields[i].0);
                    let v = string_of(&b.fields[i].1);
                    let ghost before = fields@;
                    fields.push((k, v));
                    proof {
                        assert(string_pairs(fields@) =~= string_pairs(before).push((k@, v@)));
                        assert(char_pairs(b.fields@).take(i + 1) =~= char_pairs(b.fields@).take(
                            i as int,
                        ).push(char_pairs(b.fields@)[i as int]));
                    }
                    i += 1;
                }
                let done = DashboardItem {
                    section: string_of(&b.section),
                    title: string_of(&b.title),
                    fields,
                };
                let ghost before = self.items@;
                self.items.push(done);
                proof {
                    assert(char_pairs(b.fields@).take(b.fields.len() as int) =~= char_pairs(
                        b.fields@,
                    ));
                    assert(item_views(self.items@) =~= item_views(before).push(done@));
                }
            },
        }
    }

    fn step(&mut self, line: &Vec<char>)
        ensures
            final(self).state() == scan_step(old(self).state(), line@),
    {
        let t = trim_start_of(line);
        let h2 = to_chars("## ");
        let h3 = to_chars("### ");
        let dash = to_chars("- ");
        if let Some(rest) = strip_prefix_exec(&t, &h2) {
            self.finish_item();
            self.section = trim_of(&rest);
            return;
        }
        if let Some(rest) = strip_prefix_exec(&t, &h3) {
            self.finish_item();
            let sec = slice_of(&self.section, 0, self.section.len());
            proof {
                assert(sec@ =~= self.section@);
            }
            self.item = Some(ItemBuf { section: sec, title: trim_of(&rest), fields: Vec::new() });
            proof {
                assert(char_pairs(Seq::<(Vec<char>, Vec<char>)>::empty()) =~= Seq::<FieldV>::empty());
            }
            return;
        }
        if self.item.is_some() {
            let kv = match strip_prefix_exec(&t, &dash) {
                Some(rest) => parse_bullet_chars(&rest),
                None => None,
            };
            match kv {
                Some(kv) => {
                    self.finish_field();
                    self.field = Some(kv);
                },
                None => {
                    if self.field.is_some() {
                        let stripped = trim_of(line);
                        if stripped.len() == 0 {
                            self.finish_field();
                        } else {
                            let taken = self.field.take();
                            if let Some((k, v0)) = taken {
                                let mut v = v0;
                                let ghost old_v = v@;
                                if v.len() != 0 {
                                    v.push('\n');
                                }
                                append_chars(&mut v, &stripped);
                                proof {
                                    if old_v.len() != 0 {
                                        assert(v@ =~= old_v + seq!['\n'] + stripped@);
                                    } else {
                                        assert(v@ =~= stripped@);
                                    }
                                }
                                self.field = Some((k, v));
                            }
                        }
                    }
                },
            }
        }
    }
}

/// Parses the body of a bullet (after `- `) as `**key:** value`.
fn parse_bullet_chars(body: &Vec<char>) -> (r: Option<(Vec<char>, Vec<char>)>)
    ensures
        r matches Some(kv) ==> bullet_kv(body@) == Some((kv.0@, kv.1@)),
        r is None ==> bullet_kv(body@) is None,
{
    let b = trim_start_of(body);
    let stars = to_chars("**");
    let colon = to_chars(":");
    proof {
        reveal_strlit("**");
        reveal_strlit(":");
    }
    let rest = match strip_prefix_exec(&b, &stars) {
        Some(r) => r,
        None => return None,
    };
    proof {
        lemma_find_from(rest@, stars@, 0);
    }
    let close = match find_exec(&rest, &stars, 0) {
        Some(c) => c,
        None => return None,
    };
    let key = trim_of(&trim_end_char_exec(&slice_of(&rest, 0, close), ':'));
    let after = trim_of(&slice_of(&rest, close + 2, rest.len()));
    let value = match strip_prefix_exec(&after, &colon) {
        Some(x) => trim_of(&x),
        None => trim_of(&after),
    };
    proof {
        assert(rest@.subrange(0, close as int) == rest@.take(close as int));
    }
    Some((key, value))
}

/// Parses dashboard markdown text into its items.
pub fn parse_text(source_path: &str, text: &str) -> (d: Dashboard)
    ensures
        d.source_path@ == source_path@,
        item_views(d.items@) == dashboard_items(text@),
{
    let v = to_chars(text);
    let ls = lines_of(&v);
    let mut sc = Scanner { items: Vec::new(), section: Vec::new(), item: None, field: None };
    proof {
        assert(sc.state() == scan_init()) by {
            assert(item_views(Seq::<DashboardItem>::empty()) =~= Seq::<ItemV>::empty());
        }
    }
    let mut i: usize = 0;
    while i < ls.len()
        invariant
            i <= ls.len(),
            views(ls@) == lines(text@),
            sc.state() == scan(views(ls@).take(i as int)),
        decreases ls.len() - i,
    {
        proof {
            let taken = views(ls@).take(i + 1);
            assert(taken.drop_last() =~= views(ls@).take(i as int));
            assert(taken.last() == ls@[i as int]@);
        }
        sc.step(&ls[i]);
        i += 1;
    }
    sc.finish_item();
    proof {
        assert(views(ls@).take(ls.len() as int) =~= views(ls@));
    }
    Dashboard { source_path: string_of(&to_chars(source_path)), items: sc.items }
}


// ---------- notes write ----------

/// First index in `[i, hi)` whose line satisfies `p` (or `hi`).
pub open spec fn first_from(ls: Seq<Seq<char>>, i: int, hi: int, p: spec_fn(Seq<char>) -> bool) -> int
    decreases hi - i,
{
    if i < hi && !p(ls[i]) {
        first_from(ls, i + 1, hi, p)
    } else {
        i
    }
}

/// Last index in `[lo, j)` whose line satisfies `p`.
pub open spec fn last_from(ls: Seq<Seq<char>>, lo: int, j: int, p: spec_fn(Seq<char>) -> bool) -> Option<int>
    decreases j - lo,
{
    if j <= lo {
        None
    } else if p(ls[j - 1]) {
        Some(j - 1)
    } else {
        last_from(ls, lo, j - 1, p)
    }
}

pub proof fn lemma_first_from(ls: Seq<Seq<char>>, i: int, hi: int, p: spec_fn(Seq<char>) -> bool)
    requires
        i <= hi,
    ensures
        i <= first_from(ls, i, hi, p) <= hi,
        first_from(ls, i, hi, p) < hi ==> p(ls[first_from(ls, i, hi, p)]),
        forall|m: int| i <= m < first_from(ls, i, hi, p) ==> !p(#[trigger] ls[m]),
    decreases hi - i,
{
    if i < hi && !p(ls[i]) {
        lemma_first_from(ls, i + 1, hi, p);
    }
}

pub proof fn lemma_last_from(ls: Seq<Seq<char>>, lo: int, j: int, p: spec_fn(Seq<char>) -> bool)
    ensures
        last_from(ls, lo, j, p) matches Some(k) ==> lo <= k < j,
    decreases j - lo,
{
    if j > lo && !p(ls[j - 1]) {
        lemma_last_from(ls, lo, j - 1, p);
    }
}

/// ASCII lowercase code of a character (`to_ascii_lowercase`).
pub open spec fn ascii_lower_code(c: char) -> u32 {
    if is_ascii_upper(c) {
        (c as u32 + 32) as u32
    } else {
        c as u32
    }
}

/// `eq_ignore_ascii_case`.
pub open spec fn eq_ignore_ascii_case(a: Seq<char>, b: Seq<char>) -> bool {
    a.len() == b.len() && forall|i: int| 0 <= i < a.len() ==> ascii_lower_code(#[trigger] a[i])
        == ascii_lower_code(b[i])
}

/// `### <want>` (title compared trimmed).
pub open spec fn is_title_line(want: Seq<char>) -> spec_fn(Seq<char>) -> bool {
    |l: Seq<char>|
        match strip_prefix(trim_start(l), "### "@) {
            Some(rest) => trim(rest) == want,
            None => false,
        }
}

/// A line that closes an item block (`### ` or `## `).
pub open spec fn is_block_end(l: Seq<char>) -> bool {
    starts_with(trim_start(l), "### "@) || starts_with(trim_start(l), "## "@)
}

/// The `- **notes:**` bullet (key compared ASCII-case-insensitively).
pub open spec fn is_notes_bullet(l: Seq<char>) -> bool {
    match line_bullet(trim_start(l)) {
        Some(kv) => eq_ignore_ascii_case(kv.0, "notes"@),
        None => false,
    }
}

/// A line that ends a field value: blank, a bullet or a heading.
pub open spec fn is_value_end(l: Seq<char>) -> bool {
    let t = trim_start(l);
    t.len() == 0 || starts_with(t, "- "@) || starts_with(t, "#"@)
}

/// A bullet line.
pub open spec fn is_bullet(l: Seq<char>) -> bool {
    starts_with(trim_start(l), "- "@)
}

/// Index just past the last `\n`/`\r` run ending before `j`.
pub open spec fn eol_start(s: Seq<char>, j: int) -> int
    decreases j,
{
    if 0 < j <= s.len() && (s[j - 1] == '\n' || s[j - 1] == '\r') {
        eol_start(s, j - 1)
    } else {
        j
    }
}

/// The markdown lines of a note: `- **notes:** <first line>` then the
/// other lines indented by two spaces; a blank note is the bare bullet.
pub open spec fn note_bullet_lines(notes: Seq<char>) -> Seq<Seq<char>> {
    let trimmed = notes.take(eol_start(notes, notes.len() as int));
    if trim(trimmed).len() == 0 {
        seq!["- **notes:**"@]
    } else {
        let parts = split_char(trimmed, '\n');
        seq!["- **notes:** "@ + trim(trim_end_char(parts[0], '\r'))] + parts.skip(1).map_values(
            |l: Seq<char>| "  "@ + trim(trim_end_char(l, '\r')),
        )
    }
}

/// The lines of the file after the note of the block at `start`
/// (ending before `end`) was set to `formatted`.
pub open spec fn edited_lines(ls: Seq<Seq<char>>, start: int, end: int, formatted: Seq<Seq<char>>) -> Seq<Seq<char>> {
    let ni = first_from(ls, start + 1, end, |l: Seq<char>| is_notes_bullet(l));
    if ni < end {
        let ve = first_from(ls, ni + 1, end, |l: Seq<char>| is_value_end(l));
        ls.take(ni) + formatted + ls.skip(ve)
    } else {
        let ins = match last_from(ls, start + 1, end, |l: Seq<char>| is_bullet(l)) {
            Some(j) => j + 1,
            None => start + 1,
        };
        ls.take(ins) + formatted + ls.skip(ins)
    }
}

/// `(line breaks written \r\n, all line breaks)` in `s`.
pub open spec fn break_counts(s: Seq<char>) -> (int, int)
    decreases s.len(),
{
    if s.len() == 0 {
        (0, 0)
    } else {
        let (c, n) = break_counts(s.drop_last());
        if s.last() == '\n' {
            (if s.len() >= 2 && s[s.len() - 2] == '\r' {
                c + 1
            } else {
                c
            }, n + 1)
        } else {
            (c, n)
        }
    }
}

/// The file's dominant line ending: `\r\n` when most of its line breaks
/// are written so, else `\n`.
pub open spec fn dominant_newline(text: Seq<char>) -> Seq<char> {
    if 2 * break_counts(text).0 > break_counts(text).1 {
        "\r\n"@
    } else {
        "\n"@
    }
}

/// The text after setting the notes of item `title` to `notes`; `None`
/// when no `### title` line exists. Keeps the file's dominant line
/// ending and its final newline.
pub open spec fn set_note_text(text: Seq<char>, title: Seq<char>, notes: Seq<char>) -> Option<Seq<char>> {
    let nl = dominant_newline(text);
    let ls = lines(text);
    let start = first_from(ls, 0, ls.len() as int, is_title_line(trim(title)));
    if start >= ls.len() {
        None
    } else {
        let end = first_from(ls, start + 1, ls.len() as int, |l: Seq<char>| is_block_end(l));
        let joined = join(edited_lines(ls, start, end, note_bullet_lines(notes)), nl);
        Some(
            if text.len() > 0 && text.last() == '\n' {
                joined + nl
            } else {
                joined
            },
        )
    }
}

fn eq_ignore_ascii_case_exec(a: &Vec<char>, b: &Vec<char>) -> (r: bool)
    ensures
        r == eq_ignore_ascii_case(a@, b@),
{
    if a.len() != b.len() {
        return false;
    }
    let mut i: usize = 0;
    while i < a.len()
        invariant
            a.len() == b.len(),
            i <= a.len(),
            forall|j: int| 0 <= j < i ==> ascii_lower_code(#[trigger] a@[j]) == ascii_lower_code(
                b@[j],
            ),
        decreases a.len() - i,
    {
        let x = a[i];
        let y = b[i];
        let cx: u32 = if 'A' <= x && x <= 'Z' { x as u32 + 32 } else { x as u32 };
        let cy: u32 = if 'A' <= y && y <= 'Z' { y as u32 + 32 } else { y as u32 };
        if cx != cy {
            return false;
        }
        i += 1;
    }
    true
}

fn is_title_line_exec(l: &Vec<char>, want: &Vec<char>) -> (r: bool)
    ensures
        r == is_title_line(want@)(l@),
{
    let t = trim_start_of(l);
    let h3 = to_chars("### ");
    match strip_prefix_exec(&t, &h3) {
        Some(rest) => same(&trim_of(&rest), want),
        None => false,
    }
}

fn is_block_end_exec(l: &Vec<char>) -> (r: bool)
    ensures
        r == is_block_end(l@),
{
    let t = trim_start_of(l);
    let h3 = to_chars("### ");
    let h2 = to_chars("## ");
    starts_with_exec(&t, &h3) || starts_with_exec(&t, &h2)
}

fn is_notes_bullet_exec(l: &Vec<char>) -> (r: bool)
    ensures
        r == is_notes_bullet(l@),
{
    let t = trim_start_of(l);
    let dash = to_chars("- ");
    let notes = to_chars("notes");
    let kv = match strip_prefix_exec(&t, &dash) {
        Some(rest) => parse_bullet_chars(&rest),
        None => None,
    };
    match kv {
        Some(kv) => eq_ignore_ascii_case_exec(&kv.0, &notes),
        None => false,
    }
}

fn is_value_end_exec(l: &Vec<char>) -> (r: bool)
    ensures
        r == is_value_end(l@),
{
    let t = trim_start_of(l);
    let dash = to_chars("- ");
    let hash = to_chars("#");
    t.len() == 0 || starts_with_exec(&t, &dash) || starts_with_exec(&t, &hash)
}

fn is_bullet_exec(l: &Vec<char>) -> (r: bool)
    ensures
        r == is_bullet(l@),
{
    let t = trim_start_of(l);
    let dash = to_chars("- ");
    starts_with_exec(&t, &dash)
}

fn eol_back(v: &Vec<char>) -> (r: usize)
    ensures
        r == eol_start(v@, v.len() as int),
        r <= v.len(),
{
    let mut k = v.len();
    while k > 0 && (v[k - 1] == '\n' || v[k - 1] == '\r')
        invariant
            k <= v.len(),
            eol_start(v@, v.len() as int) == eol_start(v@, k as int),
        decreases k,
    {
        k -= 1;
    }
    k
}

/// Formats a (possibly multi-line) note as markdown bullet lines.
fn format_note_bullet(notes: &Vec<char>) -> (r: Vec<Vec<char>>)
    ensures
        views(r@) == note_bullet_lines(notes@),
{
    let e = eol_back(notes);
    let trimmed = slice_of(notes, 0, e);
    proof {
        assert(trimmed@ =~= notes@.take(e as int));
        reveal_strlit("- **notes:**");
        reveal_strlit("- **notes:** ");
        reveal_strlit("  ");
    }
    let mut out: Vec<Vec<char>> = Vec::new();
    if trim_of(&trimmed).len() == 0 {
        out.push(to_chars("- **notes:**"));
        proof {
            assert(views(out@) =~= seq!["- **notes:**"@]);
        }
        return out;
    }
    let parts = split_char_exec(&trimmed, '\n');
    proof {
        assert(views(parts@).len() >= 1) by {
            lemma_split_char_nonempty(trimmed@, '\n');
        }
    }
    let mut first = to_chars("- **notes:** ");
    append_chars(&mut first, &trim_of(&trim_end_char_exec(&parts[0], '\r')));
    out.push(first);
    let ghost target = note_bullet_lines(notes@);
    let ghost rest_spec = views(parts@).skip(1).map_values(
        |l: Seq<char>| "  "@ + trim(trim_end_char(l, '\r')),
    );
    proof {
        assert(views(out@) =~= target.take(1));
    }
    let mut i: usize = 1;
    while i < parts.len()
        invariant
            1 <= i <= parts.len(),
            views(parts@) == split_char(trimmed@, '\n'),
            target == seq![views(out@)[0]] + rest_spec,
            rest_spec == views(parts@).skip(1).map_values(
                |l: Seq<char>| "  "@ + trim(trim_end_char(l, '\r')),
            ),
            views(out@) == target.take(i as int),
            target.len() == parts.len(),
        decreases parts.len() - i,
    {
        let mut line = to_chars("  ");
        append_chars(&mut line, &trim_of(&trim_end_char_exec(&parts[i], '\r')));
        let ghost before = views(out@);
        out.push(line);
        proof {
            assert(views(out@) =~= before.push(line@));
            assert(rest_spec[i - 1] == "  "@ + trim(trim_end_char(views(parts@)[i as int], '\r')));
            assert(target[i as int] == rest_spec[i - 1]);
            assert(target.take(i + 1) =~= target.take(i as int).push(target[i as int]));
        }
        i += 1;
    }
    proof {
        assert(target.take(parts.len() as int) =~= target);
    }
    out
}

pub proof fn lemma_split_char_nonempty(s: Seq<char>, c: char)
    ensures
        split_char(s, c).len() >= 1,
{
}

fn dominant_newline_exec(v: &Vec<char>) -> (r: Vec<char>)
    ensures
        r@ == dominant_newline(v@),
{
    let mut c: usize = 0;
    let mut n: usize = 0;
    let mut i: usize = 0;
    while i < v.len()
        invariant
            i <= v.len(),
            (c as int, n as int) == break_counts(v@.take(i as int)),
            c <= n <= i,
        decreases v.len() - i,
    {
        proof {
            assert(v@.take(i + 1).drop_last() =~= v@.take(i as int));
            if i >= 1 {
                assert(v@.take(i + 1)[i - 1] == v@[i - 1]);
            }
        }
        if v[i] == '\n' {
            if i >= 1 && v[i - 1] == '\r' {
                c += 1;
            }
            n += 1;
        }
        i += 1;
    }
    proof {
        assert(v@.take(v.len() as int) =~= v@);
    }
    if c > n - c {
        to_chars("\r\n")
    } else {
        to_chars("\n")
    }
}

/// Sets (replaces) the `notes` field of the item titled `item_title` to
/// `new_notes` and returns the new file text; `None` when the item is
/// not found.
pub fn set_note_in_text(text: &str, item_title: &str, new_notes: &str) -> (r: Option<String>)
    ensures
        r matches Some(s) ==> set_note_text(text@, item_title@, new_notes@) == Some(s@),
        r is None ==> set_note_text(text@, item_title@, new_notes@) is None,
{
    let tv = to_chars(text);
    let nl = dominant_newline_exec(&tv);
    let ls = lines_of(&tv);
    let want = trim_of(&to_chars(item_title));
    let ghost gls = views(ls@);
    // Locate the target item block [start, end).
    let mut start: usize = 0;
    while start < ls.len() && !is_title_line_exec(&ls[start], &want)
        invariant
            start <= ls.len(),
            gls == views(ls@),
            first_from(gls, 0, gls.len() as int, is_title_line(want@)) == first_from(
                gls,
                start as int,
                gls.len() as int,
                is_title_line(want@),
            ),
        decreases ls.len() - start,
    {
        start += 1;
    }
    if start >= ls.len() {
        return None;
    }
    let mut end: usize = start + 1;
    while end < ls.len() && !is_block_end_exec(&ls[end])
        invariant
            start < end <= ls.len(),
            gls == views(ls@),
            first_from(gls, start + 1, gls.len() as int, |l: Seq<char>| is_block_end(l))
                == first_from(gls, end as int, gls.len() as int, |l: Seq<char>| is_block_end(l)),
        decreases ls.len() - end,
    {
        end += 1;
    }
    // The notes bullet within the block.
    let mut ni: usize = start + 1;
    while ni < end && !is_notes_bullet_exec(&ls[ni])
        invariant
            start < ni <= end <= ls.len(),
            gls == views(ls@),
            first_from(gls, start + 1, end as int, |l: Seq<char>| is_notes_bullet(l))
                == first_from(gls, ni as int, end as int, |l: Seq<char>| is_notes_bullet(l)),
        decreases end - ni,
    {
        ni += 1;
    }
    let formatted = format_note_bullet(&to_chars(new_notes));
    let mut out: Vec<Vec<char>> = Vec::new();
    if ni < end {
        let mut ve: usize = ni + 1;
        while ve < end && !is_value_end_exec(&ls[ve])
            invariant
                ni < ve <= end <= ls.len(),
                gls == views(ls@),
                first_from(gls, ni + 1, end as int, |l: Seq<char>| is_value_end(l))
                    == first_from(gls, ve as int, end as int, |l: Seq<char>| is_value_end(l)),
            decreases end - ve,
        {
            ve += 1;
        }
        push_range(&mut out, &ls, 0, ni);
        push_range(&mut out, &formatted, 0, formatted.len());
        push_range(&mut out, &ls, ve, ls.len());
        proof {
            assert(gls.subrange(0, ni as int) =~= gls.take(ni as int));
            assert(views(formatted@).subrange(0, formatted.len() as int) =~= views(formatted@));
            assert(gls.subrange(ve as int, gls.len() as int) =~= gls.skip(ve as int));
        }
    } else {
        let mut ins: usize = start + 1;
        let mut k: usize = start + 1;
        while k < end
            invariant
                start < k <= end <= ls.len(),
                gls == views(ls@),
                ins as int == (match last_from(gls, start + 1, k as int, |l: Seq<char>| is_bullet(l)) {
                    Some(j) => j + 1,
                    None => start + 1,
                }),
            decreases end - k,
        {
            if is_bullet_exec(&ls[k]) {
                ins = k + 1;
            }
            k += 1;
        }
        proof {
            lemma_last_from(gls, start + 1, end as int, |l: Seq<char>| is_bullet(l));
        }
        push_range(&mut out, &ls, 0, ins);
        push_range(&mut out, &formatted, 0, formatted.len());
        push_range(&mut out, &ls, ins, ls.len());
        proof {
            assert(gls.subrange(0, ins as int) =~= gls.take(ins as int));
            assert(views(formatted@).subrange(0, formatted.len() as int) =~= views(formatted@));
            assert(gls.subrange(ins as int, gls.len() as int) =~= gls.skip(ins as int));
        }
    }
    let mut joined = join_exec(&out, &nl);
    if tv.len() > 0 && tv[tv.len() - 1] == '\n' {
        append_chars(&mut joined, &nl);
    }
    Some(string_of(&joined))
}


// ---------- notes write ----------

/// The dashboard files a notes write may touch.
pub open spec fn note_file_allowed(file_name: Seq<char>) -> bool {
    file_name == "applications.md"@ || file_name == "plans.md"@
}

/// Admits a notes write to `file_name`: only the dashboard files at the
/// vault root; otherwise `file not allowed: <name>`.
pub fn check_note_file(file_name: &str) -> (r: Result<(), String>)
    ensures
        r is Ok <==> note_file_allowed(file_name@),
        r matches Err(m) ==> m@ == "file not allowed: "@ + file_name@,
{
    let f = to_chars(file_name);
    if same(&f, &to_chars("applications.md")) || same(&f, &to_chars("plans.md")) {
        Ok(())
    } else {
        Err(concat_string(&to_chars("file not allowed: "), &f))
    }
}

/// The notes write on the text of an admitted file: the new text, or
/// `item not found: <title>`.
pub fn apply_note(text: &str, item_title: &str, new_notes: &str) -> (r: Result<String, String>)
    ensures
        r matches Ok(s) ==> set_note_text(text@, item_title@, new_notes@) == Some(s@),
        r matches Err(m) ==> set_note_text(text@, item_title@, new_notes@) is None && m@
            == "item not found: "@ + item_title@,
{
    match set_note_in_text(text, item_title, new_notes) {
        Some(s) => Ok(s),
        None => Err(concat_string(&to_chars("item not found: "), &to_chars(item_title))),
    }
}


// ---------- reading back a written note ----------

/// Fields that hold `notes: val`.
pub open spec fn fields_have_note(fs: Seq<FieldV>, val: Seq<char>) -> bool {
    exists|j: int| 0 <= j < fs.len() && #[trigger] fs[j] == ("notes"@, val)
}

/// An item titled `want` that holds the field `notes: val`.
pub open spec fn item_has_note(it: ItemV, want: Seq<char>, val: Seq<char>) -> bool {
    it.1 == want && fields_have_note(it.2, val)
}

/// Items among which one is titled `want` and holds `notes: val`.
pub open spec fn items_have_note(items: Seq<ItemV>, want: Seq<char>, val: Seq<char>) -> bool {
    exists|i: int| 0 <= i < items.len() && item_has_note(#[trigger] items[i], want, val)
}

/// The scan has met such an item: closed, or still open.
pub open spec fn has_note(st: ScanState, want: Seq<char>, val: Seq<char>) -> bool {
    ||| items_have_note(st.items, want, val)
    ||| (st.item matches Some(it) && item_has_note(it, want, val))
}

proof fn lemma_push_keeps_note(fs: Seq<FieldV>, f: FieldV, val: Seq<char>)
    requires
        fields_have_note(fs, val),
    ensures
        fields_have_note(fs.push(f), val),
{
    let j = choose|j: int| 0 <= j < fs.len() && #[trigger] fs[j] == ("notes"@, val);
    assert(fs.push(f)[j] == fs[j]);
}

proof fn lemma_items_push_keeps_note(items: Seq<ItemV>, x: ItemV, want: Seq<char>, val: Seq<char>)
    requires
        items_have_note(items, want, val) || item_has_note(x, want, val),
    ensures
        items_have_note(items.push(x), want, val),
{
    if items_have_note(items, want, val) {
        let i = choose|i: int| 0 <= i < items.len() && item_has_note(#[trigger] items[i], want, val);
        assert(items.push(x)[i] == items[i]);
    } else {
        assert(items.push(x)[items.len() as int] == x);
    }
}

proof fn lemma_finish_field_keeps(st: ScanState, want: Seq<char>, val: Seq<char>)
    requires
        has_note(st, want, val),
    ensures
        has_note(finish_field(st), want, val),
{
    match st.field {
        None => {},
        Some(f) => match st.item {
            Some(it) => {
                if item_has_note(it, want, val) {
                    lemma_push_keeps_note(it.2, (f.0, trim(f.1)), val);
                }
            },
            None => {},
        },
    }
}

proof fn lemma_finish_item_keeps(st: ScanState, want: Seq<char>, val: Seq<char>)
    requires
        has_note(st, want, val),
    ensures
        items_have_note(finish_item(st).items, want, val),
{
    lemma_finish_field_keeps(st, want, val);
    let s1 = finish_field(st);
    match s1.item {
        Some(it) => {
            lemma_items_push_keeps_note(s1.items, it, want, val);
        },
        None => {},
    }
}

/// The scan holds an open item titled `want`.
pub open spec fn open_item_titled(st: ScanState, want: Seq<char>) -> bool {
    st.item matches Some(it) && it.1 == want
}

/// A line that closes an open field for the parser: blank, a `## ` or
/// `### ` heading, or a `- **key:** value` bullet.
pub open spec fn closes_value(l: Seq<char>) -> bool {
    let t = trim_start(l);
    ||| trim(l).len() == 0
    ||| starts_with(t, "## "@)
    ||| starts_with(t, "### "@)
    ||| line_bullet(t) is Some
}

/// The bullet line that holds the note `v`.
pub open spec fn note_line(v: Seq<char>) -> Seq<char> {
    if v.len() == 0 {
        "- **notes:**"@
    } else {
        "- **notes:** "@ + v
    }
}

proof fn lemma_step_keeps_open(st: ScanState, line: Seq<char>, want: Seq<char>)
    requires
        open_item_titled(st, want),
        !is_block_end(line),
    ensures
        open_item_titled(scan_step(st, line), want),
{
}

proof fn lemma_scan_keeps_open(pre: Seq<Seq<char>>, mid: Seq<Seq<char>>, want: Seq<char>)
    requires
        open_item_titled(scan(pre), want),
        forall|k: int| 0 <= k < mid.len() ==> !is_block_end(#[trigger] mid[k]),
    ensures
        open_item_titled(scan(pre + mid), want),
    decreases mid.len(),
{
    if mid.len() == 0 {
        assert(pre + mid =~= pre);
    } else {
        let dl = mid.drop_last();
        assert forall|k: int| 0 <= k < dl.len() implies !is_block_end(#[trigger] dl[k]) by {
            assert(dl[k] == mid[k]);
        }
        lemma_scan_keeps_open(pre, dl, want);
        assert(pre + mid =~= (pre + dl).push(mid.last()));
        lemma_scan_push(pre + dl, mid.last());
        assert(!is_block_end(mid[mid.len() - 1]));
        lemma_step_keeps_open(scan(pre + dl), mid.last(), want);
    }
}

proof fn lemma_step_title(st: ScanState, line: Seq<char>, want: Seq<char>)
    requires
        is_title_line(want)(line),
    ensures
        open_item_titled(scan_step(st, line), want),
{
    reveal_strlit("## ");
    reveal_strlit("### ");
    let t = trim_start(line);
    assert(t.take(4)[2] == '#');
    assert(strip_prefix(t, "## "@) is None);
}

/// Closing the open field of an item that holds `notes: v` keeps the note.
proof fn lemma_finish_note(st: ScanState, want: Seq<char>, v: Seq<char>)
    requires
        open_item_titled(st, want),
        st.field == Some(("notes"@, v)),
        trim(v) == v,
    ensures
        has_note(finish_field(st), want, v),
        items_have_note(finish_item(st).items, want, v),
{
    let it = st.item->0;
    let fs = it.2.push(("notes"@, trim(v)));
    assert(fs[it.2.len() as int] == ("notes"@, v));
    assert(fields_have_note(fs, v));
    let s1 = finish_field(st);
    assert(finish_field(s1) == s1);
    lemma_finish_item_keeps(s1, want, v);
}

proof fn lemma_step_closes_note(st: ScanState, line: Seq<char>, want: Seq<char>, v: Seq<char>)
    requires
        open_item_titled(st, want),
        st.field == Some(("notes"@, v)),
        trim(v) == v,
        closes_value(line),
    ensures
        has_note(scan_step(st, line), want, v),
{
    lemma_finish_note(st, want, v);
}

/// The note line opens the field `notes: v`.
proof fn lemma_note_line_bullet(v: Seq<char>)
    requires
        trim(v) == v,
        v.len() == 0 || v[0] != ':',
    ensures
        line_bullet(trim_start(note_line(v))) == Some(("notes"@, v)),
        trim_start(note_line(v)) == note_line(v),
        !starts_with(note_line(v), "## "@),
        !starts_with(note_line(v), "### "@),
{
    reveal_strlit("- **notes:**");
    reveal_strlit("- **notes:** ");
    reveal_strlit("- ");
    reveal_strlit("**");
    reveal_strlit("## ");
    reveal_strlit("### ");
    reveal_strlit("notes");
    reveal_strlit(":");
    let f = note_line(v);
    assert(f[0] == '-');
    assert(!is_ws(f[0]));
    assert(ws_end(f, 0) == 0);
    assert(trim_start(f) =~= f);
    assert(f.take(3)[0] == '-');
    assert(f.take(4)[0] == '-');
    let body = f.skip(2);
    assert(strip_prefix(f, "- "@) == Some(body)) by {
        assert(f.take(2) =~= "- "@);
    }
    assert(body[0] == '*');
    assert(ws_end(body, 0) == 0);
    assert(trim_start(body) =~= body);
    let rest = body.skip(2);
    assert(strip_prefix(body, "**"@) == Some(rest)) by {
        assert(body.take(2) =~= "**"@);
    }
    assert(rest.subrange(6, 8) =~= "**"@);
    assert forall|j: int| 0 <= j < 6 implies !occurs_at(rest, "**"@, j) by {
        if occurs_at(rest, "**"@, j) {
            assert(rest.subrange(j, j + 2)[0] == rest[j]);
        }
    }
    lemma_find_first(rest, "**"@, 6, 0);
    let nk = rest.take(6);
    assert(nk =~= seq!['n', 'o', 't', 'e', 's', ':']);
    assert(run_start(nk, ':', 5) == 5);
    assert(run_start(nk, ':', 6) == 5);
    let k0 = trim_end_char(nk, ':');
    assert(k0 =~= "notes"@);
    assert(ws_end(k0, 0) == 0);
    assert(trim_start(k0) =~= k0);
    assert(ws_start(k0, 5) == 5);
    assert(trim(k0) =~= "notes"@);
    let tail = rest.skip(8);
    if v.len() == 0 {
        assert(tail =~= Seq::<char>::empty());
        assert(trim(tail) =~= Seq::<char>::empty());
        assert(strip_prefix(Seq::<char>::empty(), ":"@) is None);
    } else {
        lemma_trim_fixed(v);
        assert(tail =~= seq![' '] + v);
        assert(tail[1] == v[0]);
        assert(ws_end(tail, 1) == 1);
        assert(ws_end(tail, 0) == 1);
        assert(trim_start(tail) =~= v);
        lemma_trim_end_plain(v);
        assert(trim(tail) == v);
        assert(v.take(1) != ":"@) by {
            assert(v.take(1)[0] == v[0]);
        }
        assert(strip_prefix(v, ":"@) is None);
    }
}

/// The trimmed lines of a note as it is written (line breaks at its end
/// dropped).
pub open spec fn note_words(notes: Seq<char>) -> Seq<Seq<char>> {
    split_char(notes.take(eol_start(notes, notes.len() as int)), '\n').map_values(|l: Seq<char>| trim(l))
}

/// A note with nothing but whitespace, written as the bare bullet.
pub open spec fn note_blank(notes: Seq<char>) -> bool {
    trim(notes.take(eol_start(notes, notes.len() as int))).len() == 0
}

/// The value the parser reads back from a written note: its trimmed
/// lines joined by `\n`, or nothing for a blank note.
pub open spec fn note_value(notes: Seq<char>) -> Seq<char> {
    if note_blank(notes) {
        Seq::empty()
    } else {
        join(note_words(notes), "\n"@)
    }
}

/// A written note line that the parser appends to the value before it.
pub open spec fn continues_value(w: Seq<char>) -> bool {
    &&& w.len() > 0
    &&& !starts_with(w, "## "@)
    &&& !starts_with(w, "### "@)
    &&& line_bullet(w) is None
}

/// A note whose written lines all read back into its value: a blank one,
/// or one whose lines are all non-blank, the first not starting with `:`
/// and the others neither headings nor `- **key:** value` bullets.
pub open spec fn note_reads_back(notes: Seq<char>) -> bool {
    let ws = note_words(notes);
    ||| note_blank(notes)
    ||| {
        &&& ws[0].len() > 0
        &&& ws[0][0] != ':'
        &&& forall|i: int| 1 <= i < ws.len() ==> continues_value(#[trigger] ws[i])
    }
}

/// The continuation lines that follow the first line of a note.
pub open spec fn cont_lines(ws: Seq<Seq<char>>) -> Seq<Seq<char>> {
    ws.skip(1).map_values(|w: Seq<char>| "  "@ + w)
}

proof fn lemma_eol_start_bounds(s: Seq<char>, j: int)
    requires
        0 <= j <= s.len(),
    ensures
        0 <= eol_start(s, j) <= j,
    decreases j,
{
    if 0 < j && (s[j - 1] == '\n' || s[j - 1] == '\r') {
        lemma_eol_start_bounds(s, j - 1);
    }
}

/// The pieces of `s` split at `c` hold no `d` when `s` holds none.
proof fn lemma_split_char_without(s: Seq<char>, c: char, d: char)
    requires
        forall|m: int| 0 <= m < s.len() ==> s[m] != d,
    ensures
        forall|k: int, m: int|
            0 <= k < split_char(s, c).len() && 0 <= m < split_char(s, c)[k].len() ==> split_char(s, c)[k][m]
                != d,
    decreases s.len(),
{
    lemma_index_of(s, c);
    if let Some(i) = index_of(s, c) {
        let rest = s.skip(i + 1);
        lemma_split_char_without(rest, c, d);
        assert forall|k: int, m: int|
            0 <= k < split_char(s, c).len() && 0 <= m < split_char(s, c)[k].len() implies split_char(
            s,
            c,
        )[k][m] != d by {
            if k == 0 {
                assert(split_char(s, c)[0][m] == s[m]);
            } else {
                assert(split_char(s, c)[k] == split_char(rest, c)[k - 1]);
            }
        }
    }
}

/// The pieces of `s` split at `c` hold no `c`.
proof fn lemma_split_char_pieces(s: Seq<char>, c: char)
    ensures
        forall|k: int, m: int|
            0 <= k < split_char(s, c).len() && 0 <= m < split_char(s, c)[k].len() ==> split_char(s, c)[k][m]
                != c,
    decreases s.len(),
{
    lemma_index_of(s, c);
    if let Some(i) = index_of(s, c) {
        let rest = s.skip(i + 1);
        lemma_split_char_pieces(rest, c);
        assert forall|k: int, m: int|
            0 <= k < split_char(s, c).len() && 0 <= m < split_char(s, c)[k].len() implies split_char(
            s,
            c,
        )[k][m] != c by {
            if k == 0 {
                assert(split_char(s, c)[0][m] == s[m]);
            } else {
                assert(split_char(s, c)[k] == split_char(rest, c)[k - 1]);
            }
        }
    }
}

/// How a note without `\r` is written: the bare bullet when it is blank,
/// else its first trimmed line on the bullet and the others indented.
proof fn lemma_note_lines(notes: Seq<char>)
    requires
        forall|m: int| 0 <= m < notes.len() ==> notes[m] != '\r',
        note_reads_back(notes),
    ensures
        note_words(notes).len() >= 1,
        forall|k: int| 0 <= k < note_words(notes).len() ==> has_no_newline(#[trigger] note_words(notes)[k]),
        note_blank(notes) ==> note_bullet_lines(notes) == seq![note_line(Seq::<char>::empty())],
        !note_blank(notes) ==> note_bullet_lines(notes) == seq![note_line(note_words(notes)[0])] + cont_lines(
            note_words(notes),
        ),
{
    reveal_strlit("- **notes:**");
    reveal_strlit("- **notes:** ");
    let trimmed = notes.take(eol_start(notes, notes.len() as int));
    lemma_eol_start_bounds(notes, notes.len() as int);
    assert forall|m: int| 0 <= m < trimmed.len() implies trimmed[m] != '\r' by {
        assert(trimmed[m] == notes[m]);
    }
    let parts = split_char(trimmed, '\n');
    let ws = note_words(notes);
    lemma_split_char_nonempty(trimmed, '\n');
    lemma_split_char_pieces(trimmed, '\n');
    lemma_split_char_without(trimmed, '\n', '\r');
    assert forall|k: int| 0 <= k < ws.len() implies has_no_newline(#[trigger] ws[k]) by {
        let p = parts[k];
        let a = ws_end(p, 0);
        lemma_ws_end_bounds(p, 0);
        let t = p.skip(a);
        lemma_ws_start_bounds(t, t.len() as int);
        assert forall|m: int| 0 <= m < ws[k].len() implies ws[k][m] != '\n' by {
            assert(ws[k][m] == t[m]);
            assert(t[m] == p[m + a]);
        }
    }
    assert forall|k: int| 0 <= k < parts.len() implies trim_end_char(#[trigger] parts[k], '\r') == parts[k] by {
        let p = parts[k];
        lemma_run_start_bounds(p, '\r', p.len() as int);
        if p.len() > 0 {
            assert(p[p.len() - 1] != '\r');
        }
        assert(run_start(p, '\r', p.len() as int) == p.len());
        assert(p.take(p.len() as int) =~= p);
    }
    if !note_blank(notes) {
        assert(trim(trim_end_char(parts[0], '\r')) == ws[0]);
        assert(parts.skip(1).map_values(|l: Seq<char>| "  "@ + trim(trim_end_char(l, '\r'))) =~= cont_lines(
            ws,
        )) by {
            assert forall|k: int| 0 <= k < parts.len() - 1 implies parts.skip(1).map_values(
                |l: Seq<char>| "  "@ + trim(trim_end_char(l, '\r')),
            )[k] == cont_lines(ws)[k] by {
                assert(parts.skip(1)[k] == parts[k + 1]);
                assert(ws.skip(1)[k] == ws[k + 1]);
            }
        }
    }
}

/// Scanning the note line inside the item titled `want` opens the field
/// `notes: v`.
proof fn lemma_step_note(st: ScanState, want: Seq<char>, v: Seq<char>)
    requires
        open_item_titled(st, want),
        trim(v) == v,
        v.len() == 0 || v[0] != ':',
    ensures
        open_item_titled(scan_step(st, note_line(v)), want),
        scan_step(st, note_line(v)).field == Some(("notes"@, v)),
{
    lemma_note_line_bullet(v);
}

proof fn lemma_step_keeps(st: ScanState, line: Seq<char>, want: Seq<char>, val: Seq<char>)
    requires
        has_note(st, want, val),
    ensures
        has_note(scan_step(st, line), want, val),
{
    let t = trim_start(line);
    lemma_finish_field_keeps(st, want, val);
    lemma_finish_item_keeps(st, want, val);
}

proof fn lemma_scan_push(ls: Seq<Seq<char>>, x: Seq<char>)
    ensures
        scan(ls.push(x)) == scan_step(scan(ls), x),
{
    assert(ls.push(x).drop_last() =~= ls);
}

proof fn lemma_scan_keeps(pre: Seq<Seq<char>>, rest: Seq<Seq<char>>, want: Seq<char>, val: Seq<char>)
    requires
        has_note(scan(pre), want, val),
    ensures
        has_note(scan(pre + rest), want, val),
    decreases rest.len(),
{
    if rest.len() == 0 {
        assert(pre + rest =~= pre);
    } else {
        lemma_scan_keeps(pre, rest.drop_last(), want, val);
        assert(pre + rest =~= (pre + rest.drop_last()).push(rest.last()));
        lemma_scan_push(pre + rest.drop_last(), rest.last());
        lemma_step_keeps(scan(pre + rest.drop_last()), rest.last(), want, val);
    }
}

/// Where the note goes: the kept lines before it end at `k`, those after
/// it start at `k2`.
proof fn lemma_note_edit_span(ls: Seq<Seq<char>>, start: int, end: int, formatted: Seq<Seq<char>>) -> (r: (
    int,
    int,
))
    requires
        0 <= start < end <= ls.len(),
    ensures
        start < r.0 <= end,
        r.0 <= r.1 <= ls.len(),
        edited_lines(ls, start, end, formatted) == ls.take(r.0) + formatted + ls.skip(r.1),
{
    let ni = first_from(ls, start + 1, end, |l: Seq<char>| is_notes_bullet(l));
    lemma_first_from(ls, start + 1, end, |l: Seq<char>| is_notes_bullet(l));
    if ni < end {
        let ve = first_from(ls, ni + 1, end, |l: Seq<char>| is_value_end(l));
        lemma_first_from(ls, ni + 1, end, |l: Seq<char>| is_value_end(l));
        (ni, ve)
    } else {
        lemma_last_from(ls, start + 1, end, |l: Seq<char>| is_bullet(l));
        let ins = match last_from(ls, start + 1, end, |l: Seq<char>| is_bullet(l)) {
            Some(j) => j + 1,
            None => start + 1,
        };
        (ins, ins)
    }
}

/// The text written from lines that hold no `\n` and do not end in `\r`
/// reads back as those lines.
proof fn lemma_written_lines(text: Seq<char>, edited: Seq<Seq<char>>, nl: Seq<char>)
    requires
        edited.len() > 0,
        nl == seq!['\n'] || nl == seq!['\r', '\n'],
        forall|m: int| 0 <= m < edited.len() ==> has_no_newline(#[trigger] edited[m]),
        forall|m: int| 0 <= m < edited.len() ==> #[trigger] edited[m].len() == 0 || edited[m].last() != '\r',
        !(text.len() > 0 && text.last() == '\n') ==> edited.last().len() > 0,
    ensures
        lines(
            if text.len() > 0 && text.last() == '\n' {
                join(edited, nl) + nl
            } else {
                join(edited, nl)
            },
        ) == edited,
{
    if text.len() > 0 && text.last() == '\n' {
        lemma_lines_join_closed(edited, nl);
    } else {
        lemma_lines_join(edited, nl);
    }
}

/// The ends of a `join` of non-empty pieces are those of its first and
/// last piece.
proof fn lemma_join_ends(ls: Seq<Seq<char>>, sep: Seq<char>)
    requires
        ls.len() > 0,
        forall|k: int| 0 <= k < ls.len() ==> #[trigger] ls[k].len() > 0,
    ensures
        join(ls, sep).len() > 0,
        join(ls, sep)[0] == ls[0][0],
        join(ls, sep).last() == ls.last().last(),
    decreases ls.len(),
{
    if ls.len() > 1 {
        let dl = ls.drop_last();
        assert forall|k: int| 0 <= k < dl.len() implies #[trigger] dl[k].len() > 0 by {
            assert(dl[k] == ls[k]);
        }
        lemma_join_ends(dl, sep);
        assert(ls[ls.len() - 1].len() > 0);
    }
}

/// Text that starts and ends in non-whitespace is its own `trim`.
proof fn lemma_trim_plain(x: Seq<char>)
    requires
        x.len() > 0,
        !is_ws(x[0]),
        !is_ws(x.last()),
    ensures
        trim(x) == x,
{
    assert(ws_end(x, 0) == 0);
    assert(trim_start(x) =~= x);
    lemma_trim_end_plain(x);
}

/// A continuation line of the note adds its text to the value.
proof fn lemma_step_cont(st: ScanState, want: Seq<char>, acc: Seq<char>, w: Seq<char>)
    requires
        open_item_titled(st, want),
        st.field == Some(("notes"@, acc)),
        acc.len() > 0,
        continues_value(w),
        trim(w) == w,
    ensures
        open_item_titled(scan_step(st, "  "@ + w), want),
        scan_step(st, "  "@ + w).field == Some(("notes"@, acc + "\n"@ + w)),
{
    reveal_strlit("  ");
    reveal_strlit("\n");
    lemma_trim_fixed(w);
    let line = "  "@ + w;
    assert(line[0] == ' ' && line[1] == ' ' && line[2] == w[0]);
    assert(ws_end(line, 2) == 2);
    assert(ws_end(line, 1) == 2);
    assert(ws_end(line, 0) == 2);
    assert(trim_start(line) =~= w);
    lemma_trim_end_plain(w);
    assert(trim(line) == w);
    assert(acc + "\n"@ + w =~= acc + seq!['\n'] + w);
}

/// Scanning the written lines of a non-blank note inside the item titled
/// `want` leaves the field `notes` open with the note's value.
proof fn lemma_scan_note_lines(pre: Seq<Seq<char>>, ws: Seq<Seq<char>>, want: Seq<char>)
    requires
        open_item_titled(scan(pre), want),
        ws.len() >= 1,
        forall|k: int| 0 <= k < ws.len() ==> #[trigger] ws[k].len() > 0 && trim(ws[k]) == ws[k],
        ws[0][0] != ':',
        forall|i: int| 1 <= i < ws.len() ==> continues_value(#[trigger] ws[i]),
    ensures
        open_item_titled(scan(pre + (seq![note_line(ws[0])] + cont_lines(ws))), want),
        scan(pre + (seq![note_line(ws[0])] + cont_lines(ws))).field == Some(("notes"@, join(ws, "\n"@))),
    decreases ws.len(),
{
    let f = note_line(ws[0]);
    assert(ws[0].len() > 0 && trim(ws[0]) == ws[0]);
    if ws.len() == 1 {
        assert(cont_lines(ws) =~= Seq::<Seq<char>>::empty());
        assert(pre + (seq![f] + cont_lines(ws)) =~= pre.push(f));
        lemma_scan_push(pre, f);
        lemma_step_note(scan(pre), want, ws[0]);
    } else {
        let dl = ws.drop_last();
        let w = ws.last();
        assert forall|k: int| 0 <= k < dl.len() implies #[trigger] dl[k].len() > 0 && trim(dl[k]) == dl[k] by {
            assert(dl[k] == ws[k]);
        }
        assert forall|i: int| 1 <= i < dl.len() implies continues_value(#[trigger] dl[i]) by {
            assert(dl[i] == ws[i]);
        }
        lemma_scan_note_lines(pre, dl, want);
        let line = "  "@ + w;
        assert(cont_lines(ws) =~= cont_lines(dl).push(line));
        let q = pre + (seq![note_line(dl[0])] + cont_lines(dl));
        assert(pre + (seq![f] + cont_lines(ws)) =~= q.push(line));
        lemma_scan_push(q, line);
        assert forall|k: int| 0 <= k < dl.len() implies #[trigger] dl[k].len() > 0 by {
            assert(dl[k] == ws[k]);
        }
        lemma_join_ends(dl, "\n"@);
        assert(ws[ws.len() - 1].len() > 0 && trim(ws[ws.len() - 1]) == ws[ws.len() - 1]);
        assert(continues_value(ws[ws.len() - 1]));
        lemma_step_cont(scan(q), want, join(dl, "\n"@), w);
    }
}

/// Scanning the kept lines up to the note meets the item titled `want`,
/// still open.
proof fn lemma_scan_to_note(ls: Seq<Seq<char>>, start: int, k: int, want: Seq<char>)
    requires
        0 <= start < k <= ls.len(),
        is_title_line(want)(ls[start]),
        forall|m: int| start < m < k ==> !is_block_end(#[trigger] ls[m]),
    ensures
        open_item_titled(scan(ls.take(k)), want),
{
    let p1 = ls.take(start + 1);
    assert(p1 =~= ls.take(start).push(ls[start]));
    lemma_scan_push(ls.take(start), ls[start]);
    lemma_step_title(scan(ls.take(start)), ls[start], want);
    let mid = ls.subrange(start + 1, k);
    assert forall|m: int| 0 <= m < mid.len() implies !is_block_end(#[trigger] mid[m]) by {
        assert(mid[m] == ls[m + start + 1]);
    }
    lemma_scan_keeps_open(p1, mid, want);
    assert(ls.take(k) =~= p1 + mid);
}

/// After the note, the first kept line closes its field and the item ends
/// up among the parsed items with the note.
proof fn lemma_scan_after_note(q: Seq<Seq<char>>, rest: Seq<Seq<char>>, want: Seq<char>, v: Seq<char>)
    requires
        open_item_titled(scan(q), want),
        scan(q).field == Some(("notes"@, v)),
        trim(v) == v,
        rest.len() > 0 ==> closes_value(rest[0]),
    ensures
        items_have_note(finish_item(scan(q + rest)).items, want, v),
{
    if rest.len() == 0 {
        assert(q + rest =~= q);
        lemma_finish_note(scan(q), want, v);
    } else {
        let q2 = q.push(rest[0]);
        lemma_scan_push(q, rest[0]);
        lemma_step_closes_note(scan(q), rest[0], want, v);
        lemma_scan_keeps(q2, rest.skip(1), want, v);
        assert(q + rest =~= q2 + rest.skip(1));
        lemma_finish_item_keeps(scan(q + rest), want, v);
    }
}

/// Setting the note of an item and parsing the file again finds the item,
/// under its trimmed title, with the field `notes` holding the note's
/// trimmed lines joined by `\n` (nothing for a blank note). Stated for a
/// note without `\r` whose lines all read back (`note_reads_back`), in a
/// file none of whose lines ends in `\r` and whose lines after the item's
/// title line each close a field value (blank, heading or
/// `- **key:** value` bullet).
pub proof fn lemma_set_note_read_back(text: Seq<char>, title: Seq<char>, notes: Seq<char>)
    requires
        set_note_text(text, title, notes) is Some,
        forall|m: int| 0 <= m < notes.len() ==> notes[m] != '\r',
        note_reads_back(notes),
        forall|k: int|
            0 <= k < lines(text).len() ==> #[trigger] lines(text)[k].len() == 0 || lines(text)[k].last()
                != '\r',
        forall|k: int|
            first_from(lines(text), 0, lines(text).len() as int, is_title_line(trim(title))) < k < lines(
                text,
            ).len() ==> closes_value(#[trigger] lines(text)[k]),
    ensures
        items_have_note(dashboard_items(set_note_text(text, title, notes)->0), trim(title), note_value(notes)),
{
    reveal_strlit("\r\n");
    reveal_strlit("\n");
    reveal_strlit("- **notes:**");
    reveal_strlit("- **notes:** ");
    reveal_strlit("  ");
    let ls = lines(text);
    let n = ls.len() as int;
    let want = trim(title);
    let start = first_from(ls, 0, n, is_title_line(want));
    lemma_first_from(ls, 0, n, is_title_line(want));
    let end = first_from(ls, start + 1, n, |l: Seq<char>| is_block_end(l));
    lemma_first_from(ls, start + 1, n, |l: Seq<char>| is_block_end(l));
    lemma_note_lines(notes);
    let ws = note_words(notes);
    let v = note_value(notes);
    let formatted = note_bullet_lines(notes);
    let (k, k2) = lemma_note_edit_span(ls, start, end, formatted);
    let edited = edited_lines(ls, start, end, formatted);
    let nf = formatted.len() as int;
    // Each written note line holds no line break and ends in non-whitespace.
    if !note_blank(notes) {
        assert forall|i: int| 0 <= i < ws.len() implies #[trigger] ws[i].len() > 0 && trim(ws[i]) == ws[i] by {
            if i > 0 {
                assert(continues_value(ws[i]));
            }
            crate::text::lemma_trim_idempotent(split_char(
                notes.take(eol_start(notes, notes.len() as int)),
                '\n',
            )[i]);
        }
    }
    assert forall|m: int| 0 <= m < nf implies has_no_newline(#[trigger] formatted[m]) && formatted[m].len() > 0
        && !is_ws(formatted[m].last()) by {
        if note_blank(notes) {
            assert(formatted[m] == "- **notes:**"@);
        } else if m == 0 {
            assert(has_no_newline(ws[0]));
            lemma_trim_fixed(ws[0]);
            assert(formatted[0] == "- **notes:** "@ + ws[0]);
        } else {
            assert(formatted[m] == cont_lines(ws)[m - 1]);
            assert(cont_lines(ws)[m - 1] == "  "@ + ws[m]);
            assert(has_no_newline(ws[m]));
            lemma_trim_fixed(ws[m]);
        }
    }
    // The written text reads back as the edited lines.
    let nl = dominant_newline(text);
    lemma_lines_no_newline(text);
    assert forall|m: int| 0 <= m < edited.len() implies has_no_newline(#[trigger] edited[m]) by {
        if m < k {
            assert(edited[m] == ls[m]);
        } else if m < k + nf {
            assert(edited[m] == formatted[m - k]);
        } else {
            assert(edited[m] == ls[m - k - nf + k2]);
        }
    }
    assert forall|m: int| 0 <= m < edited.len() implies #[trigger] edited[m].len() == 0 || edited[m].last()
        != '\r' by {
        if m < k {
            assert(edited[m] == ls[m]);
        } else if m < k + nf {
            assert(edited[m] == formatted[m - k]);
        } else {
            assert(edited[m] == ls[m - k - nf + k2]);
        }
    }
    if !(text.len() > 0 && text.last() == '\n') {
        if k2 < n {
            lemma_lines_last_nonempty(text);
            assert(edited.last() == ls.last());
        } else {
            assert(edited.last() == formatted[nf - 1]);
        }
    }
    assert("\r\n"@ =~= seq!['\r', '\n']);
    assert("\n"@ =~= seq!['\n']);
    lemma_written_lines(text, edited, nl);
    // Scanning the edited lines meets the item and its note.
    assert forall|m: int| start < m < k implies !is_block_end(#[trigger] ls[m]) by {
        assert(!(|l: Seq<char>| is_block_end(l))(ls[m]));
    }
    lemma_scan_to_note(ls, start, k, want);
    let p = ls.take(k);
    let q = p + formatted;
    if note_blank(notes) {
        assert(q =~= p.push(note_line(Seq::<char>::empty())));
        lemma_scan_push(p, note_line(Seq::<char>::empty()));
        assert(trim(Seq::<char>::empty()) =~= Seq::<char>::empty());
        lemma_step_note(scan(p), want, Seq::<char>::empty());
    } else {
        lemma_scan_note_lines(p, ws, want);
        lemma_join_ends(ws, "\n"@);
        lemma_trim_fixed(ws[0]);
        lemma_trim_fixed(ws[ws.len() - 1]);
        lemma_trim_plain(v);
    }
    let rest = ls.skip(k2);
    assert(edited =~= q + rest);
    if rest.len() > 0 {
        assert(rest[0] == ls[k2]);
    }
    lemma_scan_after_note(q, rest, want, v);
}

// ---------- clearing a written note ----------

proof fn lemma_break_counts_append(a: Seq<char>, b: Seq<char>)
    ensures
        break_counts(a + b) == (
            break_counts(a).0 + break_counts(b).0 + (if b.len() > 0 && b[0] == '\n' && a.len() > 0
                && a.last() == '\r' {
                1int
            } else {
                0int
            }),
            break_counts(a).1 + break_counts(b).1,
        ),
    decreases b.len(),
{
    if b.len() == 0 {
        assert(a + b =~= a);
    } else {
        lemma_break_counts_append(a, b.drop_last());
        assert((a + b).drop_last() =~= a + b.drop_last());
        assert((a + b).last() == b.last());
        if b.len() >= 2 {
            assert((a + b)[(a + b).len() - 2] == b[b.len() - 2]);
        } else if a.len() > 0 {
            assert((a + b)[(a + b).len() - 2] == a.last());
        }
    }
}

proof fn lemma_break_counts_plain(x: Seq<char>)
    requires
        has_no_newline(x),
    ensures
        break_counts(x) == (0int, 0int),
    decreases x.len(),
{
    if x.len() > 0 {
        assert(x[x.len() - 1] != '\n');
        assert(has_no_newline(x.drop_last()));
        lemma_break_counts_plain(x.drop_last());
    }
}

/// The line breaks of lines joined (and closed, when `closed`) by one
/// separator: all of that separator's kind.
proof fn lemma_join_breaks(ls: Seq<Seq<char>>, sep: Seq<char>, closed: bool)
    requires
        ls.len() > 0,
        sep == seq!['\n'] || sep == seq!['\r', '\n'],
        forall|k: int| 0 <= k < ls.len() ==> has_no_newline(#[trigger] ls[k]),
        forall|k: int| 0 <= k < ls.len() ==> #[trigger] ls[k].len() == 0 || ls[k].last() != '\r',
    ensures
        ({
            let t = if closed {
                join(ls, sep) + sep
            } else {
                join(ls, sep)
            };
            let n = ls.len() - 1 + if closed {
                1int
            } else {
                0int
            };
            &&& break_counts(t).1 == n
            &&& break_counts(t).0 == if sep == seq!['\r', '\n'] {
                n
            } else {
                0
            }
            &&& (t.len() > 0 ==> t.last() != '\r')
        }),
    decreases ls.len(),
{
    let last = ls.last();
    assert(has_no_newline(ls[ls.len() - 1]));
    assert(ls[ls.len() - 1].len() == 0 || ls[ls.len() - 1].last() != '\r');
    lemma_break_counts_plain(last);
    assert(break_counts(Seq::<char>::empty()) == (0int, 0int));
    assert(break_counts(seq!['\n']) == (0int, 1int)) by {
        assert(seq!['\n'].drop_last() =~= Seq::<char>::empty());
        assert(seq!['\n'].last() == '\n');
    }
    assert(break_counts(seq!['\r']) == (0int, 0int)) by {
        assert(seq!['\r'].drop_last() =~= Seq::<char>::empty());
        assert(seq!['\r'].last() == '\r');
    }
    assert(break_counts(seq!['\r', '\n']) == (1int, 1int)) by {
        assert(seq!['\r', '\n'].drop_last() =~= seq!['\r']);
        assert(seq!['\r', '\n'].last() == '\n');
        assert(seq!['\r', '\n'][0] == '\r');
    }
    if ls.len() == 1 {
        let j = join(ls, sep);
        assert(j == last);
        if closed {
            lemma_break_counts_append(j, sep);
        }
    } else {
        let dl = ls.drop_last();
        assert forall|k: int| 0 <= k < dl.len() implies has_no_newline(#[trigger] dl[k]) by {
            assert(dl[k] == ls[k]);
        }
        assert forall|k: int| 0 <= k < dl.len() implies #[trigger] dl[k].len() == 0 || dl[k].last() != '\r' by {
            assert(dl[k] == ls[k]);
        }
        lemma_join_breaks(dl, sep, false);
        let a = join(dl, sep);
        lemma_break_counts_append(sep, last);
        lemma_break_counts_append(a, sep + last);
        assert(join(ls, sep) == a + sep + last);
        assert(a + sep + last =~= a + (sep + last));
        let j = join(ls, sep);
        if last.len() > 0 {
            assert(j.last() == last.last());
        } else {
            assert(j.last() == sep.last());
        }
        if closed {
            lemma_break_counts_append(j, sep);
        }
    }
}

/// A file written with one line ending throughout: its lines joined by
/// `nl`, closed by `nl` when it ends in a line break.
pub open spec fn written_with(text: Seq<char>, nl: Seq<char>) -> bool {
    text == join(lines(text), nl) + if text.len() > 0 && text.last() == '\n' {
        nl
    } else {
        Seq::<char>::empty()
    }
}

/// `first_from` is the first index in `[i, hi)` whose line satisfies `p`.
proof fn lemma_first_from_is(ls: Seq<Seq<char>>, i: int, hi: int, p: spec_fn(Seq<char>) -> bool, r: int)
    requires
        i <= r <= hi,
        forall|m: int| i <= m < r ==> !p(#[trigger] ls[m]),
        r < hi ==> p(ls[r]),
    ensures
        first_from(ls, i, hi, p) == r,
    decreases r - i,
{
    if i < r {
        assert(!p(ls[i]));
        lemma_first_from_is(ls, i + 1, hi, p, r);
    }
}

/// The index of the item's title line, of the line that ends its block,
/// and of its notes bullet, as the note writer finds them.
pub open spec fn title_at(ls: Seq<Seq<char>>, title: Seq<char>) -> int {
    first_from(ls, 0, ls.len() as int, is_title_line(trim(title)))
}

pub open spec fn block_end_at(ls: Seq<Seq<char>>, start: int) -> int {
    first_from(ls, start + 1, ls.len() as int, |l: Seq<char>| is_block_end(l))
}

pub open spec fn notes_at(ls: Seq<Seq<char>>, start: int, end: int) -> int {
    first_from(ls, start + 1, end, |l: Seq<char>| is_notes_bullet(l))
}

/// The item titled `title` holds the bare `- **notes:**` bullet, followed
/// by a line that ends a value (or by the end of the block).
pub open spec fn bare_note_slot(text: Seq<char>, title: Seq<char>) -> bool {
    let ls = lines(text);
    let start = title_at(ls, title);
    let end = block_end_at(ls, start);
    let ni = notes_at(ls, start, end);
    &&& start < ls.len()
    &&& ni < end
    &&& ls[ni] == "- **notes:**"@
    &&& (ni + 1 == end || is_value_end(ls[ni + 1]))
}

/// A note whose written lines the writer finds again as one value: it
/// reads back, and no continuation line starts with `- ` or `#`.
pub open spec fn note_rewritable(notes: Seq<char>) -> bool {
    let ws = note_words(notes);
    ||| note_blank(notes)
    ||| {
        &&& note_reads_back(notes)
        &&& forall|i: int|
            1 <= i < ws.len() ==> !starts_with(#[trigger] ws[i], "- "@) && !starts_with(ws[i], "#"@)
    }
}

/// The written lines of a note hold no line break, are not empty and end
/// in non-whitespace; the first is the notes bullet and no line ends a
/// block; after the first none ends a value.
proof fn lemma_formatted_ok(notes: Seq<char>)
    requires
        forall|m: int| 0 <= m < notes.len() ==> notes[m] != '\r',
        note_rewritable(notes),
    ensures
        note_bullet_lines(notes).len() >= 1,
        forall|m: int|
            0 <= m < note_bullet_lines(notes).len() ==> has_no_newline(#[trigger] note_bullet_lines(notes)[m])
                && note_bullet_lines(notes)[m].len() > 0 && !is_ws(note_bullet_lines(notes)[m].last())
                && !is_block_end(note_bullet_lines(notes)[m]),
        is_notes_bullet(note_bullet_lines(notes)[0]),
        forall|m: int|
            1 <= m < note_bullet_lines(notes).len() ==> !is_value_end(#[trigger] note_bullet_lines(notes)[m]),
{
    reveal_strlit("- **notes:**");
    reveal_strlit("- **notes:** ");
    reveal_strlit("  ");
    reveal_strlit("### ");
    reveal_strlit("## ");
    reveal_strlit("- ");
    reveal_strlit("#");
    reveal_strlit("notes");
    lemma_note_lines(notes);
    let ws = note_words(notes);
    let f = note_bullet_lines(notes);
    if !note_blank(notes) {
        assert forall|i: int| 0 <= i < ws.len() implies #[trigger] ws[i].len() > 0 && trim(ws[i]) == ws[i] by {
            if i > 0 {
                assert(continues_value(ws[i]));
            }
            crate::text::lemma_trim_idempotent(split_char(
                notes.take(eol_start(notes, notes.len() as int)),
                '\n',
            )[i]);
        }
    }
    let v = if note_blank(notes) {
        Seq::<char>::empty()
    } else {
        ws[0]
    };
    assert(trim(Seq::<char>::empty()) =~= Seq::<char>::empty());
    lemma_note_line_bullet(v);
    assert(f[0] == note_line(v));
    assert(eq_ignore_ascii_case("notes"@, "notes"@));
    assert forall|m: int| 0 <= m < f.len() implies has_no_newline(#[trigger] f[m]) && f[m].len() > 0
        && !is_ws(f[m].last()) && !is_block_end(f[m]) by {
        if note_blank(notes) {
            assert(f[m] == "- **notes:**"@);
        } else if m == 0 {
            assert(has_no_newline(ws[0]));
            lemma_trim_fixed(ws[0]);
            assert(f[0] == "- **notes:** "@ + ws[0]);
        } else {
            assert(f[m] == cont_lines(ws)[m - 1]);
            assert(cont_lines(ws)[m - 1] == "  "@ + ws[m]);
            assert(has_no_newline(ws[m]));
            lemma_trim_fixed(ws[m]);
            lemma_cont_trim(ws[m]);
            let w = ws[m];
            assert(!starts_with(w, "#"@));
            if starts_with(w, "## "@) {
                assert(w.take(3)[0] == w.take(1)[0]);
                assert(w.take(1) =~= "#"@);
            }
            if starts_with(w, "### "@) {
                assert(w.take(4)[0] == w.take(1)[0]);
                assert(w.take(1) =~= "#"@);
            }
        }
    }
    assert forall|m: int| 1 <= m < f.len() implies !is_value_end(#[trigger] f[m]) by {
        assert(f[m] == cont_lines(ws)[m - 1]);
        assert(cont_lines(ws)[m - 1] == "  "@ + ws[m]);
        lemma_trim_fixed(ws[m]);
        lemma_cont_trim(ws[m]);
    }
}

/// A continuation line reads, past its indent, as the note line itself.
proof fn lemma_cont_trim(w: Seq<char>)
    requires
        w.len() > 0,
        !is_ws(w[0]),
    ensures
        trim_start("  "@ + w) == w,
{
    reveal_strlit("  ");
    let line = "  "@ + w;
    assert(line[0] == ' ' && line[1] == ' ' && line[2] == w[0]);
    assert(ws_end(line, 2) == 2);
    assert(ws_end(line, 1) == 2);
    assert(ws_end(line, 0) == 2);
    assert(trim_start(line) =~= w);
}

/// After the bare bullet at `ni` is replaced by the written note `f`, the
/// writer finds the same title, the same block (shifted by the note's
/// extra lines), the note's bullet at `ni` and its value ending right
/// after it.
proof fn lemma_rewrite_finds_note(
    ls: Seq<Seq<char>>,
    want: Seq<char>,
    start: int,
    end: int,
    ni: int,
    f: Seq<Seq<char>>,
)
    requires
        0 <= start < ni < end <= ls.len(),
        first_from(ls, 0, ls.len() as int, is_title_line(want)) == start,
        first_from(ls, start + 1, ls.len() as int, |l: Seq<char>| is_block_end(l)) == end,
        first_from(ls, start + 1, end, |l: Seq<char>| is_notes_bullet(l)) == ni,
        ni + 1 < end ==> is_value_end(ls[ni + 1]),
        f.len() >= 1,
        is_notes_bullet(f[0]),
        forall|m: int| 0 <= m < f.len() ==> !is_block_end(#[trigger] f[m]),
        forall|m: int| 1 <= m < f.len() ==> !is_value_end(#[trigger] f[m]),
    ensures
        ({
            let l1 = ls.take(ni) + f + ls.skip(ni + 1);
            let end1 = end + f.len() - 1;
            &&& first_from(l1, 0, l1.len() as int, is_title_line(want)) == start
            &&& first_from(l1, start + 1, l1.len() as int, |l: Seq<char>| is_block_end(l)) == end1
            &&& first_from(l1, start + 1, end1, |l: Seq<char>| is_notes_bullet(l)) == ni
            &&& first_from(l1, ni + 1, end1, |l: Seq<char>| is_value_end(l)) == ni + f.len()
        }),
{
    let n = ls.len() as int;
    let nf = f.len() as int;
    let l1 = ls.take(ni) + f + ls.skip(ni + 1);
    let end1 = end + nf - 1;
    assert(l1.len() == n + nf - 1);
    assert forall|m: int| 0 <= m < ni implies #[trigger] l1[m] == ls[m] by {}
    assert forall|m: int| ni <= m < ni + nf implies #[trigger] l1[m] == f[m - ni] by {}
    assert forall|m: int| ni + nf <= m < l1.len() implies #[trigger] l1[m] == ls[m - nf + 1] by {}
    lemma_first_from(ls, 0, n, is_title_line(want));
    lemma_first_from(ls, start + 1, n, |l: Seq<char>| is_block_end(l));
    lemma_first_from(ls, start + 1, end, |l: Seq<char>| is_notes_bullet(l));
    // The title.
    assert forall|m: int| 0 <= m < start implies !is_title_line(want)(#[trigger] l1[m]) by {
        assert(l1[m] == ls[m]);
    }
    assert(l1[start] == ls[start]);
    lemma_first_from_is(l1, 0, l1.len() as int, is_title_line(want), start);
    // The block's end.
    assert forall|m: int| start + 1 <= m < end1 implies !(|l: Seq<char>| is_block_end(l))(#[trigger] l1[m]) by {
        if m < ni {
            assert(l1[m] == ls[m]);
            assert(!(|l: Seq<char>| is_block_end(l))(ls[m]));
        } else if m < ni + nf {
            assert(l1[m] == f[m - ni]);
        } else {
            assert(l1[m] == ls[m - nf + 1]);
            assert(!(|l: Seq<char>| is_block_end(l))(ls[m - nf + 1]));
        }
    }
    if end1 < l1.len() {
        assert(l1[end1] == ls[end]);
    }
    lemma_first_from_is(l1, start + 1, l1.len() as int, |l: Seq<char>| is_block_end(l), end1);
    // The notes bullet.
    assert forall|m: int| start + 1 <= m < ni implies !(|l: Seq<char>| is_notes_bullet(l))(#[trigger] l1[m]) by {
        assert(l1[m] == ls[m]);
        assert(!(|l: Seq<char>| is_notes_bullet(l))(ls[m]));
    }
    assert(l1[ni] == f[0]);
    lemma_first_from_is(l1, start + 1, end1, |l: Seq<char>| is_notes_bullet(l), ni);
    // The end of its value.
    assert forall|m: int| ni + 1 <= m < ni + nf implies !(|l: Seq<char>| is_value_end(l))(#[trigger] l1[m]) by {
        assert(l1[m] == f[m - ni]);
    }
    if ni + nf < end1 {
        assert(l1[ni + nf] == ls[ni + 1]);
    }
    lemma_first_from_is(l1, ni + 1, end1, |l: Seq<char>| is_value_end(l), ni + nf);
}

/// The line breaks of a written file are all of its dominant kind, so
/// writing its lines again with that ending keeps it dominant.
proof fn lemma_rewritten_dominant(text: Seq<char>, l1: Seq<Seq<char>>)
    requires
        written_with(text, dominant_newline(text)),
        lines(text).len() > 0,
        l1.len() >= lines(text).len(),
        forall|k: int| 0 <= k < lines(text).len() ==> has_no_newline(#[trigger] lines(text)[k]),
        forall|k: int|
            0 <= k < lines(text).len() ==> #[trigger] lines(text)[k].len() == 0 || lines(text)[k].last()
                != '\r',
        forall|k: int| 0 <= k < l1.len() ==> has_no_newline(#[trigger] l1[k]),
        forall|k: int| 0 <= k < l1.len() ==> #[trigger] l1[k].len() == 0 || l1[k].last() != '\r',
    ensures
        ({
            let nl = dominant_newline(text);
            let closed = text.len() > 0 && text.last() == '\n';
            dominant_newline(
                if closed {
                    join(l1, nl) + nl
                } else {
                    join(l1, nl)
                },
            ) == nl
        }),
{
    reveal_strlit("\r\n");
    reveal_strlit("\n");
    assert("\r\n"@ =~= seq!['\r', '\n']);
    assert("\n"@ =~= seq!['\n']);
    let nl = dominant_newline(text);
    let closed = text.len() > 0 && text.last() == '\n';
    lemma_join_breaks(lines(text), nl, closed);
    lemma_join_breaks(l1, nl, closed);
}

/// Writing a note into a bare `- **notes:**` bullet and then clearing it
/// gives back the file byte for byte. Stated for a file written with one
/// line ending throughout (`written_with`), none of whose lines ends in
/// `\r`, whose item holds the bare bullet followed by a line that ends a
/// value (`bare_note_slot`), and for a note without `\r` whose written
/// lines the writer finds again as one value (`note_rewritable`).
pub proof fn lemma_clear_note_restores(text: Seq<char>, title: Seq<char>, notes: Seq<char>)
    requires
        bare_note_slot(text, title),
        written_with(text, dominant_newline(text)),
        forall|k: int|
            0 <= k < lines(text).len() ==> #[trigger] lines(text)[k].len() == 0 || lines(text)[k].last()
                != '\r',
        forall|m: int| 0 <= m < notes.len() ==> notes[m] != '\r',
        note_rewritable(notes),
    ensures
        set_note_text(text, title, notes) is Some,
        set_note_text(set_note_text(text, title, notes)->0, title, Seq::<char>::empty()) == Some(text),
{
    reveal_strlit("\r\n");
    reveal_strlit("\n");
    reveal_strlit("- **notes:**");
    assert("\r\n"@ =~= seq!['\r', '\n']);
    assert("\n"@ =~= seq!['\n']);
    let ls = lines(text);
    let n = ls.len() as int;
    let want = trim(title);
    let start = title_at(ls, title);
    let end = block_end_at(ls, start);
    let ni = notes_at(ls, start, end);
    lemma_first_from(ls, 0, n, is_title_line(want));
    lemma_first_from(ls, start + 1, n, |l: Seq<char>| is_block_end(l));
    lemma_first_from(ls, start + 1, end, |l: Seq<char>| is_notes_bullet(l));
    let nl = dominant_newline(text);
    let closed = text.len() > 0 && text.last() == '\n';
    let f = note_bullet_lines(notes);
    let nf = f.len() as int;
    lemma_formatted_ok(notes);
    // The first write.
    if ni + 1 < end {
        assert(is_value_end(ls[ni + 1]));
    }
    lemma_first_from_is(ls, ni + 1, end, |l: Seq<char>| is_value_end(l), ni + 1);
    let l1 = ls.take(ni) + f + ls.skip(ni + 1);
    assert(edited_lines(ls, start, end, f) == l1);
    let out = set_note_text(text, title, notes)->0;
    assert(out == if closed {
        join(l1, nl) + nl
    } else {
        join(l1, nl)
    });
    lemma_lines_no_newline(text);
    assert forall|m: int| 0 <= m < l1.len() implies has_no_newline(#[trigger] l1[m]) by {
        if m < ni {
            assert(l1[m] == ls[m]);
        } else if m < ni + nf {
            assert(l1[m] == f[m - ni]);
        } else {
            assert(l1[m] == ls[m - nf + 1]);
        }
    }
    assert forall|m: int| 0 <= m < l1.len() implies #[trigger] l1[m].len() == 0 || l1[m].last() != '\r' by {
        if m < ni {
            assert(l1[m] == ls[m]);
        } else if m < ni + nf {
            assert(l1[m] == f[m - ni]);
        } else {
            assert(l1[m] == ls[m - nf + 1]);
        }
    }
    if !closed {
        if ni + 1 < n {
            lemma_lines_last_nonempty(text);
            assert(l1.last() == ls.last());
        } else {
            assert(l1.last() == f[nf - 1]);
        }
    }
    lemma_written_lines(text, l1, nl);
    assert(lines(out) == l1);
    // The written file keeps the line ending and the final line break.
    lemma_rewritten_dominant(text, l1);
    assert(dominant_newline(out) == nl);
    if closed {
        assert(out.last() == '\n');
    } else {
        let lst = l1.last();
        assert(has_no_newline(l1[l1.len() - 1]));
        assert(lst.len() > 0);
        if l1.len() == 1 {
            assert(out == lst);
        } else {
            assert(out == join(l1.drop_last(), nl) + nl + lst);
        }
        assert(out.last() == lst.last());
        assert(lst[lst.len() - 1] != '\n');
    }
    assert(out.len() > 0);
    // The second write finds the note again and puts the bare bullet back.
    lemma_rewrite_finds_note(ls, want, start, end, ni, f);
    let end1 = end + nf - 1;
    let empty = Seq::<char>::empty();
    assert(eol_start(empty, 0) == 0);
    assert(empty.take(0) =~= empty);
    assert(trim(empty) =~= empty);
    assert(note_bullet_lines(empty) == seq!["- **notes:**"@]);
    let l2 = l1.take(ni) + seq!["- **notes:**"@] + l1.skip(ni + nf);
    assert(edited_lines(l1, start, end1, seq!["- **notes:**"@]) == l2);
    assert(l2 =~= ls) by {
        assert(ls[ni] == "- **notes:**"@);
        assert forall|m: int| 0 <= m < n implies #[trigger] l2[m] == ls[m] by {
            if m < ni {
                assert(l2[m] == l1[m]);
                assert(l1[m] == ls[m]);
            } else if m > ni {
                assert(l2[m] == l1[m + nf - 1]);
                assert(l1[m + nf - 1] == ls[m]);
            }
        }
    }
}
} // verus!
