//! The peer-to-peer broadcast card (`card.md` at the vault root): a lean
//! key/query signal — what you offer and what you are looking for.
//!
//! The card's frontmatter carries the machine fields (`id`, `handle`,
//! `website`, `updated`, `visibility`); the body carries the human ones
//! under the stable `## Offering (key)` / `## Looking for (query)`
//! headings. This module owns the body format and the frontmatter
//! values; encoding those values as YAML is done by the caller.
use vstd::prelude::*;

use crate::text::{
    append_chars, find, find_exec, index_of, index_of_exec, is_ws, join, join_exec,
    lemma_find_first, lemma_find_from, lemma_index_of, lemma_lines_append, lemma_lines_one,
    lemma_lines_trailing, lemma_trim_end_plain, lemma_trim_fixed, lines, lines_of, lower,
    occurs_at, slice_of, string_of, strip_prefix, strip_prefix_exec, to_chars, to_lower, trim,
    trim_end, trim_end_of, trim_of, views, ws_start,
};
use crate::calendar::{chrono_to_rfc3339, parse_dt, parse_dt_spec, rfc3339_text, wf, UtcDateTime};
use crate::vault::{
    canonical_body, compose, compose_text, framable_yaml, lemma_split_compose, split_text,
};

verus! {

/// A user's broadcast card. `offering` is the key, `looking_for` the
/// query; `updated` is the instant of the last edit, written as RFC 3339.
#[derive(Debug, Clone, PartialEq)]
pub struct Card {
    pub handle: String,
    pub name: String,
    pub website: String,
    pub bio: String,
    pub offering: Vec<String>,
    pub looking_for: Vec<String>,
    pub updated: UtcDateTime,
    pub visibility: String,
}

/// The frontmatter values of a card, in key order.
#[derive(Debug, Clone, PartialEq)]
pub struct CardFm {
    pub id: String,
    pub handle: String,
    pub website: String,
    pub updated: String,
    pub visibility: String,
}

pub open spec fn string_views(s: Seq<String>) -> Seq<Seq<char>> {
    s.map_values(|x: String| x@)
}

/// The visibility a card has when its frontmatter names none.
pub fn default_visibility() -> (s: String)
    ensures
        s@ == "public"@,
{
    string_of(&to_chars("public"))
}

/// `card:<localpart>` of a handle (`github:jsmith` → `card:jsmith`); the
/// whole handle when it has no `:`.
pub open spec fn card_id_of(handle: Seq<char>) -> Seq<char> {
    "card:"@ + match index_of(handle, ':') {
        Some(i) => handle.skip(i + 1),
        None => handle,
    }
}

pub fn card_id(handle: &str) -> (s: String)
    ensures
        s@ == card_id_of(handle@),
{
    let h = to_chars(handle);
    let n = h.len();
    proof {
        lemma_index_of(h@, ':');
    }
    let local = match index_of_exec(&h, ':') {
        Some(i) => {
            proof {
                assert(index_of(h@, ':') == Some(i as int));
            }
            slice_of(&h, i + 1, n)
        },
        None => slice_of(&h, 0, n),
    };
    proof {
        assert(h@.subrange(0, n as int) =~= h@);
        if let Some(i) = index_of(h@, ':') {
            assert(h@.subrange(i + 1, n as int) =~= h@.skip(i + 1));
        }
    }
    let mut v = to_chars("card:");
    append_chars(&mut v, &local);
    string_of(&v)
}

/// The frontmatter values written for a card.
pub fn frontmatter(c: &Card) -> (fm: CardFm)
    requires
        wf(c.updated),
    ensures
        fm.id@ == card_id_of(c.handle@),
        fm.handle@ == c.handle@,
        fm.website@ == c.website@,
        fm.updated@ == rfc3339_text(c.updated@),
        0 <= c.updated.year <= 9999 ==> parse_dt_spec(fm.updated@) == c.updated@,
        fm.visibility@ == c.visibility@,
{
    CardFm {
        id: card_id(c.handle.as_str()),
        handle: string_of(&to_chars(c.handle.as_str())),
        website: string_of(&to_chars(c.website.as_str())),
        updated: chrono_to_rfc3339(&c.updated),
        visibility: string_of(&to_chars(c.visibility.as_str())),
    }
}

/// `- item\n` for each item.
pub open spec fn bullets(items: Seq<Seq<char>>) -> Seq<char>
    decreases items.len(),
{
    if items.len() == 0 {
        Seq::empty()
    } else {
        bullets(items.drop_last()) + "- "@ + items.last() + "\n"@
    }
}

/// The name the heading shows: the name, or the handle when the name is
/// empty.
pub open spec fn shown_name(handle: Seq<char>, name: Seq<char>) -> Seq<char> {
    if name.len() == 0 {
        handle
    } else {
        name
    }
}

/// The card body: `# <name or handle> — card`, the bio as a quote when
/// there is one, then the two bullet lists under their headings.
pub open spec fn card_body(
    handle: Seq<char>,
    name: Seq<char>,
    bio: Seq<char>,
    offering: Seq<Seq<char>>,
    looking_for: Seq<Seq<char>>,
) -> Seq<char> {
    let shown = shown_name(handle, name);
    "# "@ + shown + " — card\n"@ + (if bio.len() == 0 {
        Seq::empty()
    } else {
        "\n> "@ + bio + "\n"@
    }) + "\n## Offering (key)\n"@ + bullets(offering) + "\n## Looking for (query)\n"@ + bullets(
        looking_for,
    )
}

fn push_bullets(out: &mut Vec<char>, items: &Vec<String>)
    ensures
        final(out)@ == old(out)@ + bullets(string_views(items@)),
{
    let mut i: usize = 0;
    while i < items.len()
        invariant
            i <= items.len(),
            out@ == old(out)@ + bullets(string_views(items@).take(i as int)),
        decreases items.len() - i,
    {
        let ghost before = out@;
        append_chars(out, &to_chars("- "));
        append_chars(out, &to_chars(items[i].as_str()));
        append_chars(out, &to_chars("\n"));
        proof {
            let t = string_views(items@).take(i + 1);
            assert(t.drop_last() =~= string_views(items@).take(i as int));
            assert(t.last() == items@[i as int]@);
            assert(out@ =~= old(out)@ + bullets(t));
        }
        i += 1;
    }
    proof {
        assert(string_views(items@).take(items.len() as int) =~= string_views(items@));
    }
}

/// The card's markdown body.
pub fn render_body(c: &Card) -> (b: String)
    ensures
        b@ == card_body(
            c.handle@,
            c.name@,
            c.bio@,
            string_views(c.offering@),
            string_views(c.looking_for@),
        ),
{
    let mut v = to_chars("# ");
    if c.name.as_str().unicode_len() == 0 {
        append_chars(&mut v, &to_chars(c.handle.as_str()));
    } else {
        append_chars(&mut v, &to_chars(c.name.as_str()));
    }
    append_chars(&mut v, &to_chars(" — card\n"));
    let ghost head = v@;
    if c.bio.as_str().unicode_len() != 0 {
        append_chars(&mut v, &to_chars("\n> "));
        append_chars(&mut v, &to_chars(c.bio.as_str()));
        append_chars(&mut v, &to_chars("\n"));
    }
    proof {
        if c.bio@.len() == 0 {
            assert(v@ =~= head + Seq::<char>::empty());
        }
    }
    append_chars(&mut v, &to_chars("\n## Offering (key)\n"));
    push_bullets(&mut v, &c.offering);
    append_chars(&mut v, &to_chars("\n## Looking for (query)\n"));
    push_bullets(&mut v, &c.looking_for);
    proof {
        assert(v@ =~= card_body(
            c.handle@,
            c.name@,
            c.bio@,
            string_views(c.offering@),
            string_views(c.looking_for@),
        ));
    }
    string_of(&v)
}

/// Renders a card to the canonical `card.md` text, given the YAML
/// encoding of its frontmatter values (`frontmatter(c)`).
pub fn render(c: &Card, frontmatter_yaml: &str) -> (s: String)
    ensures
        s@ == compose_text(
            frontmatter_yaml@,
            card_body(
                c.handle@,
                c.name@,
                c.bio@,
                string_views(c.offering@),
                string_views(c.looking_for@),
            ),
        ),
{
    let body = render_body(c);
    compose(frontmatter_yaml, body.as_str())
}

// ---------- parse ----------

/// Which bullet list the parser is in.
#[derive(PartialEq, Eq, Structural, Clone, Copy)]
pub enum Section {
    Other,
    Offering,
    LookingFor,
}

/// What the body parser has collected so far.
pub struct BodyScan {
    pub name: Seq<char>,
    pub bio_lines: Seq<Seq<char>>,
    pub offering: Seq<Seq<char>>,
    pub looking_for: Seq<Seq<char>>,
    pub sec: Section,
}

/// `s.split(pat).next()`: the text before the first `pat` (all of it
/// without one).
pub open spec fn before_str(s: Seq<char>, pat: Seq<char>) -> Seq<char> {
    match find(s, pat) {
        Some(i) => s.take(i),
        None => s,
    }
}

/// The section a `## ` heading opens (ASCII-case-insensitive).
pub open spec fn heading_section(h2: Seq<char>) -> Section {
    let l = h2.map_values(|c: char| lower(c));
    if find(l, "offering"@) is Some {
        Section::Offering
    } else if find(l, "looking for"@) is Some {
        Section::LookingFor
    } else {
        Section::Other
    }
}

/// One body line.
pub open spec fn body_step(st: BodyScan, raw: Seq<char>) -> BodyScan {
    let line = trim_end(raw);
    match strip_prefix(line, "## "@) {
        Some(h2) => BodyScan { sec: heading_section(h2), ..st },
        None => match strip_prefix(line, "# "@) {
            Some(h1) => BodyScan { name: trim(before_str(before_str(h1, " — "@), " - "@)), ..st },
            None => match strip_prefix(line, "> "@) {
                Some(q) => BodyScan { bio_lines: st.bio_lines.push(trim(q)), ..st },
                None => match strip_prefix(line, "- "@) {
                    Some(item) => match st.sec {
                        Section::Offering => BodyScan { offering: st.offering.push(trim(item)), ..st },
                        Section::LookingFor => BodyScan {
                            looking_for: st.looking_for.push(trim(item)),
                            ..st
                        },
                        Section::Other => st,
                    },
                    None => st,
                },
            },
        },
    }
}

/// The parser's state before the first line.
pub open spec fn scan_start() -> BodyScan {
    BodyScan {
        name: Seq::empty(),
        bio_lines: Seq::empty(),
        offering: Seq::empty(),
        looking_for: Seq::empty(),
        sec: Section::Other,
    }
}

/// The parser's state after the lines `ls`, starting from `st`.
pub open spec fn body_run(st: BodyScan, ls: Seq<Seq<char>>) -> BodyScan
    decreases ls.len(),
{
    if ls.len() == 0 {
        st
    } else {
        body_step(body_run(st, ls.drop_last()), ls.last())
    }
}

pub open spec fn body_scan(ls: Seq<Seq<char>>) -> BodyScan {
    body_run(scan_start(), ls)
}

/// The human fields of a card body: `(name, bio, offering, looking_for)`.
/// The bio's quote lines are joined with single spaces.
pub open spec fn body_fields(body: Seq<char>) -> (Seq<char>, Seq<char>, Seq<Seq<char>>, Seq<Seq<char>>) {
    let st = body_scan(lines(body));
    (st.name, join(st.bio_lines, " "@), st.offering, st.looking_for)
}

fn before_str_exec(s: &Vec<char>, pat: &Vec<char>) -> (r: Vec<char>)
    ensures
        r@ == before_str(s@, pat@),
{
    proof {
        lemma_find_from(s@, pat@, 0);
    }
    match find_exec(s, pat, 0) {
        Some(i) => slice_of(s, 0, i),
        None => slice_of(s, 0, s.len()),
    }
}

fn heading_section_exec(h2: &Vec<char>) -> (r: Section)
    ensures
        r == heading_section(h2@),
{
    let mut l: Vec<char> = Vec::new();
    let mut i: usize = 0;
    while i < h2.len()
        invariant
            i <= h2.len(),
            l@ == h2@.take(i as int).map_values(|c: char| lower(c)),
        decreases h2.len() - i,
    {
        l.push(to_lower(h2[i]));
        proof {
            assert(h2@.take(i + 1).map_values(|c: char| lower(c)) =~= h2@.take(i as int).map_values(
                |c: char| lower(c),
            ).push(lower(h2@[i as int])));
        }
        i += 1;
    }
    proof {
        assert(h2@.take(h2.len() as int) =~= h2@);
    }
    if find_exec(&l, &to_chars("offering"), 0).is_some() {
        Section::Offering
    } else if find_exec(&l, &to_chars("looking for"), 0).is_some() {
        Section::LookingFor
    } else {
        Section::Other
    }
}

struct BodyParser {
    name: Vec<char>,
    bio_lines: Vec<Vec<char>>,
    offering: Vec<Vec<char>>,
    looking_for: Vec<Vec<char>>,
    sec: Section,
}

impl BodyParser {
    spec fn state(&self) -> BodyScan {
        BodyScan {
            name: self.name@,
            bio_lines: views(self.bio_lines@),
            offering: views(self.offering@),
            looking_for: views(self.looking_for@),
            sec: self.sec,
        }
    }

    fn step(&mut self, raw: &Vec<char>)
        ensures
            final(self).state() == body_step(old(self).state(), raw@),
    {
        let line = trim_end_of(raw);
        if let Some(h2) = strip_prefix_exec(&line, &to_chars("## ")) {
            self.sec = heading_section_exec(&h2);
            return;
        }
        if let Some(h1) = strip_prefix_exec(&line, &to_chars("# ")) {
            let a = before_str_exec(&h1, &to_chars(" — "));
            let b = before_str_exec(&a, &to_chars(" - "));
            self.name = trim_of(&b);
            return;
        }
        if let Some(q) = strip_prefix_exec(&line, &to_chars("> ")) {
            let t = trim_of(&q);
            let ghost before = self.bio_lines@;
            self.bio_lines.push(t);
            proof {
                assert(views(self.bio_lines@) =~= views(before).push(t@));
            }
            return;
        }
        if let Some(item) = strip_prefix_exec(&line, &to_chars("- ")) {
            let t = trim_of(&item);
            match self.sec {
                Section::Offering => {
                    let ghost before = self.offering@;
                    self.offering.push(t);
                    proof {
                        assert(views(self.offering@) =~= views(before).push(t@));
                    }
                },
                Section::LookingFor => {
                    let ghost before = self.looking_for@;
                    self.looking_for.push(t);
                    proof {
                        assert(views(self.looking_for@) =~= views(before).push(t@));
                    }
                },
                Section::Other => {},
            }
        }
    }
}

fn strings_of(v: &Vec<Vec<char>>) -> (r: Vec<String>)
    ensures
        string_views(r@) == views(v@),
{
    let mut out: Vec<String> = Vec::new();
    let mut i: usize = 0;
    while i < v.len()
        invariant
            i <= v.len(),
            string_views(out@) == views(v@).take(i as int),
        decreases v.len() - i,
    {
        let s = string_of(&v[i]);
        let ghost before = out@;
        out.push(s);
        proof {
            assert(string_views(out@) =~= string_views(before).push(s@));
            assert(views(v@).take(i + 1) =~= views(v@).take(i as int).push(v@[i as int]@));
        }
        i += 1;
    }
    proof {
        assert(views(v@).take(v.len() as int) =~= views(v@));
    }
    out
}

/// Parses a card body into `(name, bio, offering, looking_for)`. Only
/// the bullet lists under the Offering / Looking-for headings are
/// contractual; extra prose is ignored.
pub fn parse_body(body: &str) -> (r: (String, String, Vec<String>, Vec<String>))
    ensures
        (r.0@, r.1@, string_views(r.2@), string_views(r.3@)) == body_fields(body@),
{
    let ls = lines_of(&to_chars(body));
    let mut p = BodyParser {
        name: Vec::new(),
        bio_lines: Vec::new(),
        offering: Vec::new(),
        looking_for: Vec::new(),
        sec: Section::Other,
    };
    proof {
        assert(views(Seq::<Vec<char>>::empty()) =~= Seq::<Seq<char>>::empty());
        assert(p.state() == body_scan(views(ls@).take(0)));
    }
    let mut i: usize = 0;
    while i < ls.len()
        invariant
            i <= ls.len(),
            views(ls@) == lines(body@),
            p.state() == body_scan(views(ls@).take(i as int)),
        decreases ls.len() - i,
    {
        proof {
            let t = views(ls@).take(i + 1);
            assert(t.drop_last() =~= views(ls@).take(i as int));
            assert(t.last() == ls@[i as int]@);
        }
        p.step(&ls[i]);
        i += 1;
    }
    proof {
        assert(views(ls@).take(ls.len() as int) =~= views(ls@));
    }
    let bio = join_exec(&p.bio_lines, &to_chars(" "));
    (string_of(&p.name), string_of(&bio), strings_of(&p.offering), strings_of(&p.looking_for))
}

/// Parses `card.md` text back into a card, given the frontmatter values
/// decoded from its YAML (`None` when that YAML is not a card's).
pub fn parse(content: &str, fm: Option<CardFm>) -> (r: Option<Card>)
    ensures
        r is Some <==> fm is Some,
        r matches Some(c) ==> {
            let f = fm->0;
            let (name, bio, offering, looking_for) = body_fields(
                crate::vault::split_text(content@).1,
            );
            &&& c.handle@ == f.handle@
            &&& c.website@ == f.website@
            &&& c.updated@ == parse_dt_spec(f.updated@)
            &&& wf(c.updated)
            &&& c.visibility@ == f.visibility@
            &&& c.name@ == name
            &&& c.bio@ == bio
            &&& string_views(c.offering@) == offering
            &&& string_views(c.looking_for@) == looking_for
        },
{
    match fm {
        None => None,
        Some(f) => {
            let (_, body) = crate::vault::split(content);
            let (name, bio, offering, looking_for) = parse_body(body.as_str());
            Some(
                Card {
                    handle: f.handle,
                    name,
                    website: f.website,
                    bio,
                    offering,
                    looking_for,
                    updated: parse_dt(f.updated.as_str()),
                    visibility: f.visibility,
                },
            )
        },
    }
}


// ---------- the round trip ----------

/// No line break in `x`.
pub open spec fn one_line(x: Seq<char>) -> bool {
    forall|k: int| 0 <= k < x.len() ==> x[k] != '\n'
}

/// A shown name that reads back unchanged from the `# <name> — card`
/// heading: one line, no surrounding whitespace, no ` - `, and the first
/// ` — ` after it is the heading's own.
pub open spec fn heading_safe(x: Seq<char>) -> bool {
    &&& trim(x) == x
    &&& one_line(x)
    &&& find(x, " - "@) is None
    &&& find(x + " — card"@, " — "@) == Some(x.len() as int)
}

/// A bio that reads back unchanged from its `> ` quote line (or is
/// empty).
pub open spec fn quote_safe(x: Seq<char>) -> bool {
    x.len() == 0 || (trim(x) == x && one_line(x))
}

/// A list item that reads back unchanged from its `- ` bullet.
pub open spec fn bullet_safe(x: Seq<char>) -> bool {
    x.len() > 0 && trim(x) == x && one_line(x)
}

pub open spec fn bullet_line(x: Seq<char>) -> Seq<char> {
    "- "@ + x
}

pub open spec fn bullet_lines(items: Seq<Seq<char>>) -> Seq<Seq<char>> {
    items.map_values(|x: Seq<char>| bullet_line(x))
}

proof fn lemma_body_run_append(st: BodyScan, a: Seq<Seq<char>>, b: Seq<Seq<char>>)
    ensures
        body_run(st, a + b) == body_run(body_run(st, a), b),
    decreases b.len(),
{
    if b.len() == 0 {
        assert(a + b =~= a);
    } else {
        assert((a + b).drop_last() =~= a + b.drop_last());
        assert((a + b).last() == b.last());
        lemma_body_run_append(st, a, b.drop_last());
    }
}

proof fn lemma_body_run_two(st: BodyScan, x: Seq<char>, y: Seq<char>)
    ensures
        body_run(st, seq![x]) == body_step(st, x),
        body_run(st, seq![x, y]) == body_step(body_step(st, x), y),
{
    let e = Seq::<Seq<char>>::empty();
    assert(seq![x].drop_last() =~= e);
    assert(seq![x, y].drop_last() =~= seq![x]);
    assert(body_run(st, e) == st);
    assert(body_run(st, seq![x]) == body_step(body_run(st, e), x));
    assert(body_run(st, seq![x, y]) == body_step(body_run(st, seq![x]), y));
}

proof fn lemma_bullets_end(items: Seq<Seq<char>>)
    ensures
        bullets(items).len() == 0 || bullets(items).last() == '\n',
{
    reveal_strlit("\n");
}

proof fn lemma_bullets_lines(items: Seq<Seq<char>>)
    requires
        forall|k: int| 0 <= k < items.len() ==> bullet_safe(#[trigger] items[k]),
    ensures
        lines(bullets(items)) == bullet_lines(items),
    decreases items.len(),
{
    reveal_strlit("- ");
    reveal_strlit("\n");
    if items.len() == 0 {
        assert(lines(Seq::<char>::empty()) =~= Seq::<Seq<char>>::empty());
        assert(bullet_lines(items) =~= Seq::<Seq<char>>::empty());
    } else {
        let dl = items.drop_last();
        let x = items.last();
        assert(bullet_safe(items[items.len() - 1]));
        assert forall|k: int| 0 <= k < dl.len() implies bullet_safe(#[trigger] dl[k]) by {
            assert(dl[k] == items[k]);
        }
        lemma_bullets_lines(dl);
        lemma_bullets_end(dl);
        lemma_trim_fixed(x);
        let l = bullet_line(x);
        assert(bullets(items) =~= bullets(dl) + (l + seq!['\n']));
        lemma_lines_append(bullets(dl), l + seq!['\n']);
        assert forall|k: int| 0 <= k < l.len() implies l[k] != '\n' by {
            if k >= 2 {
                assert(l[k] == x[k - 2]);
            }
        }
        assert(l.last() == x.last());
        lemma_lines_one(l);
        assert(bullet_lines(items) =~= bullet_lines(dl) + seq![l]);
    }
}

proof fn lemma_step_bullet(st: BodyScan, x: Seq<char>)
    requires
        bullet_safe(x),
    ensures
        body_step(st, bullet_line(x)) == match st.sec {
            Section::Offering => BodyScan { offering: st.offering.push(x), ..st },
            Section::LookingFor => BodyScan { looking_for: st.looking_for.push(x), ..st },
            Section::Other => st,
        },
{
    reveal_strlit("- ");
    reveal_strlit("## ");
    reveal_strlit("# ");
    reveal_strlit("> ");
    let l = bullet_line(x);
    lemma_trim_fixed(x);
    assert(l.last() == x.last());
    lemma_trim_end_plain(l);
    assert(l[0] == '-');
    assert(l.take(3)[0] != "## "@[0]);
    assert(l.take(2)[0] != "# "@[0]);
    assert(l.take(2)[0] != "> "@[0]);
    assert(l.take(2) =~= "- "@);
    assert(l.skip(2) =~= x);
}

proof fn lemma_run_bullets(st: BodyScan, items: Seq<Seq<char>>)
    requires
        forall|k: int| 0 <= k < items.len() ==> bullet_safe(#[trigger] items[k]),
    ensures
        body_run(st, bullet_lines(items)) == match st.sec {
            Section::Offering => BodyScan { offering: st.offering + items, ..st },
            Section::LookingFor => BodyScan { looking_for: st.looking_for + items, ..st },
            Section::Other => st,
        },
    decreases items.len(),
{
    if items.len() == 0 {
        assert(bullet_lines(items) =~= Seq::<Seq<char>>::empty());
        assert(st.offering + items =~= st.offering);
        assert(st.looking_for + items =~= st.looking_for);
    } else {
        let dl = items.drop_last();
        assert(bullet_safe(items[items.len() - 1]));
        assert forall|k: int| 0 <= k < dl.len() implies bullet_safe(#[trigger] dl[k]) by {
            assert(dl[k] == items[k]);
        }
        lemma_run_bullets(st, dl);
        assert(bullet_lines(items).drop_last() =~= bullet_lines(dl));
        lemma_step_bullet(body_run(st, bullet_lines(dl)), items.last());
        assert(st.offering + dl.push(items.last()) =~= st.offering + items);
        assert(st.looking_for + dl.push(items.last()) =~= st.looking_for + items);
        assert(dl.push(items.last()) =~= items);
        assert((st.offering + dl).push(items.last()) =~= st.offering + items);
        assert((st.looking_for + dl).push(items.last()) =~= st.looking_for + items);
    }
}

proof fn lemma_step_heading_name(st: BodyScan, shown: Seq<char>)
    requires
        heading_safe(shown),
    ensures
        body_step(st, "# "@ + shown + " — card"@) == (BodyScan { name: shown, ..st }),
{
    reveal_strlit("## ");
    reveal_strlit("# ");
    reveal_strlit(" — card");
    reveal_strlit(" — ");
    let l = "# "@ + shown + " — card"@;
    assert(l.last() == 'd');
    lemma_trim_end_plain(l);
    assert(l[1] == ' ');
    assert(l.take(3)[1] != "## "@[1]);
    assert(l.take(2) =~= "# "@);
    let h1 = l.skip(2);
    assert(h1 =~= shown + " — card"@);
    assert(h1.take(shown.len() as int) =~= shown);
}

proof fn lemma_step_blank(st: BodyScan)
    ensures
        body_step(st, Seq::empty()) == st,
{
    reveal_strlit("## ");
    reveal_strlit("# ");
    reveal_strlit("> ");
    reveal_strlit("- ");
    let e = Seq::<char>::empty();
    assert(trim_end(e) =~= e);
}

proof fn lemma_step_quote(st: BodyScan, bio: Seq<char>)
    requires
        bio.len() > 0,
        quote_safe(bio),
    ensures
        body_step(st, "> "@ + bio) == (BodyScan { bio_lines: st.bio_lines.push(bio), ..st }),
{
    reveal_strlit("## ");
    reveal_strlit("# ");
    reveal_strlit("> ");
    let l = "> "@ + bio;
    lemma_trim_fixed(bio);
    assert(l.last() == bio.last());
    lemma_trim_end_plain(l);
    assert(l[0] == '>');
    assert(l.take(3)[0] != "## "@[0]);
    assert(l.take(2)[0] != "# "@[0]);
    assert(l.take(2) =~= "> "@);
    assert(l.skip(2) =~= bio);
}

proof fn lemma_step_offering_heading(st: BodyScan)
    ensures
        body_step(st, "## Offering (key)"@) == (BodyScan { sec: Section::Offering, ..st }),
{
    reveal_strlit("## ");
    reveal_strlit("## Offering (key)");
    reveal_strlit("offering");
    let l = "## Offering (key)"@;
    lemma_trim_end_plain(l);
    assert(l.take(3) =~= "## "@);
    let h2 = l.skip(3);
    let lo = h2.map_values(|c: char| lower(c));
    assert(lo.subrange(0, 8) =~= "offering"@);
    lemma_find_first(lo, "offering"@, 0, 0);
}

proof fn lemma_step_looking_heading(st: BodyScan)
    ensures
        body_step(st, "## Looking for (query)"@) == (BodyScan { sec: Section::LookingFor, ..st }),
{
    reveal_strlit("## ");
    reveal_strlit("## Looking for (query)");
    reveal_strlit("offering");
    reveal_strlit("looking for");
    reveal_strlit("looking for (query)");
    let l = "## Looking for (query)"@;
    lemma_trim_end_plain(l);
    assert(l.take(3) =~= "## "@);
    let h2 = l.skip(3);
    let lo = h2.map_values(|c: char| lower(c));
    assert(lo =~= "looking for (query)"@);
    lemma_find_from(lo, "offering"@, 0);
    if let Some(k) = find(lo, "offering"@) {
        assert(lo.subrange(k, k + 8)[0] == 'o');
        assert(lo.subrange(k, k + 8)[1] == 'f');
    }
    assert(lo.subrange(0, 11) =~= "looking for"@);
    lemma_find_first(lo, "looking for"@, 0, 0);
}

/// The lines of a rendered card body.
#[verifier::spinoff_prover]
#[verifier::rlimit(40)]
proof fn lemma_card_lines(
    handle: Seq<char>,
    name: Seq<char>,
    bio: Seq<char>,
    offering: Seq<Seq<char>>,
    looking_for: Seq<Seq<char>>,
)
    requires
        heading_safe(shown_name(handle, name)),
        quote_safe(bio),
        forall|k: int| 0 <= k < offering.len() ==> bullet_safe(#[trigger] offering[k]),
        forall|k: int| 0 <= k < looking_for.len() ==> bullet_safe(#[trigger] looking_for[k]),
    ensures
        lines(card_body(handle, name, bio, offering, looking_for)) == seq![
            "# "@ + shown_name(handle, name) + " — card"@,
        ] + ((if bio.len() == 0 {
            Seq::<Seq<char>>::empty()
        } else {
            seq![Seq::<char>::empty(), "> "@ + bio]
        }) + (seq![Seq::<char>::empty(), "## Offering (key)"@] + (bullet_lines(offering) + (seq![
            Seq::<char>::empty(),
            "## Looking for (query)"@,
        ] + bullet_lines(looking_for))))),
{
    reveal_strlit("# ");
    reveal_strlit("> ");
    reveal_strlit(" — card\n");
    reveal_strlit(" — card");
    reveal_strlit("\n> ");
    reveal_strlit("\n");
    reveal_strlit("\n## Offering (key)\n");
    reveal_strlit("## Offering (key)");
    reveal_strlit("\n## Looking for (query)\n");
    reveal_strlit("## Looking for (query)");
    let shown = shown_name(handle, name);
    let b = card_body(handle, name, bio, offering, looking_for);
    let nl = seq!['\n'];
    let e = Seq::<char>::empty();
    let l1 = "# "@ + shown + " — card"@;
    let lb = "> "@ + bio;
    let h1 = "## Offering (key)"@;
    let h2 = "## Looking for (query)"@;
    let c1 = l1 + nl;
    let bioc = if bio.len() == 0 {
        e
    } else {
        "\n> "@ + bio + "\n"@
    };
    let h1s = "\n## Offering (key)\n"@;
    let h2s = "\n## Looking for (query)\n"@;
    assert(" — card\n"@ =~= " — card"@ + nl);
    assert(h1s =~= nl + (h1 + nl));
    assert(h2s =~= nl + (h2 + nl));
    assert(b =~= c1 + (bioc + (h1s + (bullets(offering) + (h2s + bullets(looking_for))))));
    // the heading line
    assert forall|k: int| 0 <= k < l1.len() implies l1[k] != '\n' by {
        if 2 <= k < 2 + shown.len() {
            assert(l1[k] == shown[k - 2]);
        }
    }
    lemma_lines_one(l1);
    // the quote
    assert(nl =~= e + nl);
    lemma_lines_one(e);
    if bio.len() > 0 {
        lemma_trim_fixed(bio);
        assert forall|k: int| 0 <= k < lb.len() implies lb[k] != '\n' by {
            if k >= 2 {
                assert(lb[k] == bio[k - 2]);
            }
        }
        assert(lb.last() == bio.last());
        lemma_lines_one(lb);
        assert(bioc =~= nl + (lb + nl));
        lemma_lines_append(nl, lb + nl);
    } else {
        assert(lines(e) =~= Seq::<Seq<char>>::empty());
    }
    // the headings
    lemma_lines_one(h1);
    lemma_lines_append(nl, h1 + nl);
    lemma_lines_one(h2);
    lemma_lines_append(nl, h2 + nl);
    // the lists
    lemma_bullets_lines(offering);
    lemma_bullets_lines(looking_for);
    lemma_bullets_end(offering);
    // the whole
    lemma_lines_append(h2s, bullets(looking_for));
    lemma_lines_append(bullets(offering), h2s + bullets(looking_for));
    lemma_lines_append(h1s, bullets(offering) + (h2s + bullets(looking_for)));
    lemma_lines_append(bioc, h1s + (bullets(offering) + (h2s + bullets(looking_for))));
    lemma_lines_append(c1, bioc + (h1s + (bullets(offering) + (h2s + bullets(looking_for)))));
}

/// The lines of a rendered card body parse back to its fields.
#[verifier::spinoff_prover]
#[verifier::rlimit(40)]
proof fn lemma_card_fields(
    handle: Seq<char>,
    name: Seq<char>,
    bio: Seq<char>,
    offering: Seq<Seq<char>>,
    looking_for: Seq<Seq<char>>,
)
    requires
        heading_safe(shown_name(handle, name)),
        quote_safe(bio),
        forall|k: int| 0 <= k < offering.len() ==> bullet_safe(#[trigger] offering[k]),
        forall|k: int| 0 <= k < looking_for.len() ==> bullet_safe(#[trigger] looking_for[k]),
    ensures
        body_fields(card_body(handle, name, bio, offering, looking_for)) == (
            shown_name(handle, name),
            bio,
            offering,
            looking_for,
        ),
{
    let shown = shown_name(handle, name);
    let e = Seq::<char>::empty();
    let l1 = "# "@ + shown + " — card"@;
    let lb = "> "@ + bio;
    let h1 = "## Offering (key)"@;
    let h2 = "## Looking for (query)"@;
    let a1 = seq![l1];
    let a2 = if bio.len() == 0 {
        Seq::<Seq<char>>::empty()
    } else {
        seq![e, lb]
    };
    let a3 = seq![e, h1];
    let a4 = bullet_lines(offering);
    let a5 = seq![e, h2];
    let a6 = bullet_lines(looking_for);
    lemma_card_lines(handle, name, bio, offering, looking_for);
    let st0 = scan_start();
    lemma_body_run_append(st0, a1, a2 + (a3 + (a4 + (a5 + a6))));
    lemma_body_run_two(st0, l1, e);
    lemma_step_heading_name(st0, shown);
    let st1 = body_run(st0, a1);
    lemma_body_run_append(st1, a2, a3 + (a4 + (a5 + a6)));
    let st2 = body_run(st1, a2);
    if bio.len() > 0 {
        lemma_body_run_two(st1, e, lb);
        lemma_step_blank(st1);
        lemma_step_quote(st1, bio);
        assert(st2.bio_lines =~= seq![bio]);
    } else {
        assert(st2 == st1);
    }
    lemma_body_run_append(st2, a3, a4 + (a5 + a6));
    lemma_body_run_two(st2, e, h1);
    lemma_step_blank(st2);
    lemma_step_offering_heading(st2);
    let st3 = body_run(st2, a3);
    lemma_body_run_append(st3, a4, a5 + a6);
    lemma_run_bullets(st3, offering);
    let st4 = body_run(st3, a4);
    lemma_body_run_append(st4, a5, a6);
    lemma_body_run_two(st4, e, h2);
    lemma_step_blank(st4);
    lemma_step_looking_heading(st4);
    let st5 = body_run(st4, a5);
    lemma_run_bullets(st5, looking_for);
    let st6 = body_run(st5, a6);
    assert(st6.offering =~= offering);
    assert(st6.looking_for =~= looking_for);
    if bio.len() == 0 {
        assert(join(st6.bio_lines, " "@) =~= bio);
    }
}

/// The `card.md` text rendered for the given frontmatter YAML and human
/// fields.
pub open spec fn card_text(
    yaml: Seq<char>,
    handle: Seq<char>,
    name: Seq<char>,
    bio: Seq<char>,
    offering: Seq<Seq<char>>,
    looking_for: Seq<Seq<char>>,
) -> Seq<char> {
    compose_text(yaml, card_body(handle, name, bio, offering, looking_for))
}

/// Lossless round trip: the text `render` writes splits back into the
/// same frontmatter YAML, and its body parses back to the same bio and
/// lists and to the name the heading shows (the handle when the name is
/// empty); rendering what was read back writes the same text again.
/// Holds for every name, bio and item that fits on its line of the
/// format.
pub proof fn lemma_card_round_trip(
    yaml: Seq<char>,
    handle: Seq<char>,
    name: Seq<char>,
    bio: Seq<char>,
    offering: Seq<Seq<char>>,
    looking_for: Seq<Seq<char>>,
)
    requires
        framable_yaml(yaml),
        heading_safe(shown_name(handle, name)),
        quote_safe(bio),
        forall|k: int| 0 <= k < offering.len() ==> bullet_safe(#[trigger] offering[k]),
        forall|k: int| 0 <= k < looking_for.len() ==> bullet_safe(#[trigger] looking_for[k]),
    ensures
        split_text(card_text(yaml, handle, name, bio, offering, looking_for)).0 == yaml,
        body_fields(split_text(card_text(yaml, handle, name, bio, offering, looking_for)).1) == (
            shown_name(handle, name),
            bio,
            offering,
            looking_for,
        ),
        card_text(yaml, handle, shown_name(handle, name), bio, offering, looking_for) == card_text(
            yaml,
            handle,
            name,
            bio,
            offering,
            looking_for,
        ),
{
    reveal_strlit("# ");
    reveal_strlit("\n");
    reveal_strlit(" — card\n");
    reveal_strlit("\n## Looking for (query)\n");
    let b = card_body(handle, name, bio, offering, looking_for);
    let nl = seq!['\n'];
    let shown = shown_name(handle, name);
    let head = "# "@ + shown + " — card\n"@ + (if bio.len() == 0 {
        Seq::<char>::empty()
    } else {
        "\n> "@ + bio + "\n"@
    }) + "\n## Offering (key)\n"@ + bullets(offering);
    // The body ends in a line break after a non-whitespace character.
    let p = b.drop_last();
    if looking_for.len() > 0 {
        let x = looking_for.last();
        assert(bullet_safe(looking_for[looking_for.len() - 1]));
        lemma_trim_fixed(x);
        let pre = head + "\n## Looking for (query)\n"@ + bullets(looking_for.drop_last());
        assert(b =~= pre + (bullet_line(x) + nl));
        assert(p =~= pre + bullet_line(x));
        assert(p.last() == x.last());
    } else {
        let pre = head + "\n## Looking for (query)"@;
        reveal_strlit("\n## Looking for (query)");
        assert(b =~= pre + nl);
        assert(p =~= pre);
        assert(p.last() == ')');
    }
    assert(b.len() >= 2);
    assert(b[b.len() - 1] == '\n');
    assert(b[b.len() - 2] == p.last());
    assert(ws_start(b, b.len() - 1) == b.len() - 1);
    assert(ws_start(b, b.len() as int) == b.len() - 1);
    assert(trim_end(b) =~= p);
    lemma_trim_end_plain(p);
    assert(p[0] == b[0]);
    assert(b[0] == '#');
    assert(canonical_body(p));
    assert(compose_text(yaml, b) =~= compose_text(yaml, p));
    lemma_split_compose(yaml, p);
    // Reading back: the trailing line break adds no line.
    lemma_lines_trailing(p);
    assert(p + nl =~= b);
    lemma_card_fields(handle, name, bio, offering, looking_for);
}

} // verus!
