//! The local agent gateway (OpenClaw, an OpenAI-compatible API) as the
//! server sees it: the chat messages sent, the gateway status, the
//! server-sent-event stream of a streaming reply, and which WSL distro
//! runs the gateway. The HTTP calls and the processes are the caller's
//! part; this module decides what is sent and what a reply means.
use vstd::prelude::*;

use crate::text::{
    append_chars, concat_string, index_of, lemma_index_of, find, find_exec, lines, lines_of, replace_char, replace_char_exec, same,
    slice_of, split_char, split_char_exec, string_of, strip_prefix, strip_prefix_exec, to_chars,
    trim, trim_end_char, trim_end_char_exec, trim_of, views,
};

verus! {

/// One chat turn.
#[derive(Debug, Clone)]
pub struct ChatMessage {
    pub role: String,
    pub content: String,
}

/// What a probe of the gateway found.
#[derive(Debug, Clone, Default)]
pub struct Status {
    pub available: bool,
    pub gateway_url: String,
    pub agent_id: String,
    pub error: String,
}

pub open spec fn message_views(m: Seq<ChatMessage>) -> Seq<(Seq<char>, Seq<char>)> {
    m.map_values(|x: ChatMessage| (x.role@, x.content@))
}

/// The gateway URL without trailing slashes.
pub fn gateway_base(url: &str) -> (r: String)
    ensures
        r@ == trim_end_char(url@, '/'),
{
    string_of(&trim_end_char_exec(&to_chars(url), '/'))
}

/// `<base>/health`.
pub fn health_url(base: &str) -> (r: String)
    ensures
        r@ == base@ + "/health"@,
{
    concat_string(&to_chars(base), &to_chars("/health"))
}

/// `<base>/v1/chat/completions`.
pub fn completions_url(base: &str) -> (r: String)
    ensures
        r@ == base@ + "/v1/chat/completions"@,
{
    concat_string(&to_chars(base), &to_chars("/v1/chat/completions"))
}

/// The messages of a chat request: the history, then the new message as
/// the user's turn.
pub fn with_user_message(history: &Vec<ChatMessage>, message: &str) -> (r: Vec<ChatMessage>)
    ensures
        message_views(r@) == message_views(history@).push(("user"@, message@)),
{
    let mut out: Vec<ChatMessage> = Vec::new();
    let mut i: usize = 0;
    while i < history.len()
        invariant
            i <= history.len(),
            message_views(out@) == message_views(history@).take(i as int),
        decreases history.len() - i,
    {
        let m = ChatMessage {
            role: string_of(&to_chars(history[i].role.as_str())),
            content: string_of(&to_chars(history[i].content.as_str())),
        };
        let ghost before = out@;
        out.push(m);
        proof {
            assert(message_views(out@) =~= message_views(before).push((m.role@, m.content@)));
            assert(message_views(history@).take(i + 1) =~= message_views(history@).take(
                i as int,
            ).push((history@[i as int].role@, history@[i as int].content@)));
        }
        i += 1;
    }
    let m = ChatMessage {
        role: string_of(&to_chars("user")),
        content: string_of(&to_chars(message)),
    };
    let ghost before = out@;
    out.push(m);
    proof {
        assert(message_views(history@).take(history.len() as int) =~= message_views(history@));
        assert(message_views(out@) =~= message_views(before).push((m.role@, m.content@)));
    }
    out
}

/// The instruction sent to the agent to analyze unstructured content.
pub open spec fn analysis_prompt(content: Seq<char>, context: Seq<char>) -> Seq<char> {
    "Extract tasks, events, instructions, conflicts and messages as JSON from the following. Context: "@
        + context + "\n\n"@ + content
}

pub fn analyze_prompt(content: &str, existing_context: &str) -> (r: String)
    ensures
        r@ == analysis_prompt(content@, existing_context@),
{
    let mut v = to_chars(
        "Extract tasks, events, instructions, conflicts and messages as JSON from the following. Context: ",
    );
    crate::text::append_chars(&mut v, &to_chars(existing_context));
    crate::text::append_chars(&mut v, &to_chars("\n\n"));
    crate::text::append_chars(&mut v, &to_chars(content));
    string_of(&v)
}

/// The status a probe reports: available exactly when it found no
/// error.
pub fn probe_status(gateway_url: &str, agent_id: &str, error: Option<String>) -> (s: Status)
    ensures
        s.available <==> error is None,
        s.gateway_url@ == gateway_url@,
        s.agent_id@ == agent_id@,
        s.error@ == match error {
            Some(e) => e@,
            None => Seq::empty(),
        },
{
    let available = error.is_none();
    Status {
        available,
        gateway_url: string_of(&to_chars(gateway_url)),
        agent_id: string_of(&to_chars(agent_id)),
        error: match error {
            Some(e) => e,
            None => String::new(),
        },
    }
}

// ---------- the reply stream ----------

/// The complete lines of a stream buffer and the partial line after the
/// last line break (empty when the buffer ends with one).
pub open spec fn buffer_lines(buf: Seq<char>) -> (Seq<Seq<char>>, Seq<char>) {
    let parts = split_char(buf, '\n');
    (parts.drop_last(), parts.last())
}

/// Splits a stream buffer into its complete lines and the rest.
pub fn take_lines(buf: &str) -> (r: (Vec<String>, String))
    ensures
        r.0@.map_values(|l: String| l@) == buffer_lines(buf@).0,
        r.1@ == buffer_lines(buf@).1,
{
    let parts = split_char_exec(&to_chars(buf), '\n');
    proof {
        crate::dashboard::lemma_split_char_nonempty(buf@, '\n');
    }
    let n = parts.len();
    let mut out: Vec<String> = Vec::new();
    let mut i: usize = 0;
    while i + 1 < n
        invariant
            n == parts.len(),
            n >= 1,
            i + 1 <= n,
            views(parts@) == split_char(buf@, '\n'),
            out@.map_values(|l: String| l@) == views(parts@).take(i as int),
        decreases n - i,
    {
        let s = string_of(&parts[i]);
        let ghost before = out@;
        out.push(s);
        proof {
            assert(out@.map_values(|l: String| l@) =~= before.map_values(|l: String| l@).push(s@));
            assert(views(parts@).take(i + 1) =~= views(parts@).take(i as int).push(
                parts@[i as int]@,
            ));
        }
        i += 1;
    }
    proof {
        assert(views(parts@).take(n - 1) =~= views(parts@).drop_last());
    }
    (out, string_of(&parts[n - 1]))
}

/// What one line of the event stream says.
#[derive(Debug, Clone, PartialEq, Eq)]
pub enum SseLine {
    /// Not a `data:` line.
    Other,
    /// `data: [DONE]`: the reply is complete.
    Done,
    /// The payload of a `data:` line.
    Data(String),
}

/// A line: trailing `\r` removed, trimmed; a `data: ` prefix marks a
/// payload, `[DONE]` the end.
pub open spec fn sse_line_of(line: Seq<char>) -> Option<Seq<char>> {
    strip_prefix(trim(trim_end_char(line, '\r')), "data: "@)
}

pub fn sse_line(line: &str) -> (r: SseLine)
    ensures
        match sse_line_of(line@) {
            None => r == SseLine::Other,
            Some(d) => if d == "[DONE]"@ {
                r == SseLine::Done
            } else {
                r matches SseLine::Data(x) && x@ == d
            },
        },
{
    let t = trim_of(&trim_end_char_exec(&to_chars(line), '\r'));
    match strip_prefix_exec(&t, &to_chars("data: ")) {
        None => SseLine::Other,
        Some(d) => {
            if same(&d, &to_chars("[DONE]")) {
                SseLine::Done
            } else {
                SseLine::Data(string_of(&d))
            }
        },
    }
}

/// `choices[0].delta.content` of a streamed JSON event, as serde_json
/// reads it (`None` when the payload is not JSON or holds no such
/// string).
pub uninterp spec fn delta_content(data: Seq<char>) -> Option<Seq<char>>;

/// serde_json's `from_str::<Value>`, then `choices[0].delta.content` as
/// a string. The result is named (`delta_content`), not stated.
#[verifier::external_body]
fn json_delta_content(data: &str) -> (r: Option<String>)
    ensures
        (match r {
            Some(s) => Some(s@),
            None => None,
        }) == delta_content(data@),
{
    let v: serde_json::Value = serde_json::from_str(data).ok()?;
    v["choices"][0]["delta"]["content"].as_str().map(|s| s.to_string())
}

/// A delta worth delivering: present and not empty.
pub fn nonempty_chunk(c: Option<String>) -> (r: Option<String>)
    ensures
        match c {
            Some(s) => if s@.len() > 0 {
                r matches Some(x) && x@ == s@
            } else {
                r is None
            },
            None => r is None,
        },
{
    match c {
        Some(s) => {
            if s.as_str().unicode_len() > 0 {
                Some(s)
            } else {
                None
            }
        },
        None => None,
    }
}

/// The text chunk a `data:` payload delivers, if any.
pub fn stream_chunk(data: &str) -> (r: Option<String>)
    ensures
        match delta_content(data@) {
            Some(s) => if s.len() > 0 {
                r matches Some(x) && x@ == s
            } else {
                r is None
            },
            None => r is None,
        },
{
    nonempty_chunk(json_delta_content(data))
}

/// The text chunk one complete line of the stream delivers: the non-empty
/// `choices[0].delta.content` of a `data:` payload other than `[DONE]`.
pub open spec fn line_chunk(line: Seq<char>) -> Option<Seq<char>> {
    match sse_line_of(line) {
        Some(d) => if d == "[DONE]"@ {
            None
        } else {
            match delta_content(d) {
                Some(c) => if c.len() > 0 {
                    Some(c)
                } else {
                    None
                },
                None => None,
            }
        },
        None => None,
    }
}

/// `data: [DONE]`: the reply is complete.
pub open spec fn is_done_line(line: Seq<char>) -> bool {
    sse_line_of(line) == Some("[DONE]"@)
}

/// What complete lines deliver, in order, up to the first `[DONE]`; and
/// whether one was met.
pub open spec fn stream_out(ls: Seq<Seq<char>>) -> (Seq<Seq<char>>, bool)
    decreases ls.len(),
{
    if ls.len() == 0 {
        (Seq::empty(), false)
    } else if is_done_line(ls[0]) {
        (Seq::empty(), true)
    } else {
        let rest = stream_out(ls.skip(1));
        (
            match line_chunk(ls[0]) {
                Some(c) => seq![c] + rest.0,
                None => rest.0,
            },
            rest.1,
        )
    }
}

/// One step of reading the reply stream: the bytes received so far that
/// did not yet form a line (`buf`) and the newly received text
/// (`chunk`) give the text chunks to deliver, the partial line kept for
/// the next step, and whether the reply is complete.
pub fn stream_step(buf: &str, chunk: &str) -> (r: (Vec<String>, String, bool))
    ensures
        (r.0@.map_values(|c: String| c@), r.2) == stream_out(buffer_lines(buf@ + chunk@).0),
        r.1@ == buffer_lines(buf@ + chunk@).1,
{
    let mut text = to_chars(buf);
    append_chars(&mut text, &to_chars(chunk));
    let whole = string_of(&text);
    let (lines, rest) = take_lines(whole.as_str());
    let ghost ls = lines@.map_values(|l: String| l@);
    let mut out: Vec<String> = Vec::new();
    let mut i: usize = 0;
    proof {
        assert(ls.skip(0) =~= ls);
        assert(out@.map_values(|c: String| c@) + stream_out(ls).0 =~= stream_out(ls).0);
    }
    while i < lines.len()
        invariant_except_break
            i <= lines.len(),
            ls == lines@.map_values(|l: String| l@),
            stream_out(ls) == (out@.map_values(|c: String| c@) + stream_out(ls.skip(i as int)).0, stream_out(
                ls.skip(i as int),
            ).1),
        ensures
            stream_out(ls) == (out@.map_values(|c: String| c@), i < lines.len()),
        decreases lines.len() - i,
    {
        let ghost tail = ls.skip(i as int);
        proof {
            assert(tail[0] == lines@[i as int]@);
            assert(tail.skip(1) =~= ls.skip(i + 1));
        }
        match sse_line(lines[i].as_str()) {
            SseLine::Done => {
                proof {
                    assert(stream_out(ls) == (out@.map_values(|c: String| c@) + Seq::<Seq<char>>::empty(), true));
                    assert(out@.map_values(|c: String| c@) + Seq::<Seq<char>>::empty() =~= out@.map_values(
                        |c: String| c@,
                    ));
                }
                break;
            },
            SseLine::Data(d) => {
                let ghost before = out@;
                match stream_chunk(d.as_str()) {
                    Some(c) => {
                        out.push(c);
                        proof {
                            assert(out@.map_values(|c: String| c@) =~= before.map_values(|c: String| c@)
                                + seq![c@]);
                            assert(before.map_values(|c: String| c@) + (seq![c@] + stream_out(
                                ls.skip(i + 1),
                            ).0) =~= out@.map_values(|c: String| c@) + stream_out(ls.skip(i + 1)).0);
                        }
                    },
                    None => {},
                }
            },
            SseLine::Other => {},
        }
        i += 1;
    }
    proof {
        if i == lines.len() {
            assert(ls.skip(i as int) =~= Seq::<Seq<char>>::empty());
            assert(out@.map_values(|c: String| c@) + Seq::<Seq<char>>::empty() =~= out@.map_values(
                |c: String| c@,
            ));
        }
    }
    (out, rest, i < lines.len())
}

/// Splitting a text anywhere changes nothing of its lines: the complete
/// lines of the first part, then those of its partial line followed by
/// the second part, are the complete lines of the whole, and the partial
/// line left over is the whole's.
pub proof fn lemma_buffer_lines_split(a: Seq<char>, b: Seq<char>)
    ensures
        buffer_lines(a).0 + buffer_lines(buffer_lines(a).1 + b).0 == buffer_lines(a + b).0,
        buffer_lines(buffer_lines(a).1 + b).1 == buffer_lines(a + b).1,
{
    crate::dashboard::lemma_split_char_nonempty(a, '\n');
    crate::dashboard::lemma_split_char_nonempty(a + b, '\n');
    crate::dashboard::lemma_split_char_nonempty(split_char(a, '\n').last() + b, '\n');
    lemma_split_char_append(a, b);
    let pa = split_char(a, '\n');
    let q = split_char(pa.last() + b, '\n');
    assert(pa.drop_last() + q == split_char(a + b, '\n'));
    assert((pa.drop_last() + q).drop_last() =~= pa.drop_last() + q.drop_last());
    assert((pa.drop_last() + q).last() == q.last());
}

/// `split` of `a + b` at `\n`: the pieces of `a` but its last, then the
/// pieces of that last piece followed by `b`.
proof fn lemma_split_char_append(a: Seq<char>, b: Seq<char>)
    ensures
        split_char(a, '\n').drop_last() + split_char(split_char(a, '\n').last() + b, '\n') == split_char(
            a + b,
            '\n',
        ),
    decreases a.len(),
{
    crate::dashboard::lemma_split_char_nonempty(a, '\n');
    lemma_index_of(a, '\n');
    lemma_index_of(a + b, '\n');
    match index_of(a, '\n') {
        Some(i) => {
            assert((a + b)[i] == '\n');
            if let Some(k) = index_of(a + b, '\n') {
                if k < i {
                    assert((a + b)[k] == a[k]);
                }
            }
            assert(index_of(a + b, '\n') == Some(i));
            let ra = a.skip(i + 1);
            lemma_split_char_append(ra, b);
            crate::dashboard::lemma_split_char_nonempty(ra, '\n');
            assert((a + b).take(i) =~= a.take(i));
            assert((a + b).skip(i + 1) =~= ra + b);
            let pr = split_char(ra, '\n');
            assert(split_char(a, '\n') == seq![a.take(i)] + pr);
            assert((seq![a.take(i)] + pr).drop_last() =~= seq![a.take(i)] + pr.drop_last());
            assert((seq![a.take(i)] + pr).last() == pr.last());
            assert(seq![a.take(i)] + pr.drop_last() + split_char(pr.last() + b, '\n') =~= seq![a.take(i)] + (
            pr.drop_last() + split_char(pr.last() + b, '\n')));
        },
        None => {
            assert(split_char(a, '\n') == seq![a]);
            assert(seq![a].drop_last() =~= Seq::<Seq<char>>::empty());
            assert(Seq::<Seq<char>>::empty() + split_char(a + b, '\n') =~= split_char(a + b, '\n'));
        },
    }
}

/// What the stream delivers from lines split in two: what the first part
/// delivers, then, unless it met `[DONE]`, what the second part delivers.
pub proof fn lemma_stream_out_append(l1: Seq<Seq<char>>, l2: Seq<Seq<char>>)
    ensures
        stream_out(l1 + l2) == if stream_out(l1).1 {
            stream_out(l1)
        } else {
            (stream_out(l1).0 + stream_out(l2).0, stream_out(l2).1)
        },
    decreases l1.len(),
{
    if l1.len() == 0 {
        assert(l1 + l2 =~= l2);
        assert(Seq::<Seq<char>>::empty() + stream_out(l2).0 =~= stream_out(l2).0);
    } else {
        assert((l1 + l2)[0] == l1[0]);
        assert((l1 + l2).skip(1) =~= l1.skip(1) + l2);
        lemma_stream_out_append(l1.skip(1), l2);
        if !is_done_line(l1[0]) {
            let r = stream_out(l1.skip(1));
            match line_chunk(l1[0]) {
                Some(c) => {
                    assert(seq![c] + r.0 + stream_out(l2).0 =~= seq![c] + (r.0 + stream_out(l2).0));
                },
                None => {},
            }
        }
    }
}

/// Chunk independence: reading `a` and then `b` after the kept partial
/// line `buf` delivers what reading `a` and `b` at once does (the first
/// step's chunks, then, unless it met `[DONE]`, the second's), and keeps
/// the same partial line.
pub proof fn lemma_stream_chunking(buf: Seq<char>, a: Seq<char>, b: Seq<char>)
    ensures
        ({
            let s1 = buffer_lines(buf + a);
            let s2 = buffer_lines(s1.1 + b);
            let w = buffer_lines(buf + a + b);
            &&& s2.1 == w.1
            &&& stream_out(w.0) == if stream_out(s1.0).1 {
                stream_out(s1.0)
            } else {
                (stream_out(s1.0).0 + stream_out(s2.0).0, stream_out(s2.0).1)
            }
        }),
{
    lemma_buffer_lines_split(buf + a, b);
    let s1 = buffer_lines(buf + a);
    let s2 = buffer_lines(s1.1 + b);
    lemma_stream_out_append(s1.0, s2.0);
}

/// `choices[0].message.content` of a chat completion, as serde_json
/// reads it.
pub uninterp spec fn reply_content(body: Seq<char>) -> Option<Seq<char>>;

/// serde_json's `from_str::<Value>`, then `choices[0].message.content`
/// as a string. The result is named (`reply_content`), not stated.
#[verifier::external_body]
fn json_reply_content(body: &str) -> (r: Option<String>)
    ensures
        (match r {
            Some(s) => Some(s@),
            None => None,
        }) == reply_content(body@),
{
    let v: serde_json::Value = serde_json::from_str(body).ok()?;
    v["choices"][0]["message"]["content"].as_str().map(|s| s.to_string())
}

/// A reply's text, empty when it has none.
pub fn text_or_empty(t: Option<String>) -> (r: String)
    ensures
        r@ == match t {
            Some(s) => s@,
            None => Seq::empty(),
        },
{
    match t {
        Some(s) => s,
        None => String::new(),
    }
}

/// The reply text of a chat completion body, empty when it holds none.
pub fn reply_text(body: &str) -> (r: String)
    ensures
        r@ == match reply_content(body@) {
            Some(s) => s,
            None => Seq::empty(),
        },
{
    text_or_empty(json_reply_content(body))
}

// ---------- WSL ----------

/// Unicode lowercase, as `str::to_lowercase` computes it.
pub uninterp spec fn unicode_lower(s: Seq<char>) -> Seq<char>;

/// std's `str::to_lowercase`. The result is named (`unicode_lower`),
/// not stated.
#[verifier::external_body]
fn to_lowercase(s: &str) -> (r: String)
    ensures
        r@ == unicode_lower(s@),
{
    s.to_lowercase()
}

/// The distro names of a `wsl --list --quiet` listing: each line
/// trimmed, NUL characters removed, blanks dropped.
pub open spec fn distro_names(listing: Seq<char>) -> Seq<Seq<char>> {
    lines(listing).map_values(|l: Seq<char>| replace_char(trim(l), '\0', Seq::empty())).filter(
        |d: Seq<char>| d.len() > 0,
    )
}

/// Index of the first name that satisfies `p`.
pub open spec fn first_index(names: Seq<Seq<char>>, p: spec_fn(Seq<char>) -> bool) -> Option<int> {
    if exists|i: int| 0 <= i < names.len() && p(names[i]) {
        Some(choose|i: int| 0 <= i < names.len() && p(names[i]) && forall|j: int| 0 <= j < i ==> !p(names[j]))
    } else {
        None
    }
}

/// The distro names of a listing.
pub fn distro_list(listing: &str) -> (r: Vec<String>)
    ensures
        r@.map_values(|d: String| d@) == distro_names(listing@),
{
    let ls = lines_of(&to_chars(listing));
    let ghost cleaned = views(ls@).map_values(|l: Seq<char>| replace_char(trim(l), '\0', Seq::empty()));
    let mut out: Vec<String> = Vec::new();
    let mut i: usize = 0;
    while i < ls.len()
        invariant
            i <= ls.len(),
            views(ls@) == lines(listing@),
            cleaned == views(ls@).map_values(|l: Seq<char>| replace_char(trim(l), '\0', Seq::empty())),
            out@.map_values(|d: String| d@) == cleaned.take(i as int).filter(|d: Seq<char>| d.len() > 0),
        decreases ls.len() - i,
    {
        let d = replace_char_exec(&trim_of(&ls[i]), '\0', &Vec::new());
        let ghost before = out@;
        proof {
            assert(cleaned.take(i + 1).drop_last() =~= cleaned.take(i as int));
            assert(cleaned.take(i + 1).last() == d@);
            reveal(Seq::filter);
        }
        if d.len() > 0 {
            let s = string_of(&d);
            out.push(s);
            proof {
                assert(out@.map_values(|x: String| x@) =~= before.map_values(|x: String| x@).push(s@));
            }
        }
        i += 1;
    }
    proof {
        assert(cleaned.take(ls.len() as int) =~= cleaned);
    }
    out
}

/// The distro chosen from the names, given each name's lowercase form:
/// the first whose lowercase form holds `ubuntu`, else the first whose
/// lowercase form does not hold `docker`, else none (empty).
pub open spec fn chosen_by(names: Seq<Seq<char>>, lowered: Seq<Seq<char>>) -> Seq<char> {
    match first_index(lowered, |d: Seq<char>| find(d, "ubuntu"@) is Some) {
        Some(i) => names[i],
        None => match first_index(lowered, |d: Seq<char>| find(d, "docker"@) is None) {
            Some(i) => names[i],
            None => Seq::empty(),
        },
    }
}

/// Picks the gateway's distro given the names and their lowercase
/// forms (one per name).
pub fn choose_distro(names: &Vec<String>, lowered: &Vec<String>) -> (r: String)
    requires
        lowered.len() == names.len(),
    ensures
        r@ == chosen_by(names@.map_values(|d: String| d@), lowered@.map_values(|d: String| d@)),
{
    let ghost ns = names@.map_values(|d: String| d@);
    let ghost ls = lowered@.map_values(|d: String| d@);
    let mut i: usize = 0;
    while i < lowered.len()
        invariant
            i <= lowered.len(),
            lowered.len() == names.len(),
            ns == names@.map_values(|d: String| d@),
            ls == lowered@.map_values(|d: String| d@),
            forall|j: int| 0 <= j < i ==> find(#[trigger] ls[j], "ubuntu"@) is None,
        decreases lowered.len() - i,
    {
        proof {
            crate::text::lemma_find_from(ls[i as int], "ubuntu"@, 0);
        }
        if find_exec(&to_chars(lowered[i].as_str()), &to_chars("ubuntu"), 0).is_some() {
            proof {
                let p = |d: Seq<char>| find(d, "ubuntu"@) is Some;
                assert(p(ls[i as int]));
                assert(first_index(ls, p) == Some(i as int));
            }
            return string_of(&to_chars(names[i].as_str()));
        }
        i += 1;
    }
    let mut k: usize = 0;
    while k < lowered.len()
        invariant
            k <= lowered.len(),
            lowered.len() == names.len(),
            ns == names@.map_values(|d: String| d@),
            ls == lowered@.map_values(|d: String| d@),
            forall|j: int| 0 <= j < lowered.len() ==> find(#[trigger] ls[j], "ubuntu"@) is None,
            forall|j: int| 0 <= j < k ==> find(#[trigger] ls[j], "docker"@) is Some,
        decreases lowered.len() - k,
    {
        proof {
            crate::text::lemma_find_from(ls[k as int], "docker"@, 0);
        }
        if find_exec(&to_chars(lowered[k].as_str()), &to_chars("docker"), 0).is_none() {
            proof {
                let p = |d: Seq<char>| find(d, "docker"@) is None;
                assert(p(ls[k as int]));
                assert(first_index(ls, p) == Some(k as int));
                let q = |d: Seq<char>| find(d, "ubuntu"@) is Some;
                assert(first_index(ls, q) is None);
            }
            return string_of(&to_chars(names[k].as_str()));
        }
        k += 1;
    }
    proof {
        let q = |d: Seq<char>| find(d, "ubuntu"@) is Some;
        assert(first_index(ls, q) is None);
        let p = |d: Seq<char>| find(d, "docker"@) is None;
        assert(first_index(ls, p) is None);
    }
    String::new()
}

pub open spec fn lowered_names(names: Seq<Seq<char>>) -> Seq<Seq<char>> {
    names.map_values(|d: Seq<char>| unicode_lower(d))
}

/// Picks the gateway's distro from the names.
pub fn pick_distro(names: &Vec<String>) -> (r: String)
    ensures
        r@ == chosen_by(names@.map_values(|d: String| d@), lowered_names(names@.map_values(|d: String| d@))),
{
    let ghost ns = names@.map_values(|d: String| d@);
    let ghost target = lowered_names(ns);
    let mut lowered: Vec<String> = Vec::new();
    let mut i: usize = 0;
    while i < names.len()
        invariant
            i <= names.len(),
            ns == names@.map_values(|d: String| d@),
            target == lowered_names(ns),
            lowered.len() == i,
            forall|j: int| 0 <= j < i ==> (#[trigger] lowered@[j])@ == target[j],
        decreases names.len() - i,
    {
        let l = to_lowercase(names[i].as_str());
        proof {
            assert(ns[i as int] == names@[i as int]@);
        }
        lowered.push(l);
        i += 1;
    }
    proof {
        assert(lowered@.map_values(|d: String| d@) =~= target);
    }
    choose_distro(names, &lowered)
}

/// The WSL side of the gateway: which distro it runs in (empty when
/// none was found).
pub struct WslManager {
    distro: String,
}

impl WslManager {
    pub closed spec fn distro_view(&self) -> Seq<char> {
        self.distro@
    }

    /// The manager for the distro chosen from a `wsl --list --quiet`
    /// listing.
    pub fn from_listing(listing: &str) -> (w: WslManager)
        ensures
            w.distro_view() == chosen_by(distro_names(listing@), lowered_names(distro_names(listing@))),
    {
        WslManager { distro: pick_distro(&distro_list(listing)) }
    }

    /// The manager when WSL is not there.
    pub fn without_wsl() -> (w: WslManager)
        ensures
            w.distro_view() == Seq::<char>::empty(),
    {
        WslManager { distro: String::new() }
    }

    pub fn distro(&self) -> (r: &str)
        ensures
            r@ == self.distro_view(),
    {
        self.distro.as_str()
    }

    /// Whether a distro was found (commands need one).
    pub fn has_distro(&self) -> (r: bool)
        ensures
            r <==> self.distro_view().len() > 0,
    {
        self.distro.as_str().unicode_len() > 0
    }

    /// The `wsl` arguments that run `command` in the distro's login
    /// shell.
    pub fn run_args(&self, command: &str) -> (r: Vec<String>)
        ensures
            r@.map_values(|a: String| a@) == seq![
                "-d"@,
                self.distro_view(),
                "--"@,
                "bash"@,
                "-lc"@,
                command@,
            ],
    {
        let r = vec![
            string_of(&to_chars("-d")),
            string_of(&to_chars(self.distro.as_str())),
            string_of(&to_chars("--")),
            string_of(&to_chars("bash")),
            string_of(&to_chars("-lc")),
            string_of(&to_chars(command)),
        ];
        proof {
            assert(r@.map_values(|a: String| a@) =~= seq![
                "-d"@,
                self.distro_view(),
                "--"@,
                "bash"@,
                "-lc"@,
                command@,
            ]);
        }
        r
    }
}

} // verus!
