//! The chat over the WebSocket: which text a chat frame asks about, the
//! history handed to the agent, and the frames broadcast back while the
//! agent answers. The sockets and the broadcast channel are the
//! caller's part.
use vstd::prelude::*;

use crate::models::ChatRequest;
use crate::openclaw::{message_views, ChatMessage};
use crate::text::{string_of, to_chars};

verus! {

/// A frame broadcast to the chat clients (`type` and `content`).
#[derive(Debug, Clone, PartialEq, Eq)]
pub struct Frame {
    pub msg_type: String,
    pub content: String,
}

pub open spec fn frame_view(f: Frame) -> (Seq<char>, Seq<char>) {
    (f.msg_type@, f.content@)
}

/// The text a chat request asks about: `content`, else `message`;
/// `None` when both are empty (the request is ignored).
pub open spec fn request_text(content: Seq<char>, message: Seq<char>) -> Option<Seq<char>> {
    let t = if content.len() > 0 {
        content
    } else {
        message
    };
    if t.len() > 0 {
        Some(t)
    } else {
        None
    }
}

pub fn chat_content(req: &ChatRequest) -> (r: Option<String>)
    ensures
        (match r {
            Some(s) => Some(s@),
            None => None,
        }) == request_text(req.content@, req.message@),
{
    let t = if req.content.as_str().unicode_len() > 0 {
        string_of(&to_chars(req.content.as_str()))
    } else {
        string_of(&to_chars(req.message.as_str()))
    };
    if t.as_str().unicode_len() > 0 {
        Some(t)
    } else {
        None
    }
}

/// The request's history as agent chat messages.
pub fn chat_history(req: &ChatRequest) -> (r: Vec<ChatMessage>)
    ensures
        message_views(r@) == req.history@.map_values(
            |h: crate::models::ChatHistoryItem| (h.role@, h.content@),
        ),
{
    let mut out: Vec<ChatMessage> = Vec::new();
    let mut i: usize = 0;
    while i < req.history.len()
        invariant
            i <= req.history.len(),
            message_views(out@) == req.history@.map_values(
                |h: crate::models::ChatHistoryItem| (h.role@, h.content@),
            ).take(i as int),
        decreases req.history.len() - i,
    {
        let h = &req.history[i];
        let m = ChatMessage {
            role: string_of(&to_chars(h.role.as_str())),
            content: string_of(&to_chars(h.content.as_str())),
        };
        let ghost before = out@;
        out.push(m);
        proof {
            assert(message_views(out@) =~= message_views(before).push((m.role@, m.content@)));
            assert(req.history@.map_values(
                |h: crate::models::ChatHistoryItem| (h.role@, h.content@),
            ).take(i + 1) =~= req.history@.map_values(
                |h: crate::models::ChatHistoryItem| (h.role@, h.content@),
            ).take(i as int).push((h.role@, h.content@)));
        }
        i += 1;
    }
    proof {
        assert(req.history@.map_values(
            |h: crate::models::ChatHistoryItem| (h.role@, h.content@),
        ).take(req.history.len() as int) =~= req.history@.map_values(
            |h: crate::models::ChatHistoryItem| (h.role@, h.content@),
        ));
    }
    out
}

fn frame(msg_type: &str, content: &str) -> (f: Frame)
    ensures
        frame_view(f) == (msg_type@, content@),
{
    Frame { msg_type: string_of(&to_chars(msg_type)), content: string_of(&to_chars(content)) }
}

/// The frame that opens a streamed reply.
pub fn start_frame() -> (f: Frame)
    ensures
        frame_view(f) == ("stream_start"@, Seq::<char>::empty()),
{
    proof {
        reveal_strlit("");
    }
    frame("stream_start", "")
}

/// The frames that close a reply: the whole answer as one chunk and the
/// end mark, or the error.
pub open spec fn closing_frames(outcome: Result<Seq<char>, Seq<char>>) -> Seq<(Seq<char>, Seq<char>)> {
    match outcome {
        Ok(answer) => seq![("stream_chunk"@, answer), ("stream_end"@, Seq::empty())],
        Err(e) => seq![("error"@, e)],
    }
}

pub fn reply_frames(outcome: Result<String, String>) -> (r: Vec<Frame>)
    ensures
        r@.map_values(|f: Frame| frame_view(f)) == closing_frames(
            match outcome {
                Ok(a) => Ok(a@),
                Err(e) => Err(e@),
            },
        ),
{
    proof {
        reveal_strlit("");
    }
    match outcome {
        Ok(answer) => {
            let a = frame("stream_chunk", answer.as_str());
            let b = frame("stream_end", "");
            proof {
                assert(b.content@ =~= Seq::<char>::empty());
            }
            let mut r: Vec<Frame> = Vec::new();
            r.push(a);
            r.push(b);
            proof {
                assert(r@.map_values(|f: Frame| frame_view(f)) =~= seq![frame_view(a), frame_view(b)]);
            }
            r
        },
        Err(e) => {
            let a = frame("error", e.as_str());
            let mut r: Vec<Frame> = Vec::new();
            r.push(a);
            proof {
                assert(r@.map_values(|f: Frame| frame_view(f)) =~= seq![frame_view(a)]);
            }
            r
        },
    }
}

} // verus!
