use querykey_server::models::{ChatHistoryItem, ChatRequest};
use querykey_server::ws::{chat_content, chat_history, reply_frames, start_frame, Frame};

fn req(content: &str, message: &str) -> ChatRequest {
    ChatRequest {
        content: content.into(),
        message: message.into(),
        context: vec![],
        history: vec![ChatHistoryItem { role: "user".into(), content: "before".into() }],
    }
}

fn frame(t: &str, c: &str) -> Frame {
    Frame { msg_type: t.into(), content: c.into() }
}

#[test]
fn chat_text_prefers_content() {
    assert_eq!(chat_content(&req("a", "b")), Some("a".into()));
    assert_eq!(chat_content(&req("", "b")), Some("b".into()));
    assert_eq!(chat_content(&req("", "")), None);
    let h = chat_history(&req("a", ""));
    assert_eq!(h.len(), 1);
    assert_eq!(h[0].content, "before");
}

#[test]
fn reply_frames_close_the_stream() {
    assert_eq!(start_frame(), frame("stream_start", ""));
    assert_eq!(reply_frames(Ok("Hello".into())), vec![frame("stream_chunk", "Hello"), frame("stream_end", "")]);
    assert_eq!(reply_frames(Err("boom".into())), vec![frame("error", "boom")]);
}
