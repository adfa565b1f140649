use querykey_server::openclaw::{
    analyze_prompt, choose_distro, completions_url, distro_list, gateway_base, health_url, pick_distro,
    probe_status, reply_text, sse_line, stream_chunk, stream_step, take_lines, with_user_message, ChatMessage,
    SseLine, WslManager,
};

#[test]
fn gateway_urls() {
    assert_eq!(gateway_base("http://127.0.0.1:18789//"), "http://127.0.0.1:18789");
    assert_eq!(health_url("http://h"), "http://h/health");
    assert_eq!(completions_url("http://h"), "http://h/v1/chat/completions");
}

#[test]
fn user_message_goes_last() {
    let h = vec![ChatMessage { role: "assistant".into(), content: "hi".into() }];
    let m = with_user_message(&h, "hello");
    assert_eq!(m.len(), 2);
    assert_eq!(m[0].role, "assistant");
    assert_eq!(m[1].role, "user");
    assert_eq!(m[1].content, "hello");
}

#[test]
fn prompt_text() {
    assert_eq!(
        analyze_prompt("C", "X"),
        "Extract tasks, events, instructions, conflicts and messages as JSON from the following. Context: X\n\nC"
    );
}

#[test]
fn status_reports_errors() {
    let s = probe_status("u", "a", None);
    assert!(s.available && s.error.is_empty());
    let s = probe_status("u", "a", Some("gateway returned 503".into()));
    assert!(!s.available);
    assert_eq!(s.error, "gateway returned 503");
}

#[test]
fn stream_buffer_keeps_the_partial_line() {
    let (lines, rest) = take_lines("data: a\r\ndata: b\npart");
    assert_eq!(lines, vec!["data: a\r".to_string(), "data: b".to_string()]);
    assert_eq!(rest, "part");
    let (lines, rest) = take_lines("x\n");
    assert_eq!(lines, vec!["x".to_string()]);
    assert_eq!(rest, "");
}

#[test]
fn sse_lines() {
    assert_eq!(sse_line("data: [DONE]\r"), SseLine::Done);
    assert_eq!(sse_line("  data: {}  "), SseLine::Data("{}".into()));
    assert_eq!(sse_line(": keep-alive"), SseLine::Other);
    assert_eq!(sse_line(""), SseLine::Other);
}

#[test]
fn stream_chunks_and_replies() {
    assert_eq!(stream_chunk(r#"{"choices":[{"delta":{"content":"Hel"}}]}"#), Some("Hel".into()));
    assert_eq!(stream_chunk(r#"{"choices":[{"delta":{"content":""}}]}"#), None);
    assert_eq!(stream_chunk(r#"{"choices":[{"delta":{}}]}"#), None);
    assert_eq!(stream_chunk("oops"), None);
    assert_eq!(reply_text(r#"{"choices":[{"message":{"content":"Hi"}}]}"#), "Hi");
    assert_eq!(reply_text("{}"), "");
}

#[test]
fn distro_choice_prefers_ubuntu_then_non_docker() {
    let listing = "d\0o\0c\0k\0e\0r\0-\0d\0e\0s\0k\0t\0o\0p\0\r\nDebian\r\nUbuntu-22.04\r\n\r\n";
    let names = distro_list(listing);
    assert_eq!(names, vec!["docker-desktop".to_string(), "Debian".to_string(), "Ubuntu-22.04".to_string()]);
    assert_eq!(pick_distro(&names), "Ubuntu-22.04");
    assert_eq!(pick_distro(&vec!["docker-desktop".into(), "Debian".into()]), "Debian");
    assert_eq!(pick_distro(&vec!["docker-desktop".into()]), "");
    assert_eq!(WslManager::from_listing("docker-desktop\nAlpine\n").distro(), "Alpine");
    let w = WslManager::without_wsl();
    assert!(!w.has_distro());
    let w = WslManager::from_listing("Ubuntu\n");
    assert_eq!(w.run_args("ls"), vec!["-d", "Ubuntu", "--", "bash", "-lc", "ls"]);
}

#[test]
fn distro_choice_reads_the_lowercase_forms() {
    let names = vec!["A".to_string(), "B".to_string(), "C".to_string()];
    let lowered = vec!["docker-x".to_string(), "plain".to_string(), "my ubuntu".to_string()];
    assert_eq!(choose_distro(&names, &lowered), "C");
    let lowered = vec!["docker-x".to_string(), "plain".to_string(), "other".to_string()];
    assert_eq!(choose_distro(&names, &lowered), "B");
    assert_eq!(pick_distro(&vec!["DOCKER-desktop".into(), "UBUNTU".into()]), "UBUNTU");
}

#[test]
fn stream_steps_deliver_the_same_however_the_text_is_cut() {
    let text = "data: {\"choices\":[{\"delta\":{\"content\":\"Hel\"}}]}\r\n\ndata: {\"choices\":[{\"delta\":{\"content\":\"lo\"}}]}\n: ping\ndata: [DONE]\ndata: {\"choices\":[{\"delta\":{\"content\":\"late\"}}]}\n";
    let (all, _, done) = stream_step("", text);
    assert_eq!(all, vec!["Hel".to_string(), "lo".to_string()]);
    assert!(done);
    for cut in 0..text.len() {
        let (mut got, rest, d1) = stream_step("", &text[..cut]);
        if !d1 {
            let (more, _, d2) = stream_step(&rest, &text[cut..]);
            got.extend(more);
            assert!(d2);
        }
        assert_eq!(got, all, "cut at {cut}");
    }
    let (c, rest, d) = stream_step("data: {\"choi", "ces\":[]}");
    assert!(c.is_empty() && !d);
    assert_eq!(rest, "data: {\"choices\":[]}");
}
