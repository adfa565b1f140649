use querykey_server::dashboard::{apply_note, check_note_file, parse_text, set_note_in_text};

#[test]
fn sets_existing_note_single_line() {
    let md = "## Active\n### SOAR — apply\n- **status:** drafting\n- **notes:**\n\n## Next\n";
    let out = set_note_in_text(md, "SOAR — apply", "called them today").unwrap();
    assert!(out.contains("- **notes:** called them today"));
    assert!(out.contains("- **status:** drafting"));
    assert!(out.contains("## Next"));
    // Re-parse round-trips the note value.
    let d = parse_text("t", &out);
    let it = d.items.iter().find(|i| i.title == "SOAR — apply").unwrap();
    let note = it.fields.iter().find(|(k, _)| k == "notes").unwrap();
    assert_eq!(note.1, "called them today");
}

#[test]
fn replaces_multiline_note_and_preserves_following_section() {
    let md = "## A\n### Item\n- **x:** 1\n- **notes:** old note\n  more old\n\n## B\n### Other\n- **y:** 2\n";
    let out = set_note_in_text(md, "Item", "new line").unwrap();
    assert!(out.contains("- **notes:** new line"));
    assert!(!out.contains("old note"));
    assert!(out.contains("## B"));
    assert!(out.contains("### Other"));
    assert!(out.contains("- **y:** 2"));
}

#[test]
fn set_then_clear_preserves_blank_separator() {
    let md = "## A\n### Item\n- **status:** open\n- **notes:**\n\n### Next\n- **z:** 9\n";
    let set = set_note_in_text(md, "Item", "temp").unwrap();
    assert!(set.contains("- **notes:** temp"));
    let cleared = set_note_in_text(&set, "Item", "").unwrap();
    // Clearing returns to the starting text byte-for-byte.
    assert_eq!(cleared, md);
}

#[test]
fn missing_item_returns_none() {
    let md = "## A\n### Item\n- **notes:**\n";
    assert!(set_note_in_text(md, "Nope", "x").is_none());
}

#[test]
fn appends_note_when_absent() {
    let md = "## A\n### Item\n- **status:** open\n";
    let out = set_note_in_text(md, "Item", "first note").unwrap();
    assert!(out.contains("- **notes:** first note"));
    let d = parse_text("t", &out);
    let it = &d.items[0];
    assert!(it.fields.iter().any(|(k, v)| k == "notes" && v == "first note"));
}

#[test]
fn parses_basic_structure() {
    let md = r"
# Title

## Active

### SOAR — apply
- **next-action-date:** 2026-06-08
- **status:** drafting

### 80k advising
- **status:** stage 1 not yet
- **notes:**
";
    let d = parse_text("test", md);
    assert_eq!(d.items.len(), 2);
    assert_eq!(d.items[0].section, "Active");
    assert_eq!(d.items[0].title, "SOAR — apply");
    assert_eq!(d.items[0].fields.len(), 2);
    assert_eq!(d.items[0].fields[0], ("next-action-date".to_string(), "2026-06-08".to_string()));
}

#[test]
fn handles_multiline_notes() {
    let md = "## S\n### Item\n- **notes:**\nfirst line\nsecond line\n\n### Next item\n";
    let d = parse_text("test", md);
    assert_eq!(d.items.len(), 2);
    assert_eq!(d.items[0].fields[0].0, "notes");
    assert!(d.items[0].fields[0].1.contains("first line"));
    assert!(d.items[0].fields[0].1.contains("second line"));
}

#[test]
fn multiline_note_value_and_crlf_line_endings() {
    let md = "## A\r\n### Item\r\n- **notes:** old\r\n\r\n";
    let out = set_note_in_text(md, "Item", "one\ntwo\n").unwrap();
    assert_eq!(out, "## A\r\n### Item\r\n- **notes:** one\r\n  two\r\n\r\n");
    let d = parse_text("p", &out);
    assert_eq!(d.source_path, "p");
    assert_eq!(d.items[0].fields, vec![("notes".to_string(), "one\ntwo".to_string())]);
}

#[test]
fn notes_key_matches_case_insensitively_and_plain_bullets_are_skipped() {
    let md = "### Item\n- plain bullet\n- **Notes:** x\n";
    let out = set_note_in_text(md, "  Item ", "y").unwrap();
    assert_eq!(out, "### Item\n- plain bullet\n- **notes:** y\n");
    let d = parse_text("t", md);
    assert_eq!(d.items[0].section, "");
    assert_eq!(d.items[0].fields, vec![("Notes".to_string(), "x".to_string())]);
}

#[test]
fn rejects_disallowed_file() {
    assert!(check_note_file("../secrets.md").is_err());
}

#[test]
fn note_writes_are_limited_to_dashboard_files() {
    assert_eq!(check_note_file("applications.md"), Ok(()));
    assert_eq!(check_note_file("plans.md"), Ok(()));
    assert_eq!(check_note_file("../secrets.md"), Err("file not allowed: ../secrets.md".to_string()));
    assert_eq!(
        apply_note("## A\n### Item\n- **notes:**\n", "Nope", "x"),
        Err("item not found: Nope".to_string())
    );
    let out = apply_note("## A\n### Item\n- **notes:**\n", "Item", "x").unwrap();
    assert!(out.contains("- **notes:** x"));
}

#[test]
fn crlf_note_reads_back_after_writing() {
    let md = "# Board\r\n## Active\r\n### Item\r\n- **status:** open\r\n- **notes:** old\r\n\r\n## Done\r\n";
    let out = set_note_in_text(md, "  Item ", "  fresh words  ").unwrap();
    assert!(out.contains("\r\n- **notes:** fresh words\r\n"));
    let d = parse_text("t", &out);
    let it = d.items.iter().find(|i| i.title == "Item").unwrap();
    assert!(it.fields.iter().any(|(k, v)| k == "notes" && v == "fresh words"));
    assert!(it.fields.iter().any(|(k, v)| k == "status" && v == "open"));
}

#[test]
fn multiline_note_reads_back_with_trimmed_lines() {
    let md = "## Active\n### Item\n- **status:** open\n\n## Done\n";
    let out = set_note_in_text(md, "Item", " first line \n   second line\n").unwrap();
    assert!(out.contains("- **notes:** first line\n  second line\n"));
    let d = parse_text("t", &out);
    let it = d.items.iter().find(|i| i.title == "Item").unwrap();
    assert!(it.fields.iter().any(|(k, v)| k == "notes" && v == "first line\nsecond line"));
}

#[test]
fn the_dominant_line_ending_is_kept() {
    let md = "## A\r\n### Item\n- **status:** open\n- **notes:** old\n\n## B\n";
    let out = set_note_in_text(md, "Item", "new").unwrap();
    assert_eq!(out, "## A\n### Item\n- **status:** open\n- **notes:** new\n\n## B\n");
    let md = "## A\r\n### Item\r\n- **notes:** old\n\r\n";
    let out = set_note_in_text(md, "Item", "new").unwrap();
    assert_eq!(out, "## A\r\n### Item\r\n- **notes:** new\r\n\r\n");
}

#[test]
fn crlf_set_then_clear_restores_the_file() {
    let md = "## A\r\n### Item\r\n- **status:** open\r\n- **notes:**\r\n\r\n### Next\r\n- **z:** 9\r\n";
    let set = set_note_in_text(md, "Item", "first\n  second").unwrap();
    assert!(set.contains("- **notes:** first\r\n  second\r\n\r\n### Next"));
    assert_eq!(set_note_in_text(&set, "Item", "").unwrap(), md);
}
