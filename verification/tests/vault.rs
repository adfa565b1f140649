use querykey_server::vault::{
    compose, entity_ref, optional_ref, privacy_gitignore, ref_id, slug, split, CardSync, EntityRef,
    LinkSources, PersonRef, Vault,
};

fn rules(gitignore: &str) -> Vec<String> {
    gitignore
        .lines()
        .map(str::trim)
        .filter(|l| !l.is_empty() && !l.starts_with('#'))
        .map(|l| l.to_string())
        .collect()
}

#[test]
fn semantic_wikilinks_resolve_with_precedence_and_dangling() {
    let v = Vault::new("/tmp/qk-vault");
    assert_eq!(slug("John  Smith!!"), "john-smith");
    assert_eq!(slug("person-john-smith"), "person-john-smith");

    let tid = "6f1c2a8e-0d4b-4c1e-9a53-1b2c3d4e5f60".to_string();
    let src = LinkSources {
        persons: vec![PersonRef {
            id: "ada-lovelace".into(),
            display_name: "Ada Lovelace".into(),
            body: Some("# Ada Lovelace".into()),
        }],
        tasks: vec![EntityRef {
            id: tid.clone(),
            title: "Read the Analytical Engine notes".into(),
            description: "Per [[mentor:Ada Lovelace]], also see [[Ada Lovelace]] \
                          and the missing [[Babbage Difference Engine]]."
                .into(),
        }],
        events: vec![],
        notes: v.list_notes(&vec![(
            "salon".to_string(),
            "# Salon\n\nIntroduced [[knows:person:ada-lovelace]] to the group.\n".to_string(),
        )]),
    };

    let edges = v.collect_links(&src);
    assert!(edges.iter().any(|e| e.from_kind == "task"
        && e.from_id == tid
        && e.predicate == "mentor"
        && e.to_kind == "person"
        && e.to_id == "ada-lovelace"
        && e.resolved));
    assert!(edges
        .iter()
        .any(|e| e.from_kind == "task" && e.predicate == "references" && e.to_id == "ada-lovelace"));
    let dangling = edges.iter().find(|e| !e.resolved).expect("dangling edge kept");
    assert_eq!(dangling.to_kind, "thing");
    assert_eq!(dangling.to_id, "babbage-difference-engine");
    assert_eq!(dangling.to_label, "Babbage Difference Engine");
    assert!(edges.iter().any(|e| e.from_kind == "note"
        && e.from_id == "salon"
        && e.predicate == "knows"
        && e.to_kind == "person"
        && e.to_id == "ada-lovelace"));

    let back = v.links_to(&src, "person", "ada-lovelace");
    assert!(back.len() >= 3);
    assert!(back.iter().all(|e| e.resolved));
    assert!(v.links_from(&src, "note", "salon").iter().any(|e| e.predicate == "knows"));
}

#[test]
fn card_propagation_delay_revert_and_peers() {
    // Privacy asymmetry: ignores peers/ and .querykey/ but NOT card.md.
    let gi = privacy_gitignore(None).unwrap();
    let r = rules(&gi);
    assert!(r.contains(&"/peers/".to_string()));
    assert!(r.contains(&"/.querykey/".to_string()));
    assert!(!r.iter().any(|l| l.contains("card.md")));
    assert!(privacy_gitignore(Some(&gi)).is_none());

    let now: i64 = 1_780_000_000;
    let mut s = CardSync { working: None, pending: None, published: None };
    s.stage_card_edit("first bio", now);
    assert_eq!(s.working.as_deref(), Some("first bio"));
    assert!(s.card_pending().is_some());
    assert!(s.card_published().is_none());
    assert!(!s.promote_due_card(now)); // 24h not elapsed
    assert!(s.promote_due_card(now + 24 * 3600));
    assert!(s.card_pending().is_none());
    assert_eq!(s.card_published().as_deref(), Some("first bio"));

    s.stage_card_edit("drunk 11pm mistake", now + 30 * 3600);
    assert_eq!(s.working.as_deref(), Some("drunk 11pm mistake"));
    assert!(s.revert_pending_card());
    assert!(s.card_pending().is_none());
    assert_eq!(s.working.as_deref(), Some("first bio"));
    assert_eq!(s.card_published().as_deref(), Some("first bio"));
    assert!(!s.revert_pending_card());

    assert!(!Vault::peer_dirname("github:bob").contains(':'));
    assert_eq!(Vault::peer_dirname("github:bob"), "github_bob");
}

#[test]
fn gitignore_is_appended_once() {
    let out = privacy_gitignore(Some("target/")).unwrap();
    assert!(out.starts_with("target/\n\n# QueryKey vault privacy asymmetry"));
    let out2 = privacy_gitignore(Some("target/\n")).unwrap();
    assert!(out2.starts_with("target/\n\n# QueryKey"));
    assert!(privacy_gitignore(Some(&out)).is_none());
}

#[test]
fn frontmatter_split_and_compose_round_trip() {
    let text = compose("id: x\n", "\n\nBody line.\n\n  ");
    assert_eq!(text, "---\nid: x\n---\n\n\n\nBody line.\n");
    assert_eq!(split(&text), ("id: x\n".to_string(), "Body line.".to_string()));
    assert_eq!(split("\u{feff}just a body  \n"), (String::new(), "just a body".to_string()));
    assert_eq!(split("---\nno end"), (String::new(), "---\nno end".to_string()));
}

#[test]
fn root_and_card_path() {
    let v = Vault::new("/vault");
    assert_eq!(v.root(), "/vault");
    assert_eq!(v.card_path(), "/vault/card.md");
    assert_eq!(Vault::new("/vault/").card_path(), "/vault/card.md");
    assert_eq!(Vault::new("").card_path(), "card.md");
}

#[test]
fn entity_references_round_trip() {
    assert_eq!(entity_ref("person", "ada-lovelace"), "person:ada-lovelace");
    assert_eq!(ref_id("person", "person:ada-lovelace", "slug"), "ada-lovelace");
    assert_eq!(ref_id("person", "ada-lovelace", "slug"), "slug");
    assert_eq!(optional_ref("person", ""), "");
    assert_eq!(optional_ref("person", "ada"), "person:ada");
    assert_eq!(ref_id("person", "", ""), "");
}

#[test]
fn slugs_are_canonical() {
    for raw in ["John  Smith!!", "  --Ada   Lovelace--  ", "Babbage \"Engine\"", "", "---", "a-b", "Ünïcode x"] {
        let s = slug(raw);
        assert_eq!(slug(&s), s, "input {raw:?}");
        assert!(!s.starts_with('-') && !s.ends_with('-') && !s.contains("--"));
        assert!(s.chars().all(|c| c.is_ascii_lowercase() || c.is_ascii_digit() || c == '-'));
    }
    assert_eq!(slug("John-Smith"), slug("john  smith"));
}

#[test]
fn crlf_files_keep_their_frontmatter() {
    let lf = "---\nid: x\n---\n\nBody\n";
    let crlf = lf.replace('\n', "\r\n");
    let (yaml, body) = split(&crlf);
    assert_eq!(yaml, "id: x\r\n");
    assert_eq!(body, "Body");
    assert_eq!((yaml.replace("\r\n", "\n"), body), split(lf));
}

#[test]
fn any_body_is_stored_in_canonical_form() {
    let text = compose("id: x\n", "\n\r\n  indented first\nsecond  \n\n");
    let (yaml, body) = split(&text);
    assert_eq!(yaml, "id: x\n");
    assert_eq!(body, "  indented first\nsecond");
    assert_eq!(split(&compose(&yaml, &body)), (yaml.clone(), body.clone()));
}
