use querykey_server::calendar::UtcDateTime;
use querykey_server::card::{card_id, default_visibility, frontmatter, parse, render, Card, CardFm};

fn at(year: i32, month: u32, day: u32, hour: u32, minute: u32, second: u32) -> UtcDateTime {
    UtcDateTime { year, month, day, hour, minute, second, nano: 0 }
}
use querykey_server::vault::split;

fn fm_yaml(fm: &CardFm) -> String {
    let mut m = serde_yaml::Mapping::new();
    m.insert("id".into(), fm.id.clone().into());
    m.insert("handle".into(), fm.handle.clone().into());
    if !fm.website.is_empty() {
        m.insert("website".into(), fm.website.clone().into());
    }
    m.insert("updated".into(), fm.updated.clone().into());
    m.insert("visibility".into(), fm.visibility.clone().into());
    serde_yaml::to_string(&m).unwrap()
}

fn fm_decode(content: &str) -> Option<CardFm> {
    let (yaml, _) = split(content);
    let v: serde_yaml::Value = serde_yaml::from_str(&yaml).ok()?;
    let get = |k: &str| v.get(k).and_then(|x| x.as_str()).map(|s| s.to_string());
    Some(CardFm {
        id: get("id")?,
        handle: get("handle")?,
        website: get("website").unwrap_or_default(),
        updated: get("updated")?,
        visibility: get("visibility").unwrap_or_else(default_visibility),
    })
}

fn render_card(c: &Card) -> String {
    render(c, &fm_yaml(&frontmatter(c)))
}

fn parse_card(text: &str) -> Option<Card> {
    parse(text, fm_decode(text))
}

#[test]
fn card_round_trips_losslessly() {
    let c = Card {
        handle: "github:jsmith".into(),
        name: "Emma".into(),
        website: "https://emmaleonhart.com".into(),
        bio: "builds local-first tools; rationalist-adjacent.".into(),
        offering: vec![
            "Rust / embedded DB help (built a graph-vector-time DB)".into(),
            "Intros into the rationalist/EA Vancouver scene".into(),
        ],
        looking_for: vec![
            "Flutter desktop testers".into(),
            "A co-author for a NeurIPS-style writeup".into(),
        ],
        updated: at(2026, 5, 15, 22, 10, 0),
        visibility: "public".into(),
    };
    let text = render_card(&c);
    // The heading contract must be present and stable.
    assert!(text.contains("## Offering (key)"));
    assert!(text.contains("## Looking for (query)"));
    assert!(text.contains("id: card:jsmith"));

    let back = parse_card(&text).unwrap();
    assert_eq!(back, c);

    // Idempotent: render(parse(render(c))) == render(c).
    assert_eq!(render_card(&parse_card(&text).unwrap()), text);
}

#[test]
fn parse_tolerates_missing_bio_and_empty_lists() {
    let c = Card {
        handle: "github:nobody".into(),
        name: String::new(),
        website: String::new(),
        bio: String::new(),
        offering: vec![],
        looking_for: vec![],
        updated: at(2026, 5, 17, 9, 30, 15),
        visibility: "public".into(),
    };
    let back = parse_card(&render_card(&c)).unwrap();
    assert_eq!(back.handle, "github:nobody");
    // Name falls back to the handle in the heading on render.
    assert_eq!(back.name, "github:nobody");
    assert!(back.bio.is_empty());
    assert!(back.offering.is_empty());
    assert!(back.looking_for.is_empty());
}

#[test]
fn card_id_uses_the_local_part() {
    assert_eq!(card_id("github:jsmith"), "card:jsmith");
    assert_eq!(card_id("bare"), "card:bare");
    assert_eq!(default_visibility(), "public");
}

#[test]
fn body_parse_reads_quotes_headings_and_sections() {
    let text = "---\nid: card:x\n---\n\n# Ada - card\n> line one\n> line two\n- stray\n## OFFERING things\n- a\n## Misc\n- ignored\n## looking for\n- b\n";
    let fm = CardFm {
        id: "card:x".into(),
        handle: "github:x".into(),
        website: String::new(),
        updated: "2026-01-01T00:00:00+00:00".into(),
        visibility: "public".into(),
    };
    let c = parse(text, Some(fm)).unwrap();
    assert_eq!(c.name, "Ada");
    assert_eq!(c.bio, "line one line two");
    assert_eq!(c.offering, vec!["a".to_string()]);
    assert_eq!(c.looking_for, vec!["b".to_string()]);
    assert!(parse(text, None).is_none());
}

#[test]
fn card_timestamps_are_written_as_rfc3339_and_read_naive_as_utc() {
    let mut c = Card {
        handle: "github:ada".into(),
        name: "Ada".into(),
        website: String::new(),
        bio: String::new(),
        offering: vec![],
        looking_for: vec![],
        updated: at(2026, 5, 15, 22, 10, 0),
        visibility: "public".into(),
    };
    assert_eq!(frontmatter(&c).updated, "2026-05-15T22:10:00+00:00");
    let text = "---\nid: card:ada\n---\n\n# Ada — card\n";
    let fm = |u: &str| CardFm {
        id: "card:ada".into(),
        handle: "github:ada".into(),
        website: String::new(),
        updated: u.into(),
        visibility: "public".into(),
    };
    assert_eq!(parse(text, Some(fm("2026-05-15T22:10:00"))).unwrap().updated, c.updated);
    assert_eq!(parse(text, Some(fm("2026-05-16T00:10:00+02:00"))).unwrap().updated, c.updated);
    c.updated = at(1970, 1, 1, 0, 0, 0);
    assert_eq!(parse(text, Some(fm("yesterday"))).unwrap().updated, c.updated);
}
