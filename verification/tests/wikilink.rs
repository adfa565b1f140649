use querykey_server::wikilink::{parse, WikiLink};

fn one(s: &str) -> WikiLink {
    let v = parse(s);
    assert_eq!(v.len(), 1, "expected exactly one link in {s:?}: {v:?}");
    v.into_iter().next().unwrap()
}

#[test]
fn plain_link_is_untyped() {
    let l = one("met [[John Smith]] at the gym");
    assert_eq!(l.property, None);
    assert_eq!(l.target, "John Smith");
}

#[test]
fn property_link_is_a_typed_triple() {
    let l = one("works at [[employer:Acme Corp]] now");
    assert_eq!(l.property.as_deref(), Some("employer"));
    assert_eq!(l.target, "Acme Corp");
}

#[test]
fn obsidian_alias_is_display_only() {
    let l = one("see [[john-smith|John]]");
    assert_eq!(l.property, None);
    assert_eq!(l.target, "john-smith");

    let l = one("[[knows:john-smith|John S.]]");
    assert_eq!(l.property.as_deref(), Some("knows"));
    assert_eq!(l.target, "john-smith");
}

#[test]
fn urls_are_not_predicates() {
    let l = one("[[https://example.com]]");
    assert_eq!(l.property, None);
    assert_eq!(l.target, "https://example.com");
}

#[test]
fn forgives_accidental_double_colon() {
    let l = one("[[knows::John]]");
    assert_eq!(l.property.as_deref(), Some("knows"));
    assert_eq!(l.target, "John");
}

#[test]
fn multiple_and_empty() {
    let v = parse("[[a]] noise [[rel:b]] and [[]] and [[ | x]]");
    assert_eq!(
        v,
        vec![
            WikiLink { property: None, target: "a".into() },
            WikiLink { property: Some("rel".into()), target: "b".into() },
        ]
    );
}

#[test]
fn uppercase_or_spaced_prefix_is_not_a_predicate() {
    let l = one("[[See: the appendix]]");
    assert_eq!(l.property, None);
    assert_eq!(l.target, "See: the appendix");
}

#[test]
fn unterminated_link_ends_the_scan() {
    let v = parse("[[a]] then [[never closed");
    assert_eq!(v, vec![WikiLink { property: None, target: "a".into() }]);
}

#[test]
fn property_token_may_hold_digits_dash_underscore() {
    let l = one("[[co-author_2:Ada]]");
    assert_eq!(l.property.as_deref(), Some("co-author_2"));
    assert_eq!(l.target, "Ada");
    // A predicate needs a target.
    let l = one("[[knows:]]");
    assert_eq!(l.property, None);
    assert_eq!(l.target, "knows:");
}

#[test]
fn no_links_in_plain_text() {
    assert!(parse("nothing [here] at all").is_empty());
    assert!(parse("").is_empty());
}

#[test]
fn parsed_links_are_well_formed() {
    let body = "[[Ada]] [[employer:Acme]] [[Mailto:x]] [[http:y]] [[a_b-1:z]] [[:q]] [[r:]] [[ ]] [[p::T|alias]]";
    for l in parse(body) {
        assert!(!l.target.is_empty());
        if let Some(p) = &l.property {
            assert!(p.chars().next().unwrap().is_ascii_lowercase());
            assert!(p.chars().all(|c| c.is_ascii_lowercase() || c.is_ascii_digit() || c == '_' || c == '-'));
            assert!(!["http", "https", "ftp", "mailto", "file", "data", "tel"].contains(&p.as_str()));
        }
    }
}
