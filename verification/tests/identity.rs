use querykey_server::identity::{default_provider, CanonicalHandle, IdentityProvider};

#[test]
fn normalizes_every_input_form_to_one_handle() {
    let p = default_provider();
    for raw in [
        "jsmith",
        "github:jsmith",
        "@jsmith",
        "https://github.com/jsmith",
        "github.com/jsmith/",
        "  jsmith  ",
    ] {
        let h = p.normalize(raw);
        assert_eq!(h.as_str(), "github:jsmith", "input: {raw:?}");
        assert_eq!(h.scheme(), "github");
        assert_eq!(h.localpart(), "jsmith");
    }
}

#[test]
fn profile_url_is_local_only() {
    let p = default_provider();
    let h = p.normalize("jsmith");
    assert_eq!(p.profile_url(&h).as_deref(), Some("https://github.com/jsmith"));
    // Unknown scheme → no URL (don't guess).
    let other = CanonicalHandle("did:example:123".into());
    assert_eq!(p.profile_url(&other), None);
    assert_eq!(other.scheme(), "did");
}

#[test]
fn handle_parts_without_a_scheme() {
    let h = CanonicalHandle("plain".into());
    assert_eq!(h.scheme(), "");
    assert_eq!(h.localpart(), "plain");
    let h = CanonicalHandle("did:example:123".into());
    assert_eq!(h.localpart(), "example:123");
}

#[test]
fn normalize_http_and_empty() {
    let p = default_provider();
    assert_eq!(p.normalize("http://github.com/ada/").as_str(), "github:ada");
    let empty = p.normalize("   ");
    assert_eq!(empty.as_str(), "github:");
    assert_eq!(p.profile_url(&empty), None);
    assert_eq!(p.scheme(), "github");
}

#[test]
fn normalizing_a_handle_gives_it_back() {
    let p = default_provider();
    for raw in ["jsmith", "@jsmith", "https://github.com/jsmith/", "  github:jsmith ", ""] {
        let h = p.normalize(raw);
        assert_eq!(p.normalize(h.as_str()), h, "input {raw:?}");
    }
    // A local part that keeps a slash after trimming is not stable.
    let h = p.normalize("@ /jsmith/");
    assert_eq!(h.as_str(), "github:/jsmith");
    assert_eq!(p.normalize(h.as_str()).as_str(), "github:jsmith");
}
