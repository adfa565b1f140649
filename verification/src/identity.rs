//! Identity: a user is a canonical handle `scheme:localpart` that
//! currently resolves via GitHub. Call sites depend on the
//! `IdentityProvider` trait, never on the concrete provider. Pure local
//! normalization — no network calls.
use vstd::prelude::*;

use crate::text::{
    is_ascii_alnum, is_ws, run_end, run_start, starts_with, trim_end, trim_end_char, trim_start,
    trim_start_char, ws_end, ws_start, index_of, index_of_exec, lemma_index_of, concat_string, strip_prefix, strip_prefix_exec,
    to_chars, trim, trim_char, trim_char_exec, trim_of,
};

verus! {

/// `scheme:localpart`, e.g. `github:jsmith`: the single canonical
/// identifier of a user (cards, peers, refs).
#[derive(Debug, Clone, PartialEq, Eq, Hash)]
pub struct CanonicalHandle(pub String);

impl View for CanonicalHandle {
    type V = Seq<char>;

    open spec fn view(&self) -> Seq<char> {
        self.0@
    }
}

/// The scheme: the text before the first `:` (empty without one).
pub open spec fn scheme_of(h: Seq<char>) -> Seq<char> {
    match index_of(h, ':') {
        Some(i) => h.take(i),
        None => Seq::empty(),
    }
}

/// The local part: the text after the first `:` (all of it without one).
pub open spec fn localpart_of(h: Seq<char>) -> Seq<char> {
    match index_of(h, ':') {
        Some(i) => h.skip(i + 1),
        None => h,
    }
}

impl CanonicalHandle {
    pub fn as_str(&self) -> (s: &str)
        ensures
            s@ == self@,
    {
        self.0.as_str()
    }

    pub fn scheme(&self) -> (s: &str)
        ensures
            s@ == scheme_of(self@),
    {
        let v = to_chars(self.0.as_str());
        proof {
            lemma_index_of(v@, ':');
        }
        match index_of_exec(&v, ':') {
            Some(i) => {
                proof {
                    assert(index_of(v@, ':') == Some(i as int));
                    assert(i < v@.len());
                }
                self.0.as_str().substring_char(0, i)
            },
            None => self.0.as_str().substring_char(0, 0),
        }
    }

    pub fn localpart(&self) -> (s: &str)
        ensures
            s@ == localpart_of(self@),
    {
        let v = to_chars(self.0.as_str());
        let n = v.len();
        proof {
            lemma_index_of(v@, ':');
        }
        match index_of_exec(&v, ':') {
            Some(i) => {
                proof {
                    assert(index_of(v@, ':') == Some(i as int));
                }
                let from: usize = i + 1;
                self.0.as_str().substring_char(from, v.len())
            },
            None => {
                let s = self.0.as_str().substring_char(0, v.len());
                proof {
                    assert(v@.subrange(0, v@.len() as int) =~= v@);
                }
                s
            },
        }
    }
}

/// Pluggable identity backend (GitHub today; DID/Nostr later).
pub trait IdentityProvider {
    fn scheme(&self) -> &str;

    /// Normalizes raw user input to one canonical handle.
    fn normalize(&self, raw: &str) -> CanonicalHandle;

    /// Best-effort public profile URL, derived locally (no fetch).
    fn profile_url(&self, h: &CanonicalHandle) -> Option<String>;
}

/// GitHub bootstrap: username = handle.
pub struct GitHubIdentity;

/// The GitHub local part of raw input: trimmed, one known prefix
/// (profile URL, `github:` or `@`) removed, then `/` and whitespace
/// trimmed off both ends.
pub open spec fn github_local(raw: Seq<char>) -> Seq<char> {
    let r = trim(raw);
    let stripped = match strip_prefix(r, "https://github.com/"@) {
        Some(x) => x,
        None => match strip_prefix(r, "http://github.com/"@) {
            Some(x) => x,
            None => match strip_prefix(r, "github.com/"@) {
                Some(x) => x,
                None => match strip_prefix(r, "github:"@) {
                    Some(x) => x,
                    None => match strip_prefix(r, "@"@) {
                        Some(x) => x,
                        None => r,
                    },
                },
            },
        },
    };
    trim(trim_char(stripped, '/'))
}

/// The profile URL of a handle: GitHub handles with a local part only.
pub open spec fn github_profile_url(h: Seq<char>) -> Option<Seq<char>> {
    if scheme_of(h) == "github"@ && localpart_of(h).len() > 0 {
        Some("https://github.com/"@ + localpart_of(h))
    } else {
        None
    }
}

impl IdentityProvider for GitHubIdentity {
    fn scheme(&self) -> (s: &str)
        ensures
            s@ == "github"@,
    {
        "github"
    }

    fn normalize(&self, raw: &str) -> (h: CanonicalHandle)
        ensures
            h@ == "github:"@ + github_local(raw@),
    {
        let r = trim_of(&to_chars(raw));
        let p1 = to_chars("https://github.com/");
        let p2 = to_chars("http://github.com/");
        let p3 = to_chars("github.com/");
        let p4 = to_chars("github:");
        let p5 = to_chars("@");
        let stripped = match strip_prefix_exec(&r, &p1) {
            Some(x) => x,
            None => match strip_prefix_exec(&r, &p2) {
                Some(x) => x,
                None => match strip_prefix_exec(&r, &p3) {
                    Some(x) => x,
                    None => match strip_prefix_exec(&r, &p4) {
                        Some(x) => x,
                        None => match strip_prefix_exec(&r, &p5) {
                            Some(x) => x,
                            None => r,
                        },
                    },
                },
            },
        };
        let local = trim_of(&trim_char_exec(&stripped, '/'));
        let head = to_chars("github:");
        CanonicalHandle(concat_string(&head, &local))
    }

    fn profile_url(&self, h: &CanonicalHandle) -> (u: Option<String>)
        ensures
            u matches Some(s) ==> github_profile_url(h@) == Some(s@),
            u is None ==> github_profile_url(h@) is None,
    {
        let scheme = to_chars(h.scheme());
        let local = to_chars(h.localpart());
        let github = to_chars("github");
        if crate::text::same(&scheme, &github) && local.len() > 0 {
            let head = to_chars("https://github.com/");
            Some(concat_string(&head, &local))
        } else {
            None
        }
    }
}

/// The provider call sites use — the only place that names GitHub.
pub fn default_provider() -> (p: GitHubIdentity) {
    GitHubIdentity
}


/// A handle's own text normalizes back to the same handle whenever its
/// local part does not start or end with `/` (a local part written as
/// `/ x /` loses those slashes on the second pass).
pub proof fn lemma_normalize_canonical(raw: Seq<char>)
    requires
        trim_char(github_local(raw), '/') == github_local(raw),
    ensures
        github_local("github:"@ + github_local(raw)) == github_local(raw),
{
    reveal_strlit("github:");
    reveal_strlit("https://github.com/");
    reveal_strlit("http://github.com/");
    reveal_strlit("github.com/");
    reveal_strlit("@");
    let l = github_local(raw);
    let h = "github:"@ + l;
    crate::text::lemma_trim_idempotent(trim_char(
        match strip_prefix(trim(raw), "https://github.com/"@) {
            Some(x) => x,
            None => match strip_prefix(trim(raw), "http://github.com/"@) {
                Some(x) => x,
                None => match strip_prefix(trim(raw), "github.com/"@) {
                    Some(x) => x,
                    None => match strip_prefix(trim(raw), "github:"@) {
                        Some(x) => x,
                        None => match strip_prefix(trim(raw), "@"@) {
                            Some(x) => x,
                            None => trim(raw),
                        },
                    },
                },
            },
        },
        '/',
    ));
    assert(trim(l) == l);
    // `h` is already trimmed.
    if l.len() > 0 {
        crate::text::lemma_trim_fixed(l);
        assert(h.last() == l.last());
    }
    assert(!crate::text::is_ws(h[0]));
    assert(!crate::text::is_ws(h.last()));
    crate::text::lemma_ws_end_bounds(h, 0);
    assert(crate::text::ws_end(h, 0) == 0);
    assert(crate::text::trim_start(h) =~= h);
    crate::text::lemma_trim_end_plain(h);
    assert(trim(h) == h);
    // Only the `github:` prefix applies.
    assert(h[0] == 'g');
    if h.len() >= 19 {
        assert(h.take(19)[0] != "https://github.com/"@[0]);
    }
    if h.len() >= 18 {
        assert(h.take(18)[0] != "http://github.com/"@[0]);
    }
    if h.len() >= 11 {
        assert(h.take(11)[6] != "github.com/"@[6]);
    }
    assert(h.take(7) =~= "github:"@);
    assert(h.skip(7) =~= l);
}

/// A GitHub user name: ASCII letters, digits and `-`, not empty.
pub open spec fn github_name(u: Seq<char>) -> bool {
    u.len() > 0 && forall|i: int| 0 <= i < u.len() ==> is_ascii_alnum(#[trigger] u[i]) || u[i] == '-'
}

/// A name, alone or with one `/` after it, reads back as the name once
/// slashes and whitespace are trimmed off.
proof fn lemma_name_local(u: Seq<char>, x: Seq<char>)
    requires
        github_name(u),
        x == u || x == u.push('/'),
    ensures
        trim(u) == u,
        trim(trim_char(x, '/')) == u,
{
    let n = u.len() as int;
    assert(!is_ws(u[0]) && u[0] != '/');
    assert(!is_ws(u[n - 1]) && u[n - 1] != '/');
    assert(ws_end(u, 0) == 0);
    assert(trim_start(u) =~= u);
    assert(ws_start(u, n) == n);
    assert(trim_end(u) =~= u);
    assert(run_end(x, '/', 0) == 0);
    assert(trim_start_char(x, '/') =~= x);
    if x == u {
        assert(run_start(x, '/', n) == n);
    } else {
        assert(x[n] == '/' && x[n - 1] == u[n - 1]);
        assert(run_start(x, '/', n) == n);
        assert(run_start(x, '/', n + 1) == n);
    }
    assert(trim_end_char(x, '/') =~= u);
}

/// Text that starts and ends with a name character is its own `trim`.
proof fn lemma_trim_framed(f: Seq<char>)
    requires
        f.len() > 0,
        !is_ws(f[0]),
        !is_ws(f.last()),
    ensures
        trim(f) == f,
{
    assert(ws_end(f, 0) == 0);
    assert(trim_start(f) =~= f);
    assert(ws_start(f, f.len() as int) == f.len());
    assert(trim_end(f) =~= f);
}

/// Every way of writing a GitHub user name `u` (the bare name, `@u`,
/// `github:u`, the profile URL over https or http, `github.com/u/`, or
/// the name with spaces round it) normalizes to `github:u`; every handle
/// has the scheme `github`; and normalizing that handle's text gives it
/// back.
pub proof fn lemma_normalize_forms(u: Seq<char>)
    requires
        github_name(u),
    ensures
        github_local(u) == u,
        github_local("@"@ + u) == u,
        github_local("github:"@ + u) == u,
        github_local("https://github.com/"@ + u) == u,
        github_local("http://github.com/"@ + u) == u,
        github_local("github.com/"@ + u + "/"@) == u,
        github_local(" "@ + u + " "@) == u,
        github_local("github:"@ + github_local(u)) == github_local(u),
{
    reveal_strlit("github:");
    reveal_strlit("https://github.com/");
    reveal_strlit("http://github.com/");
    reveal_strlit("github.com/");
    reveal_strlit("@");
    reveal_strlit("/");
    reveal_strlit(" ");
    let n = u.len() as int;
    lemma_name_local(u, u);
    lemma_name_local(u, u.push('/'));
    assert(!is_ws(u[0]) && !is_ws(u[n - 1]));
    // The bare name matches no prefix: each holds a character no name has.
    let pa = "https://github.com/"@;
    let pb = "http://github.com/"@;
    let pc = "github.com/"@;
    let pd = "github:"@;
    let pe = "@"@;
    assert(!starts_with(u, pa)) by {
        if starts_with(u, pa) {
            assert(u.take(19)[5] == u[5]);
        }
    }
    assert(!starts_with(u, pb)) by {
        if starts_with(u, pb) {
            assert(u.take(18)[4] == u[4]);
        }
    }
    assert(!starts_with(u, pc)) by {
        if starts_with(u, pc) {
            assert(u.take(11)[6] == u[6]);
        }
    }
    assert(!starts_with(u, pd)) by {
        if starts_with(u, pd) {
            assert(u.take(7)[6] == u[6]);
        }
    }
    assert(!starts_with(u, pe)) by {
        if starts_with(u, pe) {
            assert(u.take(1)[0] == u[0]);
        }
    }
    assert(github_local(u) == u);
    // `@u`.
    let f = pe + u;
    lemma_trim_framed(f);
    assert(f.len() >= 19 ==> f.take(19)[0] == '@');
    assert(f.len() >= 18 ==> f.take(18)[0] == '@');
    assert(f.len() >= 11 ==> f.take(11)[0] == '@');
    assert(f.len() >= 7 ==> f.take(7)[0] == '@');
    assert(f.take(1) =~= pe);
    assert(f.skip(1) =~= u);
    assert(github_local(f) == u);
    // `github:u`.
    let f = pd + u;
    lemma_trim_framed(f);
    assert(f.len() >= 19 ==> f.take(19)[0] == 'g');
    assert(f.len() >= 18 ==> f.take(18)[0] == 'g');
    assert(f.len() >= 11 ==> f.take(11)[6] == ':');
    assert(f.take(7) =~= pd);
    assert(f.skip(7) =~= u);
    assert(github_local(f) == u);
    // The https profile URL.
    let f = pa + u;
    lemma_trim_framed(f);
    assert(f.take(19) =~= pa);
    assert(f.skip(19) =~= u);
    assert(github_local(f) == u);
    // The http profile URL.
    let f = pb + u;
    lemma_trim_framed(f);
    assert(f.take(19)[4] == ':');
    assert(f.take(18) =~= pb);
    assert(f.skip(18) =~= u);
    assert(github_local(f) == u);
    // `github.com/u/`.
    let f = pc + u + "/"@;
    lemma_trim_framed(f);
    assert(f.len() >= 19 ==> f.take(19)[0] == 'g');
    assert(f.len() >= 18 ==> f.take(18)[0] == 'g');
    assert(f.take(11) =~= pc);
    assert(f.skip(11) =~= u.push('/'));
    assert(github_local(f) == u);
    // ` u `.
    let f = " "@ + u + " "@;
    assert(ws_end(f, 1) == 1);
    assert(ws_end(f, 0) == 1);
    let t = f.skip(1);
    assert(t =~= u.push(' '));
    assert(ws_start(t, n) == n);
    assert(ws_start(t, n + 1) == n);
    assert(trim(f) =~= u);
    assert(github_local(f) == u);
    // Normalizing the handle's text again.
    lemma_normalize_canonical(u);
}

/// Every normalized handle has the scheme `github` and the normalized
/// local part.
pub proof fn lemma_normalized_parts(raw: Seq<char>)
    ensures
        scheme_of("github:"@ + github_local(raw)) == "github"@,
        localpart_of("github:"@ + github_local(raw)) == github_local(raw),
{
    reveal_strlit("github:");
    reveal_strlit("github");
    let h = "github:"@ + github_local(raw);
    lemma_index_of(h, ':');
    assert(h[6] == ':');
    if let Some(i) = index_of(h, ':') {
        if i < 6 {
            assert(h[i] == "github:"@[i]);
        }
    }
    assert(h.take(6) =~= "github"@);
    assert(h.skip(7) =~= github_local(raw));
}
} // verus!
