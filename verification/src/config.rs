//! Server configuration: environment values with defaults, the Discord
//! guild list, and the gateway token from the OpenClaw config file.
//! Looking the variables up and reading the file is the caller's part.
use vstd::prelude::*;

use crate::calendar::{all_digits, digits_value, lemma_digits_value_nonneg};
use crate::text::{
    is_ascii_digit, split_char, split_char_exec, string_of, to_chars, trim, trim_of, views,
};

verus! {

/// The server's settings.
#[derive(Debug, Clone)]
pub struct Config {
    pub host: String,
    pub port: u16,
    pub openclaw_gateway_url: String,
    pub openclaw_agent_id: String,
    pub openclaw_token: String,
    pub vault_dir: String,
    pub loca_db_path: String,
    pub discord_token: String,
    pub discord_guild_ids: Vec<String>,
    /// Minutes between Discord batch runs.
    pub discord_batch_interval: i64,
    pub log_level: String,
}

/// The environment variables the configuration reads (`None` when
/// unset).
#[derive(Debug, Clone, Default)]
pub struct ConfigEnv {
    pub sb_host: Option<String>,
    pub sb_port: Option<String>,
    pub openclaw_gateway_url: Option<String>,
    pub openclaw_agent_id: Option<String>,
    pub openclaw_gateway_token: Option<String>,
    pub vault_dir: Option<String>,
    pub loca_db_path: Option<String>,
    pub discord_token: Option<String>,
    pub discord_guild_ids: Option<String>,
    pub discord_batch_interval: Option<String>,
    pub sb_log_level: Option<String>,
}

pub open spec fn opt_text(v: Option<String>) -> Option<Seq<char>> {
    match v {
        Some(s) => Some(s@),
        None => None,
    }
}

/// A variable's value when it is set and not empty, else the fallback.
pub open spec fn value_or(v: Option<Seq<char>>, fallback: Seq<char>) -> Seq<char> {
    match v {
        Some(s) => if s.len() > 0 {
            s
        } else {
            fallback
        },
        None => fallback,
    }
}

pub fn env_or(value: Option<&str>, fallback: &str) -> (r: String)
    ensures
        r@ == value_or(
            match value {
                Some(s) => Some(s@),
                None => None,
            },
            fallback@,
        ),
{
    match value {
        Some(v) => {
            if v.unicode_len() > 0 {
                string_of(&to_chars(v))
            } else {
                string_of(&to_chars(fallback))
            }
        },
        None => string_of(&to_chars(fallback)),
    }
}

/// `str::parse::<i64>`: an optional sign, then one or more ASCII digits
/// whose signed value fits in 64 bits.
pub open spec fn i64_text(s: Seq<char>) -> Option<i64> {
    let neg = s.len() > 0 && s[0] == '-';
    let d = if s.len() > 0 && (s[0] == '+' || s[0] == '-') {
        s.skip(1)
    } else {
        s
    };
    let v = if neg {
        -digits_value(d)
    } else {
        digits_value(d)
    };
    if d.len() > 0 && all_digits(d) && i64::MIN <= v <= i64::MAX {
        Some(v as i64)
    } else {
        None
    }
}

/// Parses an `i64` as `str::parse` does.
pub fn parse_i64(v: &Vec<char>) -> (r: Option<i64>)
    ensures
        r == i64_text(v@),
{
    let neg = v.len() > 0 && v[0] == '-';
    let start: usize = if v.len() > 0 && (v[0] == '+' || v[0] == '-') {
        1
    } else {
        0
    };
    let ghost d = if v@.len() > 0 && (v@[0] == '+' || v@[0] == '-') {
        v@.skip(1)
    } else {
        v@
    };
    if start >= v.len() {
        return None;
    }
    let mut acc: u128 = 0;
    let mut over = false;
    let mut i: usize = start;
    while i < v.len()
        invariant
            start <= i <= v.len(),
            d =~= v@.skip(start as int),
            d == (if v@.len() > 0 && (v@[0] == '+' || v@[0] == '-') {
                v@.skip(1)
            } else {
                v@
            }),
            all_digits(v@.subrange(start as int, i as int)),
            !over ==> acc == digits_value(v@.subrange(start as int, i as int)),
            !over ==> acc <= 0x8000_0000_0000_0000,
            over ==> digits_value(v@.subrange(start as int, i as int)) > 0x8000_0000_0000_0000,
        decreases v.len() - i,
    {
        let c = v[i];
        let ghost pre = v@.subrange(start as int, i as int);
        let ghost next = v@.subrange(start as int, i + 1);
        proof {
            assert(next.drop_last() =~= pre);
            assert(next.last() == c);
        }
        if !('0' <= c && c <= '9') {
            proof {
                assert(d[i - start] == c);
                assert(!is_ascii_digit(d[i - start]));
                assert(!all_digits(d));
            }
            return None;
        }
        proof {
            assert(all_digits(next)) by {
                assert forall|k: int| 0 <= k < next.len() implies is_ascii_digit(#[trigger] next[k]) by {
                    if k < pre.len() {
                        assert(next[k] == pre[k]);
                    }
                }
            }
            lemma_digits_value_nonneg(pre);
        }
        if !over {
            let dig: u128 = (c as u32 - '0' as u32) as u128;
            acc = acc * 10 + dig;
            if acc > 0x8000_0000_0000_0000u128 {
                over = true;
            }
        }
        i += 1;
    }
    proof {
        assert(v@.subrange(start as int, v.len() as int) =~= d);
    }
    if over {
        None
    } else if neg {
        if acc <= 0x8000_0000_0000_0000u128 {
            if acc == 0x8000_0000_0000_0000u128 {
                Some(i64::MIN)
            } else {
                Some(-(acc as i64))
            }
        } else {
            None
        }
    } else if acc <= 0x7FFF_FFFF_FFFF_FFFFu128 {
        Some(acc as i64)
    } else {
        None
    }
}

/// A variable parsed as `i64`, or the fallback when unset or not a
/// number.
pub open spec fn int_or(v: Option<Seq<char>>, fallback: i64) -> i64 {
    match v {
        Some(s) => match i64_text(s) {
            Some(n) => n,
            None => fallback,
        },
        None => fallback,
    }
}

pub fn env_int(value: Option<&str>, fallback: i64) -> (r: i64)
    ensures
        r == int_or(
            match value {
                Some(s) => Some(s@),
                None => None,
            },
            fallback,
        ),
{
    match value {
        Some(v) => match parse_i64(&to_chars(v)) {
            Some(n) => n,
            None => fallback,
        },
        None => fallback,
    }
}

/// The comma-separated guild ids, trimmed, blanks dropped.
pub open spec fn guild_list(s: Seq<char>) -> Seq<Seq<char>> {
    split_char(s, ',').map_values(|g: Seq<char>| trim(g)).filter(|g: Seq<char>| g.len() > 0)
}

pub fn guild_ids(list: &str) -> (r: Vec<String>)
    ensures
        r@.map_values(|g: String| g@) == guild_list(list@),
{
    let parts = split_char_exec(&to_chars(list), ',');
    let ghost ps = views(parts@);
    let ghost trimmed = ps.map_values(|g: Seq<char>| trim(g));
    let mut out: Vec<String> = Vec::new();
    let mut i: usize = 0;
    while i < parts.len()
        invariant
            i <= parts.len(),
            ps == views(parts@),
            trimmed == ps.map_values(|g: Seq<char>| trim(g)),
            out@.map_values(|g: String| g@) == trimmed.take(i as int).filter(
                |g: Seq<char>| g.len() > 0,
            ),
        decreases parts.len() - i,
    {
        let g = trim_of(&parts[i]);
        let ghost before = out@;
        proof {
            assert(trimmed.take(i + 1).drop_last() =~= trimmed.take(i as int));
            assert(trimmed.take(i + 1).last() == g@);
            reveal(Seq::filter);
        }
        if g.len() > 0 {
            let s = string_of(&g);
            out.push(s);
            proof {
                assert(out@.map_values(|x: String| x@) =~= before.map_values(|x: String| x@).push(
                    s@,
                ));
            }
        }
        i += 1;
    }
    proof {
        assert(trimmed.take(parts.len() as int) =~= trimmed);
    }
    out
}


fn text_or(v: &Option<String>, fallback: &str) -> (r: String)
    ensures
        r@ == value_or(opt_text(*v), fallback@),
{
    match v {
        Some(s) => env_or(Some(s.as_str()), fallback),
        None => env_or(None, fallback),
    }
}

fn int_from(v: &Option<String>, fallback: i64) -> (r: i64)
    ensures
        r == int_or(opt_text(*v), fallback),
{
    match v {
        Some(s) => env_int(Some(s.as_str()), fallback),
        None => env_int(None, fallback),
    }
}

fn text_or_empty(v: &Option<String>) -> (r: String)
    ensures
        r@ == match opt_text(*v) {
            Some(s) => s,
            None => Seq::empty(),
        },
{
    match v {
        Some(s) => string_of(&to_chars(s.as_str())),
        None => String::new(),
    }
}

impl Config {
    /// The configuration for the given environment values, with the
    /// defaults of the server. The gateway token stays empty when unset
    /// (the caller then reads it from the OpenClaw config).
    pub fn from_env(env: &ConfigEnv) -> (c: Config)
        ensures
            c.host@ == value_or(opt_text(env.sb_host), "127.0.0.1"@),
            c.port == (int_or(opt_text(env.sb_port), 8000) as u16),
            c.openclaw_gateway_url@ == value_or(
                opt_text(env.openclaw_gateway_url),
                "http://127.0.0.1:18789"@,
            ),
            c.openclaw_agent_id@ == value_or(opt_text(env.openclaw_agent_id), "main"@),
            c.openclaw_token@ == match opt_text(env.openclaw_gateway_token) {
                Some(s) => s,
                None => Seq::empty(),
            },
            c.vault_dir@ == value_or(opt_text(env.vault_dir), "./vault"@),
            c.loca_db_path@ == value_or(opt_text(env.loca_db_path), "./querykey.sdb"@),
            c.discord_token@ == match opt_text(env.discord_token) {
                Some(s) => s,
                None => Seq::empty(),
            },
            c.discord_guild_ids@.map_values(|g: String| g@) == match opt_text(
                env.discord_guild_ids,
            ) {
                Some(l) => guild_list(l),
                None => Seq::empty(),
            },
            c.discord_batch_interval == int_or(opt_text(env.discord_batch_interval), 60),
            c.log_level@ == value_or(opt_text(env.sb_log_level), "info"@),
    {
        let guilds = match &env.discord_guild_ids {
            Some(l) => guild_ids(l.as_str()),
            None => {
                let v: Vec<String> = Vec::new();
                proof {
                    assert(v@.map_values(|g: String| g@) =~= Seq::<Seq<char>>::empty());
                }
                v
            },
        };
        let port: i64 = int_from(&env.sb_port, 8000);
        Config {
            host: text_or(&env.sb_host, "127.0.0.1"),
            port: port as u16,
            openclaw_gateway_url: text_or(&env.openclaw_gateway_url, "http://127.0.0.1:18789"),
            openclaw_agent_id: text_or(&env.openclaw_agent_id, "main"),
            openclaw_token: text_or_empty(&env.openclaw_gateway_token),
            vault_dir: text_or(&env.vault_dir, "./vault"),
            loca_db_path: text_or(&env.loca_db_path, "./querykey.sdb"),
            discord_token: text_or_empty(&env.discord_token),
            discord_guild_ids: guilds,
            discord_batch_interval: int_from(&env.discord_batch_interval, 60),
            log_level: text_or(&env.sb_log_level, "info"),
        }
    }
}

/// The string at `gateway.auth.token` of a JSON document, as serde_json
/// reads it (`None` when the bytes are not JSON or hold no such
/// string).
pub uninterp spec fn gateway_token(data: Seq<u8>) -> Option<Seq<char>>;

/// serde_json's `from_slice::<Value>`, then `gateway.auth.token` as a
/// string. The result is named (`gateway_token`), not stated.
#[verifier::external_body]
fn json_gateway_token(data: &[u8]) -> (r: Option<String>)
    ensures
        opt_text(r) == gateway_token(data@),
{
    let v: serde_json::Value = serde_json::from_slice(data).ok()?;
    v.get("gateway")?.get("auth")?.get("token")?.as_str().map(|s| s.to_string())
}

/// The token found in the config file, or empty.
pub fn token_or_empty(t: Option<String>) -> (r: String)
    ensures
        r@ == match opt_text(t) {
            Some(s) => s,
            None => Seq::empty(),
        },
{
    match t {
        Some(s) => s,
        None => String::new(),
    }
}

/// The gateway token of an OpenClaw config file (`~/.openclaw/openclaw.json`),
/// or empty when it holds none.
pub fn parse_token(data: &[u8]) -> (r: String)
    ensures
        r@ == match gateway_token(data@) {
            Some(s) => s,
            None => Seq::empty(),
        },
{
    token_or_empty(json_gateway_token(data))
}

} // verus!
