use querykey_server::config::{env_int, env_or, guild_ids, parse_i64, parse_token, Config, ConfigEnv};

fn chars(s: &str) -> Vec<char> {
    s.chars().collect()
}

#[test]
fn env_or_prefers_a_nonempty_value() {
    assert_eq!(env_or(Some("0.0.0.0"), "127.0.0.1"), "0.0.0.0");
    assert_eq!(env_or(Some(""), "127.0.0.1"), "127.0.0.1");
    assert_eq!(env_or(None, "main"), "main");
}

#[test]
fn env_int_parses_or_falls_back() {
    assert_eq!(env_int(Some("9000"), 8000), 9000);
    assert_eq!(env_int(Some("-15"), 60), -15);
    assert_eq!(env_int(Some("+15"), 60), 15);
    assert_eq!(env_int(Some("15min"), 60), 60);
    assert_eq!(env_int(Some(""), 60), 60);
    assert_eq!(env_int(None, 60), 60);
}

#[test]
fn i64_parsing_matches_str_parse() {
    for s in ["0", "-0", "+1", "9223372036854775807", "-9223372036854775808", "9223372036854775808",
        "-9223372036854775809", "", "-", "+", "1_000", " 1", "00012"] {
        assert_eq!(parse_i64(&chars(s)), s.parse::<i64>().ok(), "input {s:?}");
    }
}

#[test]
fn guild_ids_are_trimmed_and_blanks_dropped() {
    assert_eq!(guild_ids(" 123 , ,456,"), vec!["123".to_string(), "456".to_string()]);
    assert!(guild_ids("").is_empty());
}

#[test]
fn config_defaults_and_overrides() {
    let c = Config::from_env(&ConfigEnv::default());
    assert_eq!(c.host, "127.0.0.1");
    assert_eq!(c.port, 8000);
    assert_eq!(c.openclaw_gateway_url, "http://127.0.0.1:18789");
    assert_eq!(c.openclaw_agent_id, "main");
    assert_eq!(c.openclaw_token, "");
    assert_eq!(c.vault_dir, "./vault");
    assert_eq!(c.loca_db_path, "./querykey.sdb");
    assert!(c.discord_guild_ids.is_empty());
    assert_eq!(c.discord_batch_interval, 60);
    assert_eq!(c.log_level, "info");

    let env = ConfigEnv {
        sb_host: Some("0.0.0.0".into()),
        sb_port: Some("70000".into()), // truncated to 16 bits, as `as u16` does
        discord_guild_ids: Some("a,b".into()),
        discord_batch_interval: Some("x".into()),
        openclaw_gateway_token: Some("tok".into()),
        ..ConfigEnv::default()
    };
    let c = Config::from_env(&env);
    assert_eq!(c.host, "0.0.0.0");
    assert_eq!(c.port, 70000u32 as u16);
    assert_eq!(c.discord_guild_ids, vec!["a".to_string(), "b".to_string()]);
    assert_eq!(c.discord_batch_interval, 60);
    assert_eq!(c.openclaw_token, "tok");
}

#[test]
fn token_is_read_from_the_gateway_auth_path() {
    assert_eq!(parse_token(br#"{"gateway":{"auth":{"token":"tok-123"}}}"#), "tok-123");
    assert_eq!(parse_token(br#"{"gateway":{"auth":{}}}"#), "");
    assert_eq!(parse_token(br#"{"gateway":{"auth":{"token":7}}}"#), "");
    assert_eq!(parse_token(b"not json"), "");
}
