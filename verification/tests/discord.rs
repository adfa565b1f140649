use querykey_server::discord::DiscordBot;

#[test]
fn bot_is_never_started() {
    assert!(DiscordBot::try_start("", &[], 60).is_none());
    assert!(DiscordBot::try_start("token", &["1".to_string()], 60).is_none());
}
