//! The Discord bot. It is not implemented yet: with or without a token
//! the server continues without Discord, as it did when the bot was
//! optional.
use vstd::prelude::*;

verus! {

/// A running Discord bot.
pub struct DiscordBot;

impl DiscordBot {
    /// Starts the bot when a token is configured. No bot is implemented,
    /// so there is never one to return.
    pub fn try_start(token: &str, guilds: &[String], batch_interval: i64) -> (r: Option<DiscordBot>)
        ensures
            r is None,
    {
        None
    }

    /// Stops the bot.
    pub fn stop(&self) {
    }
}

} // verus!
