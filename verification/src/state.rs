//! The bot's operational mode and the candidates the sniffer reports.

use vstd::prelude::*;

verus! {

/// The current operational mode of the bot.
#[derive(Debug, Clone, Copy, PartialEq, Eq, Structural)]
pub enum Mode {
    /// Listening for new token creation events.
    Sniffing,
    /// Currently holding a token and monitoring for sell opportunities.
    Holding,
}

/// A candidate token detected by the sniffer.
#[derive(Debug, Clone)]
pub struct SnifferCandidate {
    /// The mint address of the new token.
    pub mint: String,
    /// The creator address of the token.
    pub creator: String,
    /// The program ID that created the token.
    pub program_id: String,
}

} // verus!
