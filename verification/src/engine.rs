//! The decisions of the bot's main loop: which events it acts on in each
//! mode, and how the mode changes after a trade. One token is held at a
//! time: while `Sniffing` the bot only buys, while `Holding` it only sells.

use crate::state::{Mode, SnifferCandidate};
use vstd::prelude::*;

verus! {

/// An event the main loop receives.
#[derive(Debug)]
pub enum EngineInput {
    /// The sniffer reported a new token.
    Candidate(SnifferCandidate),
    /// The operator asked to sell part of the held token.
    SellRequested,
}

/// What the main loop does with an event.
#[derive(Debug)]
pub enum EngineAction {
    /// Buy the candidate token.
    Buy(SnifferCandidate),
    /// Sell part of the held token.
    Sell,
    /// Drop the event.
    Ignore,
}

/// How a trade ended.
#[derive(Debug, Clone, Copy, PartialEq, Eq, Structural)]
pub enum TradeOutcome {
    /// The buy was confirmed.
    BuyConfirmed,
    /// The buy failed.
    BuyFailed,
    /// The sell was confirmed; `fully_sold` when what remains of the token
    /// is below the dust threshold.
    SellConfirmed { fully_sold: bool },
    /// The sell failed.
    SellFailed,
}

/// What the main loop does with `input` in `mode`.
pub open spec fn action_for(mode: Mode, input: EngineInput) -> EngineAction {
    match (mode, input) {
        (Mode::Sniffing, EngineInput::Candidate(c)) => EngineAction::Buy(c),
        (Mode::Holding, EngineInput::SellRequested) => EngineAction::Sell,
        _ => EngineAction::Ignore,
    }
}

/// Decides what to do with an event: while sniffing, a candidate is
/// bought and sell requests are ignored; while holding, a sell request is
/// carried out and candidates are ignored.
pub fn decide(mode: Mode, input: EngineInput) -> (action: EngineAction)
    ensures
        action == action_for(mode, input),
{
    match (mode, input) {
        (Mode::Sniffing, EngineInput::Candidate(c)) => EngineAction::Buy(c),
        (Mode::Holding, EngineInput::SellRequested) => EngineAction::Sell,
        _ => EngineAction::Ignore,
    }
}

/// The mode after a trade ends in `mode`.
pub open spec fn mode_after(mode: Mode, outcome: TradeOutcome) -> Mode {
    match outcome {
        TradeOutcome::BuyConfirmed => Mode::Holding,
        TradeOutcome::SellConfirmed { fully_sold } => if fully_sold {
            Mode::Sniffing
        } else {
            mode
        },
        _ => mode,
    }
}

/// The mode after a trade: a confirmed buy starts holding; a confirmed
/// sell that leaves only dust returns to sniffing; anything else keeps the
/// mode.
pub fn next_mode(mode: Mode, outcome: TradeOutcome) -> (next: Mode)
    ensures
        next == mode_after(mode, outcome),
{
    match outcome {
        TradeOutcome::BuyConfirmed => Mode::Holding,
        TradeOutcome::SellConfirmed { fully_sold } => if fully_sold {
            Mode::Sniffing
        } else {
            mode
        },
        _ => mode,
    }
}

/// One token at a time: no event makes the bot buy while it holds a
/// token, or sell while it holds none.
pub proof fn law_one_token_at_a_time(mode: Mode, input: EngineInput)
    ensures
        mode == Mode::Holding ==> !(action_for(mode, input) is Buy),
        mode == Mode::Sniffing ==> !(action_for(mode, input) is Sell),
{
}

/// Holding ends only through a confirmed sell that leaves dust, and a
/// failed trade never changes the mode.
pub proof fn law_holding_ends_only_when_sold(mode: Mode, outcome: TradeOutcome)
    ensures
        mode == Mode::Holding && mode_after(mode, outcome) == Mode::Sniffing ==> outcome
            == (TradeOutcome::SellConfirmed { fully_sold: true }),
        outcome == TradeOutcome::BuyFailed || outcome == TradeOutcome::SellFailed ==> mode_after(
            mode,
            outcome,
        ) == mode,
{
}

} // verus!
