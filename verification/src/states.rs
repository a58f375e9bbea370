//! The states of the hand lifecycle.

use vstd::prelude::*;

verus! {

/// Where the hand stands: waiting for a move, sweeping fronts into the
/// pooled pot, dealing community cards, revealing hands, paying out, or
/// settling up before the next hand.
#[derive(Debug, Clone, Copy, PartialEq, Eq, Hash, Structural)]
pub enum HandoutState {
    /// A player is to act.
    ExpectingMove,
    /// The round closed; sweep every front into the pooled pot.
    ExpectingPool,
    /// Deal the flop, turn or river.
    ExpectingDeal,
    /// Turn the remaining opponents' hole cards face up.
    ExpectingShowdown,
    /// The showdown is on display; pay out next.
    ShowdownMade,
    /// Award the pot to the winners.
    ExpectingWinningsAttribution,
    /// The hand is over; settle chips and start the next one.
    HandoutEnded,
}

/// Whether the lifecycle driver is running or paused.
#[derive(Debug, Clone, Copy, PartialEq, Eq, Hash, Structural)]
pub enum PausedState {
    /// The driver holds every transition.
    Paused,
    /// The driver advances the hand.
    Running,
}

} // verus!
