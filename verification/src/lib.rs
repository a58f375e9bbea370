//! A 6-seat no-limit hold'em hand engine: the card and deck model, a
//! bit-parallel 5-to-7-card hand evaluator, a comparator for showdowns, a
//! betting engine that tracks turn order and round closure, and the hand
//! lifecycle that drives a table from blinds through showdown and payout.

pub mod betting;
pub mod card;
pub mod compare_hands;
pub mod components;
pub mod deck;
pub mod hand_evaluation;
pub mod setup;
pub mod states;
pub mod update;
