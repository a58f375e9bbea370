//! The table model: six seats, the board, the pot and the street.

use vstd::prelude::*;

use crate::betting::{position_perm, Player};
use crate::card::{Card, UNDEFINED_CARD};
use crate::states::HandoutState;

verus! {

/// One seat at the table.
#[derive(Debug, Clone, Copy)]
pub struct Seat {
    /// Display name; the engine never reads it.
    pub name: &'static str,
    /// Chips held outside the table.
    pub bankroll: u32,
    /// Chips in front of the seat, committable this hand.
    pub stack: u32,
    /// Chips pushed forward this round; between payout and the next hand it
    /// holds the seat's winnings.
    pub moved_chips: u32,
    /// The two hole cards; undefined until dealt.
    pub hole_cards: [Card; 2],
    /// 0 big blind, 1 small blind, 2 button, 3..5 earlier positions.
    pub preflop_position: u8,
    /// Still contesting the pot this hand.
    pub is_active: bool,
    /// It is this seat's turn.
    pub in_action: bool,
    /// The one human seat.
    pub is_hero: bool,
    /// Hole cards are on display (showdown, or the hero's always).
    pub hole_cards_face_up: bool,
    /// Hole cards are blanked after a fold.
    pub hole_cards_hidden: bool,
}

/// The whole table: the seats, the five board cards, the two pot counters,
/// the street and the lifecycle state.
pub struct Table {
    /// The six seats, by seat index.
    pub seats: Vec<Seat>,
    /// The five board cards; undefined until dealt.
    pub board: Vec<Card>,
    /// Chips counted into the pot at move time, blinds included.
    pub pot: u32,
    /// Chips swept in at round ends; trails `pot` for display.
    pub pooled_pot: u32,
    /// 0 preflop, 1 flop, 2 turn, 3 river.
    pub street: u8,
    /// Where the hand lifecycle stands.
    pub state: HandoutState,
}

/// The betting view of the seats: seat index as id, front from the moved
/// chips.
pub open spec fn players_of_seats(seats: Seq<Seat>) -> Seq<Player> {
    Seq::new(seats.len(), |k: int| Player {
        id: k as usize,
        position: seats[k].preflop_position,
        stack: seats[k].stack,
        front: seats[k].moved_chips,
        is_active: seats[k].is_active,
        in_action: seats[k].in_action,
    })
}

/// The chips a seat owns: bankroll, stack and front together.
pub open spec fn seat_chips(seat: Seat) -> int {
    seat.bankroll + seat.stack + seat.moved_chips
}

/// The chips owned by the first `n` seats.
pub open spec fn chips_sum(seats: Seq<Seat>, n: int) -> int
    decreases n,
{
    if n <= 0 {
        0
    } else {
        chips_sum(seats, n - 1) + seat_chips(seats[n - 1])
    }
}

/// The fronts of the first `n` seats together.
pub open spec fn moved_sum(seats: Seq<Seat>, n: int) -> int
    decreases n,
{
    if n <= 0 {
        0
    } else {
        moved_sum(seats, n - 1) + seats[n - 1].moved_chips
    }
}

/// How many of the first `n` seats are still active.
pub open spec fn count_active_seats(seats: Seq<Seat>, n: int) -> int
    decreases n,
{
    if n <= 0 {
        0
    } else {
        count_active_seats(seats, n - 1) + if seats[n - 1].is_active {
            1int
        } else {
            0int
        }
    }
}

/// The total the lifecycle conserves from the start of a hand until payout:
/// every seat's bankroll, stack and front, plus the pooled pot. The `pot`
/// counter mirrors blinds and moves as they happen and is settled at
/// payout, so it stays outside this total.
pub open spec fn tracked_total(t: Table) -> int {
    chips_sum(t.seats@, 6) + t.pooled_pot
}

/// The board cards that have been dealt so far match the street: none
/// preflop, three on the flop, four on the turn, all five on the river.
pub open spec fn board_matches_street(t: Table) -> bool {
    &&& (t.street == 0 ==> forall|i: int| 0 <= i < 5 ==> (#[trigger] t.board@[i]).0 == UNDEFINED_CARD)
    &&& (t.street == 1 ==> (forall|i: int| 0 <= i < 3 ==> (#[trigger] t.board@[i]).0 < 52)
        && t.board@[3].0 == UNDEFINED_CARD && t.board@[4].0 == UNDEFINED_CARD)
    &&& (t.street == 2 ==> (forall|i: int| 0 <= i < 4 ==> (#[trigger] t.board@[i]).0 < 52)
        && t.board@[4].0 == UNDEFINED_CARD)
    &&& (t.street == 3 ==> forall|i: int| 0 <= i < 5 ==> (#[trigger] t.board@[i]).0 < 52)
}

/// A well-formed table: six seats, five board slots, a street in range,
/// positions forming a permutation, and the hero fixed at seat 3.
pub open spec fn wf(t: Table) -> bool {
    &&& t.seats@.len() == 6
    &&& t.board@.len() == 5
    &&& t.street <= 3
    &&& position_perm(players_of_seats(t.seats@))
    &&& forall|k: int| 0 <= k < 6 ==> ((#[trigger] t.seats@[k]).is_hero <==> k == 3)
}

} // verus!
