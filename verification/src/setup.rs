//! Creating the table: six seats with their names, bankrolls, starting
//! stacks, blinds and positions, and the empty board.

use vstd::prelude::*;

use crate::betting::{self, position_perm};
use crate::card::{Card, UNDEFINED_CARD};
use crate::components::{players_of_seats, wf, Seat, Table};
use crate::deck::Deck;
use crate::states::HandoutState;

verus! {

/// The preflop position seat `k` starts with: the button at seat 1, the
/// small blind at seat 2, the big blind at seat 3 (the hero), and seat 4
/// first to act.
pub open spec fn initial_position(k: int) -> u8 {
    if k == 0 {
        3u8
    } else if k == 1 {
        2u8
    } else if k == 2 {
        1u8
    } else if k == 3 {
        0u8
    } else if k == 4 {
        5u8
    } else {
        4u8
    }
}

/// The blind seat `k` has posted at setup: the big blind at seat 3, the
/// small blind at seat 2.
pub open spec fn initial_blind(k: int) -> u32 {
    if k == 3 {
        2u32
    } else if k == 2 {
        1u32
    } else {
        0u32
    }
}

fn seat_name(k: usize) -> &'static str {
    if k == 0 {
        "Adam"
    } else if k == 1 {
        "John"
    } else if k == 2 {
        "Jane"
    } else if k == 3 {
        "You"
    } else if k == 4 {
        "Sarah"
    } else {
        "Mike"
    }
}

/// Create the table: every seat gets a bankroll of 2000 and a stack of 200,
/// seats 2 and 3 post the blinds, seat 3 is the hero with its cards face
/// up, seat 4 opens the action, and each seat is dealt two hole cards.
pub fn setup_table(deck: &mut Deck) -> (t: Table)
    requires
        old(deck)@.len() >= 12,
    ensures
        t.seats@.len() == 6,
        forall|k: int|
            0 <= k < 6 ==> {
                let seat = #[trigger] t.seats@[k];
                &&& seat.bankroll == 2000
                &&& seat.stack == 200
                &&& seat.moved_chips == initial_blind(k)
                &&& seat.hole_cards[0] == old(deck)@[2 * k]
                &&& seat.hole_cards[1] == old(deck)@[2 * k + 1]
                &&& seat.preflop_position == initial_position(k)
                &&& seat.is_active
                &&& (seat.in_action <==> k == 4)
                &&& (seat.is_hero <==> k == 3)
                &&& (seat.hole_cards_face_up <==> k == 3)
                &&& !seat.hole_cards_hidden
            },
        t.board@.len() == 5,
        forall|i: int| 0 <= i < 5 ==> (#[trigger] t.board@[i]).0 == UNDEFINED_CARD,
        t.pot == 3,
        t.pooled_pot == 0,
        t.street == 0,
        t.state == HandoutState::ExpectingMove,
        final(deck)@ == old(deck)@.skip(12),
        wf(t),
{
    let ghost d = old(deck)@;
    let mut seats: Vec<Seat> = Vec::new();
    let mut k: usize = 0;
    while k < 6
        invariant
            old(deck)@.len() >= 12,
            d == old(deck)@,
            k <= 6,
            deck@ == d.skip(2 * k),
            seats@.len() == k,
            forall|j: int|
                0 <= j < k ==> {
                    let seat = #[trigger] seats@[j];
                    &&& seat.bankroll == 2000
                    &&& seat.stack == 200
                    &&& seat.moved_chips == initial_blind(j)
                    &&& seat.hole_cards[0] == d[2 * j]
                    &&& seat.hole_cards[1] == d[2 * j + 1]
                    &&& seat.preflop_position == initial_position(j)
                    &&& seat.is_active
                    &&& (seat.in_action <==> j == 4)
                    &&& (seat.is_hero <==> j == 3)
                    &&& (seat.hole_cards_face_up <==> j == 3)
                    &&& !seat.hole_cards_hidden
                },
        decreases 6 - k,
    {
        let blind: u32 = if k == 3 {
            2
        } else if k == 2 {
            1
        } else {
            0
        };
        let position: u8 = if k == 0 {
            3
        } else if k == 1 {
            2
        } else if k == 2 {
            1
        } else if k == 3 {
            0
        } else if k == 4 {
            5
        } else {
            4
        };
        proof {
            assert(deck@.len() == d.len() - 2 * k);
        }
        let c0 = deck.draw();
        let c1 = deck.draw();
        proof {
            assert(c0 == d.skip(2 * k as int)[0] && c0 == d[2 * k as int]);
            assert(c1 == d.skip(2 * k as int).drop_first()[0] && c1 == d[2 * k as int + 1]);
            assert(deck@ =~= d.skip(2 * (k + 1) as int));
        }
        let seat = Seat {
            name: seat_name(k),
            bankroll: 2000,
            stack: 200,
            moved_chips: blind,
            hole_cards: [c0, c1],
            preflop_position: position,
            is_active: true,
            in_action: k == 4,
            is_hero: k == 3,
            hole_cards_face_up: k == 3,
            hole_cards_hidden: false,
        };
        seats.push(seat);
        k = k + 1;
    }
    let mut board: Vec<Card> = Vec::new();
    let mut b: usize = 0;
    while b < 5
        invariant
            b <= 5,
            board@.len() == b,
            forall|i: int| 0 <= i < b ==> (#[trigger] board@[i]).0 == UNDEFINED_CARD,
        decreases 5 - b,
    {
        board.push(Card(UNDEFINED_CARD));
        b = b + 1;
    }
    let t = Table {
        seats,
        board,
        pot: 3,
        pooled_pot: 0,
        street: 0,
        state: HandoutState::ExpectingMove,
    };
    proof {
        let ps = players_of_seats(t.seats@);
        assert forall|p: u8| p < 6 implies betting::pos_index(ps, p) >= 0 by {
            if p == 0 {
                assert(ps[3].position == p);
                betting::lemma_pos_exists_index(ps, p, 3);
            } else if p == 1 {
                assert(ps[2].position == p);
                betting::lemma_pos_exists_index(ps, p, 2);
            } else if p == 2 {
                assert(ps[1].position == p);
                betting::lemma_pos_exists_index(ps, p, 1);
            } else if p == 3 {
                assert(ps[0].position == p);
                betting::lemma_pos_exists_index(ps, p, 0);
            } else if p == 4 {
                assert(ps[5].position == p);
                betting::lemma_pos_exists_index(ps, p, 5);
            } else {
                assert(ps[4].position == p);
                betting::lemma_pos_exists_index(ps, p, 4);
            }
        }
        assert(position_perm(ps));
    }
    t
}

} // verus!
