//! A shuffled 52-card deck, drawn from the front.

use std::collections::VecDeque;

use rand::seq::SliceRandom;
use vstd::prelude::*;

use crate::card::{full_deck_seq, Card};

verus! {

/// An ordered deck of cards; a freshly shuffled one holds each of the 52
/// card ids exactly once.
pub struct Deck {
    cards: VecDeque<Card>,
}

impl View for Deck {
    type V = Seq<Card>;

    closed spec fn view(&self) -> Seq<Card> {
        self.cards@
    }
}

/// Relies on rand's `SliceRandom::shuffle`: it permutes the slice in place,
/// neither adding nor removing elements.
#[verifier::external_body]
fn shuffle_in_place(cards: &mut Vec<Card>)
    ensures
        final(cards)@.len() == old(cards)@.len(),
        final(cards)@.to_multiset() == old(cards)@.to_multiset(),
{
    cards.shuffle(&mut rand::thread_rng());
}

impl Deck {
    /// A full deck of 52 distinct cards in uniformly random order.
    pub fn new_shuffled() -> (r: Deck)
        ensures
            r@.len() == 52,
            r@.to_multiset() == full_deck_seq().to_multiset(),
            forall|i: int| 0 <= i < 52 ==> (#[trigger] r@[i]).0 < 52,
    {
        let mut cards: Vec<Card> = Vec::new();
        let mut i: usize = 0;
        while i < 52
            invariant
                i <= 52,
                cards@.len() == i,
                forall|k: int| 0 <= k < i ==> #[trigger] cards@[k] == Card(k as u8),
            decreases 52 - i,
        {
            cards.push(Card(i as u8));
            i = i + 1;
        }
        proof {
            assert(cards@ =~= full_deck_seq());
        }
        shuffle_in_place(&mut cards);
        proof {
            broadcast use vstd::seq_lib::group_to_multiset_ensures;

            assert forall|k: int| 0 <= k < cards@.len() implies (#[trigger] cards@[k]).0
                < 52 by {
                assert(cards@.contains(cards@[k]));
                assert(cards@.to_multiset().count(cards@[k]) > 0);
                assert(full_deck_seq().to_multiset().count(cards@[k]) > 0);
                assert(full_deck_seq().contains(cards@[k]));
                let j = choose|j: int| 0 <= j < 52 && full_deck_seq()[j] == cards@[k];
                assert(full_deck_seq()[j].0 == j as u8);
            }
        }
        let mut deck: VecDeque<Card> = VecDeque::new();
        let n = cards.len();
        let mut i: usize = 0;
        while i < n
            invariant
                n == cards@.len(),
                i <= n,
                deck@ == cards@.take(i as int),
            decreases n - i,
        {
            let ghost before = deck@;
            deck.push_back(cards[i]);
            proof {
                assert(deck@ =~= before.push(cards@[i as int]));
                assert(cards@.take(i as int).push(cards@[i as int]) =~= cards@.take(i + 1));
            }
            i = i + 1;
        }
        proof {
            assert(deck@ =~= cards@);
        }
        Deck { cards: deck }
    }

    /// Remove and return the front card.
    pub fn draw(&mut self) -> (r: Card)
        requires
            old(self)@.len() > 0,
        ensures
            r == old(self)@[0],
            final(self)@ =~= old(self)@.drop_first(),
    {
        match self.cards.pop_front() {
            Some(c) => c,
            None => {
                proof {
                    assert(false);
                }
                Card(0)
            },
        }
    }

    /// How many cards remain.
    pub fn len(&self) -> (r: usize)
        ensures
            r == self@.len(),
    {
        self.cards.len()
    }
}

} // verus!
