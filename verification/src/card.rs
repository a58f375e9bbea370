//! Card identity and the shuffled deck.
//!
//! A card is an integer id in `0..52`: `rank = id / 4` (deuce through ace as
//! `0..13`) and `suit = id % 4`. The sentinel id `255` stands for a card that
//! is not yet dealt (face down).

use vstd::prelude::*;

verus! {

/// A playing card, identified by an integer id in `0..52`, or `255` when the
/// card is still undefined (not yet dealt).
#[derive(Debug, Clone, Copy, PartialEq, Eq, Structural)]
pub struct Card(pub u8);

/// The sentinel id of a card that has not been dealt yet.
pub const UNDEFINED_CARD: u8 = 255;

impl Card {
    /// The rank of the card: `0` for a deuce up to `12` for an ace.
    pub fn rank(&self) -> (r: u8)
        ensures
            r == self.0 / 4,
    {
        self.0 / 4
    }

    /// The suit of the card, `0..4`; the undefined card gets the extra suit `4`.
    pub fn suit(&self) -> (r: u8)
        ensures
            self.0 == UNDEFINED_CARD ==> r == 4,
            self.0 != UNDEFINED_CARD ==> r == self.0 % 4,
    {
        if self.0 == UNDEFINED_CARD {
            4
        } else {
            self.0 % 4
        }
    }

    /// The display name of the card's rank: `"2"` through `"9"`, then
    /// `"T"`, `"J"`, `"Q"`, `"K"`, `"A"`; `"X"` for the undefined card.
    pub fn rank_str(&self) -> (r: &'static str)
        requires
            self.0 < 52 || self.0 == UNDEFINED_CARD,
        ensures
            r@ =~= seq![spec_rank_char(*self)],
    {
        proof {
            reveal_strlit("X");
            reveal_strlit("2");
            reveal_strlit("3");
            reveal_strlit("4");
            reveal_strlit("5");
            reveal_strlit("6");
            reveal_strlit("7");
            reveal_strlit("8");
            reveal_strlit("9");
            reveal_strlit("T");
            reveal_strlit("J");
            reveal_strlit("Q");
            reveal_strlit("K");
            reveal_strlit("A");
        }
        if self.0 == UNDEFINED_CARD {
            "X"
        } else {
            let r = self.0 / 4;
            if r == 0 {
                "2"
            } else if r == 1 {
                "3"
            } else if r == 2 {
                "4"
            } else if r == 3 {
                "5"
            } else if r == 4 {
                "6"
            } else if r == 5 {
                "7"
            } else if r == 6 {
                "8"
            } else if r == 7 {
                "9"
            } else if r == 8 {
                "T"
            } else if r == 9 {
                "J"
            } else if r == 10 {
                "Q"
            } else {
                if r == 11 {
                    "K"
                } else {
                    "A"
                }
            }
        }
    }

    /// A display color per suit (black, green, blue, red); magenta for the
    /// undefined card. Purely cosmetic.
    pub fn suit_color(&self) -> (r: &'static str)
        requires
            self.0 < 52 || self.0 == UNDEFINED_CARD,
        ensures
            r@ =~= spec_suit_color(*self),
    {
        proof {
            reveal_strlit("#ff00ff");
            reveal_strlit("#000000");
            reveal_strlit("#047804");
            reveal_strlit("#0000ff");
            reveal_strlit("#ff0000");
        }
        if self.0 == UNDEFINED_CARD {
            "#ff00ff"
        } else {
            let s = self.0 % 4;
            if s == 0 {
                "#000000"
            } else if s == 1 {
                "#047804"
            } else {
                if s == 2 {
                    "#0000ff"
                } else {
                    "#ff0000"
                }
            }
        }
    }

    /// Whether the card has been dealt (its id is a real card id).
    pub fn is_defined(&self) -> (r: bool)
        ensures
            r == (self.0 < 52),
    {
        self.0 < 52
    }
}

/// The one-character display name of a card's rank: deuce through nine as
/// digits, then `T`, `J`, `Q`, `K`, `A`, and `X` for the undefined card.
pub open spec fn spec_rank_char(c: Card) -> char {
    if c.0 == UNDEFINED_CARD {
        'X'
    } else {
        let r = c.0 / 4;
        if r == 0 {
            '2'
        } else if r == 1 {
            '3'
        } else if r == 2 {
            '4'
        } else if r == 3 {
            '5'
        } else if r == 4 {
            '6'
        } else if r == 5 {
            '7'
        } else if r == 6 {
            '8'
        } else if r == 7 {
            '9'
        } else if r == 8 {
            'T'
        } else if r == 9 {
            'J'
        } else if r == 10 {
            'Q'
        } else if r == 11 {
            'K'
        } else {
            'A'
        }
    }
}

/// The display color of a card's suit, as a hex color code: black, green,
/// blue and red for the four suits, magenta for the undefined card.
pub open spec fn spec_suit_color(c: Card) -> Seq<char> {
    if c.0 == UNDEFINED_CARD {
        seq!['#', 'f', 'f', '0', '0', 'f', 'f']
    } else {
        let s = c.0 % 4;
        if s == 0 {
            seq!['#', '0', '0', '0', '0', '0', '0']
        } else if s == 1 {
            seq!['#', '0', '4', '7', '8', '0', '4']
        } else if s == 2 {
            seq!['#', '0', '0', '0', '0', 'f', 'f']
        } else {
            seq!['#', 'f', 'f', '0', '0', '0', '0']
        }
    }
}

/// The 52 distinct card ids, in id order.
pub open spec fn full_deck_seq() -> Seq<Card> {
    Seq::new(52, |i: int| Card(i as u8))
}

} // verus!
