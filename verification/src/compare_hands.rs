//! Compare several holdings and pick the winning ones.

use vstd::prelude::*;

use crate::card::Card;
use crate::hand_evaluation::{
    self, hand_ok, lemma_rank_le_antisymmetric, rank_le, spec_rank, Rank, Rankable,
};

verus! {

/// A card id split into the evaluator's value and suit.
pub open spec fn eval_of(c: Card) -> hand_evaluation::Card {
    hand_evaluation::Card { value: (c.0 / 4) as u8, suit: (c.0 % 4) as u8 }
}

/// A whole hand of card ids, as the evaluator sees it.
pub open spec fn eval_hand(h: Seq<Card>) -> Seq<hand_evaluation::Card> {
    Seq::new(h.len(), |i: int| eval_of(h[i]))
}

/// A holding fit for ranking: five to seven distinct real card ids.
pub open spec fn table_hand_ok(h: Seq<Card>) -> bool {
    &&& 5 <= h.len() <= 7
    &&& forall|i: int| 0 <= i < h.len() ==> (#[trigger] h[i]).0 < 52
    &&& h.no_duplicates()
}

/// The rank of a holding of card ids.
pub open spec fn hand_rank(h: Seq<Card>) -> Rank {
    spec_rank(eval_hand(h))
}

/// Holding index `i` ranks at least as high as every other holding.
pub open spec fn is_winner(hands: Seq<Seq<Card>>, i: int) -> bool {
    &&& 0 <= i < hands.len()
    &&& forall|j: int| 0 <= j < hands.len() ==> rank_le(hand_rank(#[trigger] hands[j]), hand_rank(hands[i]))
}

/// The holdings of a list of hands, each as a sequence of card ids.
pub open spec fn hands_view(hands: Seq<Vec<Card>>) -> Seq<Seq<Card>> {
    Seq::new(hands.len(), |i: int| hands[i]@)
}

/// The winning indices among the first `n` holdings, in increasing order.
pub open spec fn winners_upto(hands: Seq<Seq<Card>>, n: int) -> Seq<usize>
    decreases n,
{
    if n <= 0 {
        Seq::empty()
    } else if is_winner(hands, n - 1) {
        winners_upto(hands, n - 1).push((n - 1) as usize)
    } else {
        winners_upto(hands, n - 1)
    }
}

/// The indices of the holdings tied for the highest rank, in increasing
/// order.
pub open spec fn winners_of(hands: Seq<Seq<Card>>) -> Seq<usize> {
    winners_upto(hands, hands.len() as int)
}

proof fn lemma_eval_hand_ok(h: Seq<Card>)
    requires
        table_hand_ok(h),
    ensures
        hand_ok(eval_hand(h)),
{
    let e = eval_hand(h);
    assert forall|i: int, j: int| 0 <= i < e.len() && 0 <= j < e.len() && i != j implies e[i]
        != e[j] by {
        if e[i] == e[j] {
            assert(h[i].0 / 4 == h[j].0 / 4 && h[i].0 % 4 == h[j].0 % 4);
            assert(h[i].0 == 4 * (h[i].0 / 4) + h[i].0 % 4);
            assert(h[j].0 == 4 * (h[j].0 / 4) + h[j].0 % 4);
            assert(h[i] != h[j]);
            assert(h[i].0 != h[j].0);
        }
    }
}

/// Rank every holding and return, in increasing order, the indices of those
/// tied for the highest rank. An empty input has no winner; a single holding
/// wins outright, without being ranked.
pub fn compare_hands(hands: &Vec<Vec<Card>>) -> (r: Vec<usize>)
    requires
        hands@.len() >= 2 ==> forall|i: int|
            0 <= i < hands@.len() ==> table_hand_ok(#[trigger] hands@[i]@),
    ensures
        hands@.len() == 0 ==> r@.len() == 0,
        hands@.len() == 1 ==> r@ =~= seq![0usize],
        hands@.len() >= 2 ==> {
            &&& r@ == winners_of(hands_view(hands@))
            &&& forall|i: int|
                0 <= i < hands@.len() ==> (r@.contains(i as usize) <==> is_winner(
                    hands_view(hands@),
                    i,
                ))
            &&& forall|k: int| 0 <= k < r@.len() ==> (#[trigger] r@[k] as int) < hands@.len()
            &&& forall|k1: int, k2: int| 0 <= k1 < k2 < r@.len() ==> r@[k1] < r@[k2]
        },
{
    let nh = hands.len();
    if nh == 0 {
        let empty: Vec<usize> = Vec::new();
        return empty;
    }
    if nh == 1 {
        let mut single: Vec<usize> = Vec::new();
        single.push(0);
        proof {
            assert(single@ =~= seq![0usize]);
        }
        return single;
    }
    let ghost hv = hands_view(hands@);
    let mut ranks: Vec<Rank> = Vec::new();
    let mut i: usize = 0;
    while i < nh
        invariant
            2 <= nh == hands@.len(),
            forall|k: int| 0 <= k < hands@.len() ==> table_hand_ok(#[trigger] hands@[k]@),
            hv == hands_view(hands@),
            i <= nh,
            ranks@.len() == i,
            forall|k: int| 0 <= k < i ==> #[trigger] ranks@[k] == hand_rank(hv[k]),
        decreases nh - i,
    {
        let hand = &hands[i];
        let m = hand.len();
        let mut ec: Vec<hand_evaluation::Card> = Vec::new();
        let mut j: usize = 0;
        proof {
            assert(table_hand_ok(hands@[i as int]@));
        }
        while j < m
            invariant
                m == hand@.len(),
                table_hand_ok(hand@),
                j <= m,
                ec@.len() == j,
                forall|k: int| 0 <= k < j ==> #[trigger] ec@[k] == eval_of(hand@[k]),
            decreases m - j,
        {
            let c = hand_evaluation::Card::new(hand[j].0);
            ec.push(c);
            j = j + 1;
        }
        proof {
            assert(ec@ =~= eval_hand(hand@));
            lemma_eval_hand_ok(hand@);
            assert(hv[i as int] == hand@);
        }
        let rk = ec.rank();
        ranks.push(rk);
        i = i + 1;
    }
    let mut max_rank = ranks[0];
    let ghost mut max_at: int = 0;
    let mut i: usize = 1;
    while i < nh
        invariant
            2 <= nh == hands@.len(),
            hv == hands_view(hands@),
            ranks@.len() == nh,
            forall|k: int| 0 <= k < nh ==> #[trigger] ranks@[k] == hand_rank(hv[k]),
            i <= nh,
            0 <= max_at < nh,
            max_rank == ranks@[max_at],
            forall|k: int| 0 <= k < i ==> rank_le(#[trigger] ranks@[k], max_rank),
        decreases nh - i,
    {
        let rk = ranks[i];
        if !rk.le(&max_rank) {
            max_rank = rk;
            proof {
                max_at = i as int;
            }
        }
        i = i + 1;
    }
    let mut indices: Vec<usize> = Vec::new();
    let mut i: usize = 0;
    while i < nh
        invariant
            2 <= nh == hands@.len(),
            hv == hands_view(hands@),
            ranks@.len() == nh,
            forall|k: int| 0 <= k < nh ==> #[trigger] ranks@[k] == hand_rank(hv[k]),
            0 <= max_at < nh,
            max_rank == ranks@[max_at],
            forall|k: int| 0 <= k < nh ==> rank_le(#[trigger] ranks@[k], max_rank),
            i <= nh,
            indices@ == winners_upto(hv, i as int),
            forall|k: int|
                0 <= k < indices@.len() ==> (#[trigger] indices@[k] as int) < i && ranks@[indices@[k] as int]
                    == max_rank,
            forall|k1: int, k2: int| 0 <= k1 < k2 < indices@.len() ==> indices@[k1] < indices@[k2],
            forall|i2: int| 0 <= i2 < i && ranks@[i2] == max_rank ==> indices@.contains(i2 as usize),
        decreases nh - i,
    {
        proof {
            assert(ranks@[i as int] == max_rank <==> is_winner(hv, i as int)) by {
                if ranks@[i as int] == max_rank {
                    assert forall|j: int| 0 <= j < nh implies rank_le(
                        hand_rank(#[trigger] hv[j]),
                        hand_rank(hv[i as int]),
                    ) by {
                        assert(rank_le(ranks@[j], max_rank));
                    }
                }
                if is_winner(hv, i as int) {
                    assert(rank_le(hand_rank(hv[max_at]), hand_rank(hv[i as int])));
                    assert(rank_le(ranks@[i as int], max_rank));
                    lemma_rank_le_antisymmetric(ranks@[i as int], max_rank);
                }
            }
        }
        if ranks[i] == max_rank {
            let ghost old_indices = indices@;
            indices.push(i);
            proof {
                assert(indices@ == old_indices.push(i as usize));
                assert(indices@[old_indices.len() as int] == i as usize);
                assert forall|i2: int|
                    0 <= i2 <= i && ranks@[i2] == max_rank implies indices@.contains(
                    i2 as usize,
                ) by {
                    if i2 < i {
                        let k = choose|k: int|
                            0 <= k < old_indices.len() && old_indices[k] == i2 as usize;
                        assert(indices@[k] == i2 as usize);
                    } else {
                        assert(indices@[old_indices.len() as int] == i2 as usize);
                    }
                }
            }
        }
        i = i + 1;
    }
    proof {
        assert forall|i2: int| 0 <= i2 < nh implies (indices@.contains(i2 as usize) <==> is_winner(
            hv,
            i2,
        )) by {
            if indices@.contains(i2 as usize) {
                let k = choose|k: int| 0 <= k < indices@.len() && indices@[k] == i2 as usize;
                assert(ranks@[i2] == max_rank);
                assert forall|j: int| 0 <= j < nh implies rank_le(
                    hand_rank(#[trigger] hv[j]),
                    hand_rank(hv[i2]),
                ) by {
                    assert(rank_le(ranks@[j], max_rank));
                }
            }
            if is_winner(hv, i2) {
                assert(rank_le(hand_rank(hv[max_at]), hand_rank(hv[i2])));
                assert(rank_le(ranks@[i2], max_rank));
                lemma_rank_le_antisymmetric(ranks@[i2], max_rank);
            }
        }
        assert(forall|i2: int| 0 <= i2 < nh ==> (is_winner(hv, i2) <==> is_winner(
            hands_view(hands@),
            i2,
        )));
    }
    indices
}


/// There are never more winners than holdings.
pub proof fn lemma_winners_len(hands: Seq<Seq<Card>>, n: int)
    requires
        0 <= n,
    ensures
        winners_upto(hands, n).len() <= n,
    decreases n,
{
    if n > 0 {
        lemma_winners_len(hands, n - 1);
    }
}

} // verus!
