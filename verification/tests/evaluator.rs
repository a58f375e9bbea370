use holdem_engine::hand_evaluation::{find_flush, keep_highest, keep_n, rank_straight, Card, Rank, Rankable};

fn hand(ids: &[u8]) -> Vec<Card> {
    ids.iter().map(|&id| Card::new(id)).collect()
}

// Card id = value * 4 + suit, value 0 (deuce) .. 12 (ace), suit 0..4.
fn id(value: u8, suit: u8) -> u8 {
    value * 4 + suit
}

#[test]
fn card_new_splits_value_and_suit() {
    let c = Card::new(50);
    assert_eq!(c.value, 12);
    assert_eq!(c.suit, 2);
    let c = Card::new(0);
    assert_eq!(c.value, 0);
    assert_eq!(c.suit, 0);
}

#[test]
fn rank_of_hand_is_permutation_invariant() {
    // Two pair with a seventh-card kicker, seven cards.
    let ids = [id(12, 0), id(12, 1), id(5, 2), id(5, 3), id(8, 0), id(2, 1), id(0, 2)];
    let base = hand(&ids).rank();
    let perms: [[usize; 7]; 4] = [
        [6, 5, 4, 3, 2, 1, 0],
        [3, 0, 6, 2, 5, 1, 4],
        [1, 2, 3, 4, 5, 6, 0],
        [4, 6, 0, 1, 3, 5, 2],
    ];
    for p in perms.iter() {
        let permuted: Vec<Card> = p.iter().map(|&i| Card::new(ids[i])).collect();
        assert_eq!(permuted.rank(), base);
    }
}

#[test]
fn wheel_is_the_lowest_straight() {
    // A-2-3-4-5 in mixed suits.
    let h = hand(&[id(12, 0), id(0, 1), id(1, 2), id(2, 3), id(3, 0)]);
    assert_eq!(h.rank(), Rank::Straight(0));
}

#[test]
fn wheel_straight_flush_is_the_lowest_straight_flush() {
    let h = hand(&[id(12, 2), id(0, 2), id(1, 2), id(2, 2), id(3, 2)]);
    assert_eq!(h.rank(), Rank::StraightFlush(0));
}

#[test]
fn royal_flush_ranks_as_the_top_straight_flush() {
    // T-J-Q-K-A of one suit: the straight's top card is the ace at value 12.
    let h = hand(&[id(8, 1), id(9, 1), id(10, 1), id(11, 1), id(12, 1)]);
    assert_eq!(h.rank(), Rank::StraightFlush(9));
    assert_eq!(rank_straight(0b1_1111_0000_0000), Some(9));
}

#[test]
fn rank_straight_finds_runs_and_rejects_gaps() {
    assert_eq!(rank_straight(0b0_0000_0001_1111), Some(1));
    assert_eq!(rank_straight(0b0_0000_0011_1110), Some(2));
    assert_eq!(rank_straight(0b0_0000_0101_1110), None);
    assert_eq!(rank_straight(0b1_0000_0000_1111), Some(0));
    assert_eq!(rank_straight(0), None);
    // Seven cards: the higher of two overlapping runs wins.
    assert_eq!(rank_straight(0b0_0000_0111_1110), Some(3));
}

#[test]
fn keep_helpers_pick_the_top_bits() {
    assert_eq!(keep_highest(0b1010), 0b1000);
    assert_eq!(keep_highest(1), 1);
    assert_eq!(keep_n(0b1111_1111, 5), 0b1111_1000);
    assert_eq!(keep_n(0b1010, 2), 0b1010);
    assert_eq!(keep_n(0b1010, 3), 0b1010);
    assert_eq!(keep_n(0, 2), 0);
}

#[test]
fn find_flush_picks_the_suit_with_five_cards() {
    assert_eq!(find_flush(&[0b11111, 0, 0, 0]), Some(0));
    assert_eq!(find_flush(&[0b1111, 0b101011101, 0, 0]), Some(1));
    assert_eq!(find_flush(&[0b1111, 0b1111, 0b1111, 0b1111]), None);
    assert_eq!(find_flush(&[]), None);
}

#[test]
fn high_card_compares_by_kickers() {
    // A-K-Q-J-9 beats A-K-Q-J-8; suits mixed so there is no flush.
    let a = hand(&[id(12, 0), id(11, 1), id(10, 2), id(9, 3), id(7, 0)]);
    let b = hand(&[id(12, 1), id(11, 2), id(10, 3), id(9, 0), id(6, 1)]);
    assert!(b.rank() < a.rank());
    assert!(b.rank().le(&a.rank()));
    assert!(!a.rank().le(&b.rank()));
}

#[test]
fn one_pair_compares_by_pair_then_kickers() {
    let kings_q = hand(&[id(11, 0), id(11, 1), id(12, 2), id(10, 3), id(9, 0)]);
    let kings_t = hand(&[id(11, 2), id(11, 3), id(12, 0), id(8, 1), id(9, 1)]);
    assert!(kings_t.rank() < kings_q.rank());
    let aces = hand(&[id(12, 0), id(12, 1), id(2, 2), id(3, 3), id(5, 0)]);
    assert!(kings_q.rank() < aces.rank());
}

#[test]
fn two_pair_compares_by_pairs_then_kicker() {
    let kq_a = hand(&[id(11, 0), id(11, 1), id(10, 2), id(10, 3), id(12, 0)]);
    let kj_a = hand(&[id(11, 2), id(11, 3), id(9, 0), id(9, 1), id(12, 1)]);
    assert!(kj_a.rank() < kq_a.rank());
    let kq_j = hand(&[id(11, 0), id(11, 1), id(10, 2), id(10, 3), id(9, 0)]);
    assert!(kq_j.rank() < kq_a.rank());
}

#[test]
fn trips_compare_by_set_then_kickers() {
    // The canonical comparison: A-A-A-K-Q beats A-A-A-Q-J.
    let aaa_kq = hand(&[id(12, 0), id(12, 1), id(12, 2), id(11, 3), id(10, 0)]);
    let aaa_qj = hand(&[id(12, 0), id(12, 1), id(12, 2), id(10, 3), id(9, 0)]);
    assert!(aaa_qj.rank() < aaa_kq.rank());
    match aaa_kq.rank() {
        Rank::ThreeOfAKind(k) => assert_eq!(k, (1 << 12) << 13 | (1 << 11) | (1 << 10)),
        r => panic!("expected three of a kind, got {:?}", r),
    }
}

#[test]
fn straights_compare_by_top_card() {
    let nine_high = hand(&[id(3, 0), id(4, 1), id(5, 2), id(6, 3), id(7, 0)]);
    let eight_high = hand(&[id(2, 1), id(3, 2), id(4, 3), id(5, 0), id(6, 1)]);
    assert_eq!(nine_high.rank(), Rank::Straight(4));
    assert_eq!(eight_high.rank(), Rank::Straight(3));
    assert!(eight_high.rank() < nine_high.rank());
}

#[test]
fn flushes_compare_by_their_five_cards() {
    let ace_flush = hand(&[id(12, 3), id(10, 3), id(8, 3), id(6, 3), id(2, 3)]);
    let king_flush = hand(&[id(11, 3), id(10, 3), id(8, 3), id(6, 3), id(2, 3)]);
    assert!(king_flush.rank() < ace_flush.rank());
    match ace_flush.rank() {
        Rank::Flush(_) => {},
        r => panic!("expected a flush, got {:?}", r),
    }
}

#[test]
fn full_houses_compare_by_trips_then_pair() {
    let aces_full = hand(&[id(12, 0), id(12, 1), id(12, 2), id(11, 0), id(11, 1)]);
    let aces_full_queens = hand(&[id(12, 0), id(12, 1), id(12, 2), id(10, 0), id(10, 1)]);
    let kings_full = hand(&[id(11, 0), id(11, 1), id(11, 2), id(12, 0), id(12, 1)]);
    assert!(aces_full_queens.rank() < aces_full.rank());
    assert!(kings_full.rank() < aces_full_queens.rank());
}

#[test]
fn two_trips_in_seven_cards_make_the_higher_full_house() {
    // Three kings and three queens plus an ace: kings full of queens.
    let h = hand(&[id(11, 0), id(11, 1), id(11, 2), id(10, 0), id(10, 1), id(10, 2), id(12, 0)]);
    assert_eq!(h.rank(), Rank::FullHouse((1 << 11) << 13 | (1 << 10)));
}

#[test]
fn quads_compare_by_value_then_kicker() {
    let aces_k = hand(&[id(12, 0), id(12, 1), id(12, 2), id(12, 3), id(11, 0)]);
    let aces_q = hand(&[id(12, 0), id(12, 1), id(12, 2), id(12, 3), id(10, 0)]);
    let kings_a = hand(&[id(11, 0), id(11, 1), id(11, 2), id(11, 3), id(12, 0)]);
    assert!(aces_q.rank() < aces_k.rank());
    assert!(kings_a.rank() < aces_q.rank());
}

#[test]
fn straight_flushes_compare_by_top_card() {
    let nine_high = hand(&[id(3, 0), id(4, 0), id(5, 0), id(6, 0), id(7, 0)]);
    let eight_high = hand(&[id(2, 1), id(3, 1), id(4, 1), id(5, 1), id(6, 1)]);
    assert!(eight_high.rank() < nine_high.rank());
}

#[test]
fn categories_rank_in_order() {
    assert!(Rank::HighCard(u32::MAX) < Rank::OnePair(0));
    assert!(Rank::OnePair(u32::MAX) < Rank::TwoPair(0));
    assert!(Rank::TwoPair(u32::MAX) < Rank::ThreeOfAKind(0));
    assert!(Rank::ThreeOfAKind(u32::MAX) < Rank::Straight(0));
    assert!(Rank::Straight(u32::MAX) < Rank::Flush(0));
    assert!(Rank::Flush(u32::MAX) < Rank::FullHouse(0));
    assert!(Rank::FullHouse(u32::MAX) < Rank::FourOfAKind(0));
    assert!(Rank::FourOfAKind(u32::MAX) < Rank::StraightFlush(0));
}

#[test]
fn seven_card_hand_uses_its_best_five() {
    // A pair of aces plus a board that makes a king-high flush in clubs.
    let h = hand(&[id(12, 1), id(12, 2), id(11, 0), id(9, 0), id(7, 0), id(5, 0), id(2, 0)]);
    match h.rank() {
        Rank::Flush(_) => {},
        r => panic!("expected a flush, got {:?}", r),
    }
}

#[test]
fn rank_five_agrees_with_rank_on_five_card_hands() {
    let hands: [[u8; 5]; 6] = [
        [id(12, 0), id(11, 1), id(10, 2), id(9, 3), id(7, 0)],
        [id(11, 0), id(11, 1), id(12, 2), id(10, 3), id(9, 0)],
        [id(11, 0), id(11, 1), id(10, 2), id(10, 3), id(12, 0)],
        [id(12, 0), id(12, 1), id(12, 2), id(11, 3), id(10, 0)],
        [id(3, 0), id(4, 1), id(5, 2), id(6, 3), id(7, 0)],
        [id(12, 0), id(12, 1), id(12, 2), id(12, 3), id(11, 0)],
    ];
    for ids in hands.iter() {
        let h = hand(ids);
        assert_eq!(h.rank_five(), h.rank());
    }
    let flush = hand(&[id(12, 3), id(10, 3), id(8, 3), id(6, 3), id(2, 3)]);
    assert_eq!(flush.rank_five(), flush.rank());
    let full = hand(&[id(12, 0), id(12, 1), id(12, 2), id(11, 0), id(11, 1)]);
    assert_eq!(full.rank_five(), full.rank());
}
