use holdem_engine::card::Card;
use holdem_engine::compare_hands::compare_hands;

// Card id = value * 4 + suit.
fn id(value: u8, suit: u8) -> u8 {
    value * 4 + suit
}

fn hand(ids: &[u8]) -> Vec<Card> {
    ids.iter().map(|&i| Card(i)).collect()
}

#[test]
fn no_hands_no_winner() {
    let hands: Vec<Vec<Card>> = vec![];
    assert_eq!(compare_hands(&hands), Vec::<usize>::new());
}

#[test]
fn a_single_hand_wins_outright() {
    let hands = vec![hand(&[id(0, 0), id(1, 1), id(2, 2), id(3, 3), id(5, 0)])];
    assert_eq!(compare_hands(&hands), vec![0]);
}

#[test]
fn the_higher_pair_wins() {
    let aces = hand(&[id(12, 0), id(12, 1), id(2, 2), id(3, 3), id(5, 0)]);
    let kings = hand(&[id(11, 0), id(11, 1), id(2, 0), id(3, 1), id(5, 2)]);
    assert_eq!(compare_hands(&vec![aces.clone(), kings.clone()]), vec![0]);
    assert_eq!(compare_hands(&vec![kings, aces]), vec![1]);
}

#[test]
fn tied_hands_split() {
    // Identical values in different suits, no flush anywhere.
    let a = hand(&[id(12, 0), id(11, 1), id(9, 2), id(7, 3), id(5, 0)]);
    let b = hand(&[id(12, 1), id(11, 2), id(9, 3), id(7, 0), id(5, 1)]);
    let c = hand(&[id(2, 0), id(3, 1), id(5, 2), id(7, 1), id(9, 0)]);
    assert_eq!(compare_hands(&vec![a, c, b]), vec![0, 2]);
}

#[test]
fn a_straight_beats_trips_across_seven_cards() {
    let straight = hand(&[
        id(3, 0),
        id(4, 1),
        id(5, 2),
        id(6, 3),
        id(7, 0),
        id(12, 1),
        id(12, 2),
    ]);
    let trips = hand(&[
        id(11, 0),
        id(11, 1),
        id(11, 2),
        id(9, 3),
        id(2, 0),
        id(3, 1),
        id(5, 3),
    ]);
    assert_eq!(compare_hands(&vec![trips, straight]), vec![1]);
}

#[test]
fn card_display_helpers() {
    assert_eq!(Card(48).rank_str(), "A");
    assert_eq!(Card(0).rank_str(), "2");
    assert_eq!(Card(35).rank_str(), "T");
    assert_eq!(Card(255).rank_str(), "X");
    assert_eq!(Card(255).suit(), 4);
    assert_eq!(Card(49).suit(), 1);
    assert_eq!(Card(49).rank(), 12);
    assert_eq!(Card(0).suit_color(), "#000000");
    assert_eq!(Card(1).suit_color(), "#047804");
    assert_eq!(Card(2).suit_color(), "#0000ff");
    assert_eq!(Card(3).suit_color(), "#ff0000");
    assert_eq!(Card(255).suit_color(), "#ff00ff");
    assert!(Card(51).is_defined());
    assert!(!Card(52).is_defined());
    assert!(!Card(255).is_defined());
}
