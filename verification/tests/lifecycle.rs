use holdem_engine::betting::Betting;
use holdem_engine::card::Card;
use holdem_engine::components::{Seat, Table};
use holdem_engine::deck::Deck;
use holdem_engine::setup::setup_table;
use holdem_engine::states::HandoutState;
use holdem_engine::update::{
    attribute_winnings, choose_bot_move, deal_community_cards, do_showdown, make_move,
    on_showdown_made, pool_moved_chips, start_new_handout, table_players,
};

// The chips the engine conserves from the start of a hand until payout.
fn chip_total(t: &Table) -> u64 {
    let mut total = t.pooled_pot as u64;
    for s in t.seats.iter() {
        total += s.bankroll as u64 + s.stack as u64 + s.moved_chips as u64;
    }
    total
}

fn seat_of(t: &Table, position: u8) -> usize {
    t.seats.iter().position(|s| s.preflop_position == position).unwrap()
}

fn actor_position(t: &Table) -> Option<u8> {
    t.seats.iter().find(|s| s.in_action).map(|s| s.preflop_position)
}

#[test]
fn setup_posts_blinds_and_opens_with_position_five() {
    let mut deck = Deck::new_shuffled();
    let t = setup_table(&mut deck);
    assert_eq!(t.pot, 3);
    assert_eq!(t.pooled_pot, 0);
    assert_eq!(t.street, 0);
    assert_eq!(t.state, HandoutState::ExpectingMove);
    assert_eq!(t.seats.len(), 6);
    for (k, s) in t.seats.iter().enumerate() {
        assert_eq!(s.bankroll, 2000);
        assert_eq!(s.stack, 200);
        assert!(s.is_active);
        assert_eq!(s.is_hero, k == 3);
        assert_eq!(s.hole_cards_face_up, k == 3);
        assert!(!s.hole_cards_hidden);
        assert!(s.hole_cards[0].is_defined() && s.hole_cards[1].is_defined());
    }
    assert_eq!(t.seats[3].preflop_position, 0);
    assert_eq!(t.seats[3].moved_chips, 2);
    assert_eq!(t.seats[2].preflop_position, 1);
    assert_eq!(t.seats[2].moved_chips, 1);
    assert_eq!(actor_position(&t), Some(5));
    for b in t.board.iter() {
        assert!(!b.is_defined());
    }
    assert_eq!(deck.len(), 40);
}

#[test]
fn shuffled_deck_holds_each_card_once() {
    let mut deck = Deck::new_shuffled();
    assert_eq!(deck.len(), 52);
    let mut seen = [false; 52];
    for _ in 0..52 {
        let c = deck.draw();
        assert!(c.0 < 52);
        assert!(!seen[c.0 as usize]);
        seen[c.0 as usize] = true;
    }
}

// All fold to the big blind: the blind money goes to the big blind whole.
#[test]
fn all_fold_preflop_awards_the_blinds_to_the_big_blind() {
    let mut deck = Deck::new_shuffled();
    let mut t = setup_table(&mut deck);
    let total = chip_total(&t);
    let bb = seat_of(&t, 0);
    assert_eq!(t.seats[bb].moved_chips, 2);

    for expected in [5u8, 4, 3, 2, 1] {
        assert_eq!(actor_position(&t), Some(expected));
        make_move(&mut t, -1);
        assert_eq!(chip_total(&t), total);
    }
    assert_eq!(t.state, HandoutState::ExpectingPool);
    pool_moved_chips(&mut t);
    assert_eq!(chip_total(&t), total);
    assert_eq!(t.seats[bb].moved_chips, 0);
    assert_eq!(t.pooled_pot, 3);
    assert_eq!(t.state, HandoutState::ExpectingWinningsAttribution);
    attribute_winnings(&mut t);
    assert_eq!(t.seats[bb].moved_chips, 3);
    assert_eq!(t.pot, 0);
    assert_eq!(t.state, HandoutState::HandoutEnded);

    let stack_before = t.seats[bb].stack;
    start_new_handout(&mut t, &mut deck);
    // The winnings merged into the stack, then the new small blind posted.
    assert_eq!(t.seats[bb].preflop_position, 1);
    assert_eq!(t.seats[bb].stack, stack_before + 3 - 1);
    assert_eq!(t.seats[bb].moved_chips, 1);
    assert_eq!(t.state, HandoutState::ExpectingMove);
}

// Positions 5, 4 and 3 call, the button folds, the small blind completes,
// the big blind checks its option: the round closes on a pot of 10.
#[test]
fn limped_preflop_round_closes_on_the_big_blind_check() {
    let mut deck = Deck::new_shuffled();
    let mut t = setup_table(&mut deck);
    let total = chip_total(&t);
    for (pos, mv) in [(5u8, 2i32), (4, 2), (3, 2), (2, -1), (1, 1)] {
        assert_eq!(actor_position(&t), Some(pos));
        make_move(&mut t, mv);
    }
    assert_eq!(actor_position(&t), Some(0));
    make_move(&mut t, 0);
    assert_eq!(t.state, HandoutState::ExpectingPool);
    assert_eq!(t.pot, 10);
    assert_eq!(chip_total(&t), total);
}

// A whole hand checked down to a six-way showdown.
#[test]
fn checked_down_hand_reaches_showdown_and_splits_the_pot() {
    let mut deck = Deck::new_shuffled();
    let mut t = setup_table(&mut deck);
    let total = chip_total(&t);

    // Preflop: everyone limps, the big blind checks.
    for mv in [2i32, 2, 2, 2, 1, 0] {
        assert_eq!(t.state, HandoutState::ExpectingMove);
        make_move(&mut t, mv);
    }
    assert_eq!(t.state, HandoutState::ExpectingPool);
    assert_eq!(t.pot, 12);
    pool_moved_chips(&mut t);
    assert_eq!(t.pooled_pot, 12);

    for street in [1u8, 2, 3] {
        assert_eq!(t.state, HandoutState::ExpectingDeal);
        deal_community_cards(&mut t, &mut deck);
        assert_eq!(t.street, street);
        assert_eq!(actor_position(&t), Some(1));
        for _ in 0..6 {
            assert_eq!(t.state, HandoutState::ExpectingMove);
            make_move(&mut t, 0);
        }
        assert_eq!(t.state, HandoutState::ExpectingPool);
        pool_moved_chips(&mut t);
        assert_eq!(chip_total(&t), total);
    }
    assert_eq!(t.state, HandoutState::ExpectingShowdown);
    do_showdown(&mut t);
    for (k, s) in t.seats.iter().enumerate() {
        assert_eq!(s.hole_cards_face_up, true, "seat {} should show its cards", k);
    }
    assert_eq!(t.state, HandoutState::ShowdownMade);
    on_showdown_made(&mut t);
    attribute_winnings(&mut t);
    assert_eq!(t.pot, 0);
    assert_eq!(t.state, HandoutState::HandoutEnded);
    let winnings: u32 = t.seats.iter().map(|s| s.moved_chips).sum();
    let winners = t.seats.iter().filter(|s| s.moved_chips > 0).count() as u32;
    assert!(winners >= 1);
    assert_eq!(winnings, (12 / winners) * winners);
}

// Heads up on the river, the hero shoves more than its stack: the move is
// clamped to the stack and the comparator decides the pot.
#[test]
fn overshove_is_clamped_to_the_stack() {
    let board = vec![Card(0), Card(5), Card(10), Card(22), Card(31)];
    let mk_seat = |position: u8, active: bool, in_action: bool, c0: u8, c1: u8| Seat {
        name: "seat",
        bankroll: 2000,
        stack: 50,
        moved_chips: 0,
        hole_cards: [Card(c0), Card(c1)],
        preflop_position: position,
        is_active: active,
        in_action,
        is_hero: false,
        hole_cards_face_up: false,
        hole_cards_hidden: !active,
    };
    let mut seats = vec![
        mk_seat(3, false, false, 36, 37),
        mk_seat(2, false, false, 38, 39),
        mk_seat(1, true, true, 40, 41),
        mk_seat(0, true, false, 44, 45),
        mk_seat(5, false, false, 46, 47),
        mk_seat(4, false, false, 48, 49),
    ];
    seats[3].is_hero = true;
    seats[3].hole_cards_face_up = true;
    let mut t = Table {
        seats,
        board,
        pot: 20,
        pooled_pot: 20,
        street: 3,
        state: HandoutState::ExpectingMove,
    };
    let total = chip_total(&t);
    // The small blind checks; the hero shoves far more than its stack.
    make_move(&mut t, 0);
    assert!(t.seats[3].in_action);
    make_move(&mut t, 1000);
    assert_eq!(t.seats[3].stack, 0);
    assert_eq!(t.seats[3].moved_chips, 50);
    assert!(t.seats[3].is_active);
    assert_eq!(t.pot, 70);
    assert_eq!(chip_total(&t), total);
    // The small blind calls all in, which closes the round.
    assert!(t.seats[2].in_action);
    make_move(&mut t, 50);
    assert_eq!(t.state, HandoutState::ExpectingPool);
    pool_moved_chips(&mut t);
    assert_eq!(t.state, HandoutState::ExpectingShowdown);
    do_showdown(&mut t);
    on_showdown_made(&mut t);
    attribute_winnings(&mut t);
    assert_eq!(t.pot, 0);
    // The whole pot of 120 is paid out: 20 swept earlier, 100 shoved now.
    let paid: u32 = t.seats.iter().map(|s| s.moved_chips).sum();
    assert_eq!(paid, 120);
}

// After the settlement, every seat can cover the next blind or is broke.
#[test]
fn handout_settlement_tops_up_short_stacks() {
    let mut deck = Deck::new_shuffled();
    let mut t = setup_table(&mut deck);
    t.state = HandoutState::HandoutEnded;
    // A felted seat with a bankroll left, and one with a tiny bankroll.
    t.seats[0].stack = 0;
    t.seats[0].moved_chips = 0;
    t.seats[1].stack = 1;
    t.seats[1].moved_chips = 0;
    t.seats[1].bankroll = 3;
    start_new_handout(&mut t, &mut deck);
    for (k, s) in t.seats.iter().enumerate() {
        assert!(
            s.stack >= 2 || s.bankroll == 0,
            "seat {} ended with stack {} and bankroll {}",
            k,
            s.stack,
            s.bankroll
        );
        assert!(s.is_active);
        assert_eq!(s.moved_chips, if s.preflop_position == 0 { 2 } else if s.preflop_position == 1 { 1 } else { 0 });
    }
    // Seat 0 (position 3 before, 4 now) was felted and topped back to 200.
    assert_eq!(t.seats[0].stack, 200);
    assert_eq!(t.seats[0].preflop_position, 4);
    assert_eq!(t.seats[0].bankroll, 1800);
    // Seat 1 could only be topped up with its last three chips.
    assert_eq!(t.seats[1].stack, 4);
    assert_eq!(t.seats[1].preflop_position, 3);
    assert_eq!(t.seats[1].bankroll, 0);
    assert_eq!(t.pot, 3);
    assert_eq!(t.pooled_pot, 0);
    assert_eq!(t.street, 0);
}

#[test]
fn positions_rotate_each_hand() {
    let mut deck = Deck::new_shuffled();
    let mut t = setup_table(&mut deck);
    let before: Vec<u8> = t.seats.iter().map(|s| s.preflop_position).collect();
    t.state = HandoutState::HandoutEnded;
    start_new_handout(&mut t, &mut deck);
    for k in 0..6 {
        assert_eq!(t.seats[k].preflop_position, (before[k] + 1) % 6);
    }
    assert_eq!(actor_position(&t), Some(5));
}

#[test]
fn bot_move_is_one_of_the_offered_options() {
    let mut deck = Deck::new_shuffled();
    let t = setup_table(&mut deck);
    let players = table_players(&t);
    let engine = Betting::new(&players, t.pot, t.street);
    let options = engine.move_options();
    for _ in 0..50 {
        let mv = choose_bot_move(&engine);
        assert!(options.contains(&mv), "{} not in {:?}", mv, options);
    }
}
