use holdem_engine::betting::{Betting, Player};

// Build six players seated by seat id 0..5 with the given preflop
// positions, fronts and stacks; `actor` (a position) is in action.
fn players(
    positions: [u8; 6],
    fronts: [u32; 6],
    stacks: [u32; 6],
    active: [bool; 6],
    actor: Option<u8>,
) -> Vec<Player> {
    (0..6)
        .map(|k| Player {
            id: k,
            position: positions[k],
            stack: stacks[k],
            front: fronts[k],
            is_active: active[k],
            in_action: actor == Some(positions[k]),
        })
        .collect()
}

const POSITIONS: [u8; 6] = [3, 2, 1, 0, 5, 4];

fn seat_of(position: u8) -> usize {
    POSITIONS.iter().position(|&p| p == position).unwrap()
}

// Blinds posted, nothing else: the front of the small blind is 1, the big
// blind 2.
fn blind_fronts() -> [u32; 6] {
    let mut f = [0u32; 6];
    f[seat_of(1)] = 1;
    f[seat_of(0)] = 2;
    f
}

#[test]
fn preflop_action_walks_from_position_five_to_the_big_blind() {
    // P-style walk: with only the blinds posted, each actor hands the turn
    // to the next position: 5 -> 4 -> 3 -> 2 -> 1 and then the big blind.
    let expected = [(5u8, 4u8), (4, 3), (3, 2), (2, 1), (1, 0)];
    for &(actor, next) in expected.iter() {
        let b = Betting::new(
            &players(POSITIONS, blind_fronts(), [200; 6], [true; 6], Some(actor)),
            3,
            0,
        );
        assert_eq!(b.next_actor_id(), Some(seat_of(next)), "after position {}", actor);
    }
}

#[test]
fn big_blind_check_closes_the_preflop_round() {
    // Everyone has limped to 2 and the big blind checked: no next actor.
    let b = Betting::new(
        &players(POSITIONS, [2; 6], [198; 6], [true; 6], Some(0)),
        15,
        0,
    );
    assert_eq!(b.next_actor_id(), None);
}

#[test]
fn big_blind_keeps_its_option_when_everyone_limps() {
    // Small blind completed to 2; action reaches the big blind although it
    // has nothing to call.
    let b = Betting::new(
        &players(POSITIONS, [2; 6], [198; 6], [true; 6], Some(1)),
        3,
        0,
    );
    assert_eq!(b.next_actor_id(), Some(seat_of(0)));
}

#[test]
fn postflop_check_around_closes_after_the_last_seat() {
    // Postflop order is 1, 0, 5, 4, 3, 2; everyone checks in that order and
    // the round closes after position 2 checks.
    let order = [1u8, 0, 5, 4, 3, 2];
    for i in 0..5 {
        let b = Betting::new(
            &players(POSITIONS, [0; 6], [198; 6], [true; 6], Some(order[i])),
            12,
            1,
        );
        assert_eq!(b.next_actor_id(), Some(seat_of(order[i + 1])), "after position {}", order[i]);
    }
    let b = Betting::new(
        &players(POSITIONS, [0; 6], [198; 6], [true; 6], Some(2)),
        12,
        1,
    );
    assert_eq!(b.next_actor_id(), None);
}

#[test]
fn calls_behind_a_raise_close_the_round_at_the_raiser() {
    // Position 1 raised to 10 postflop; the calls come around the table.
    let order = [1u8, 0, 5, 4, 3, 2];
    let mut fronts = [0u32; 6];
    fronts[seat_of(1)] = 10;
    for i in 1..6 {
        let b = Betting::new(
            &players(POSITIONS, fronts, [190; 6], [true; 6], Some(order[i - 1])),
            22,
            1,
        );
        assert_eq!(b.next_actor_id(), Some(seat_of(order[i])), "after position {}", order[i - 1]);
        fronts[seat_of(order[i])] = 10;
    }
    // The last caller acted; the raiser gets no second action.
    let b = Betting::new(
        &players(POSITIONS, [10; 6], [190; 6], [true; 6], Some(2)),
        62,
        1,
    );
    assert_eq!(b.next_actor_id(), None);
}

#[test]
fn fewer_than_two_active_players_end_the_hand() {
    let mut active = [false; 6];
    active[3] = true;
    let b = Betting::new(
        &players(POSITIONS, blind_fronts(), [200; 6], active, Some(1)),
        3,
        0,
    );
    assert_eq!(b.next_actor_id(), None);
}

#[test]
fn folded_seats_are_skipped() {
    let mut active = [true; 6];
    active[seat_of(4)] = false;
    let b = Betting::new(
        &players(POSITIONS, blind_fronts(), [200; 6], active, Some(5)),
        3,
        0,
    );
    // Position 4 folded, so the turn passes from 5 straight to 3.
    assert_eq!(b.next_actor_id(), Some(seat_of(3)));
}

#[test]
fn max_front_and_tocall_follow_the_blinds() {
    let b = Betting::new(
        &players(POSITIONS, blind_fronts(), [200; 6], [true; 6], Some(5)),
        3,
        0,
    );
    assert_eq!(b.max_front(), 2);
    assert_eq!(b.tocall(), 2);
    // The small blind owes only one more chip.
    let b = Betting::new(
        &players(POSITIONS, blind_fronts(), [200; 6], [true; 6], Some(1)),
        3,
        0,
    );
    assert_eq!(b.tocall(), 1);
}

#[test]
fn tocall_is_capped_by_the_stack() {
    let mut fronts = [0u32; 6];
    fronts[seat_of(2)] = 50;
    let mut stacks = [200u32; 6];
    stacks[seat_of(5)] = 30;
    let b = Betting::new(&players(POSITIONS, fronts, stacks, [true; 6], Some(5)), 53, 0);
    assert_eq!(b.tocall(), 30);
}

#[test]
fn preflop_move_options_offer_fold_call_and_a_pot_raise() {
    let b = Betting::new(
        &players(POSITIONS, blind_fronts(), [200; 6], [true; 6], Some(5)),
        3,
        0,
    );
    // Fold, call 2, raise to twice the pot.
    assert_eq!(b.move_options(), vec![-1, 2, 6]);
}

#[test]
fn preflop_raise_is_capped_by_the_stack() {
    let mut stacks = [200u32; 6];
    stacks[seat_of(5)] = 4;
    let b = Betting::new(&players(POSITIONS, blind_fronts(), stacks, [true; 6], Some(5)), 3, 0);
    assert_eq!(b.move_options(), vec![-1, 2, 4]);
}

#[test]
fn postflop_check_offers_half_pot_raise() {
    let b = Betting::new(&players(POSITIONS, [0; 6], [198; 6], [true; 6], Some(1)), 12, 1);
    // Check or raise half the pot, rounded down.
    assert_eq!(b.move_options(), vec![0, 6]);
    let b = Betting::new(&players(POSITIONS, [0; 6], [198; 6], [true; 6], Some(1)), 13, 1);
    assert_eq!(b.move_options(), vec![0, 6]);
}

#[test]
fn postflop_facing_a_bet_offers_fold_call_raise() {
    let mut fronts = [0u32; 6];
    fronts[seat_of(1)] = 10;
    let b = Betting::new(&players(POSITIONS, fronts, [190; 6], [true; 6], Some(0)), 22, 1);
    assert_eq!(b.move_options(), vec![-1, 10, 11]);
}

#[test]
fn set_actor_inactive_retires_only_the_actor() {
    let mut b = Betting::new(
        &players(POSITIONS, blind_fronts(), [200; 6], [true; 6], Some(5)),
        3,
        0,
    );
    b.set_actor_inactive();
    let mut inactive = 0;
    for p in b.players.iter() {
        if !p.is_active {
            inactive += 1;
            assert_eq!(p.position, 5);
        }
    }
    assert_eq!(inactive, 1);
}

#[test]
fn new_orders_players_for_the_street() {
    let b = Betting::new(&players(POSITIONS, blind_fronts(), [200; 6], [true; 6], None), 3, 0);
    let order: Vec<u8> = b.players.iter().map(|p| p.position).collect();
    assert_eq!(order, vec![5, 4, 3, 2, 1, 0]);
    let b = Betting::new(&players(POSITIONS, [0; 6], [200; 6], [true; 6], None), 3, 1);
    let order: Vec<u8> = b.players.iter().map(|p| p.position).collect();
    assert_eq!(order, vec![1, 0, 5, 4, 3, 2]);
}
