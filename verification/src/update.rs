//! The hand lifecycle: applying moves, sweeping rounds, dealing, showdown,
//! payout, and settling up into the next hand.

use rand::distributions::Distribution;
use vstd::prelude::*;

use crate::betting::{
    self, actor_of, chips_bounded, count_in_action, lemma_pos_index_same, position_perm,
    sorted_players, spec_action_order, spec_move_list, spec_next_actor, Betting, Player,
};
use crate::card::{Card, UNDEFINED_CARD};
use crate::compare_hands::{
    compare_hands, hands_view, lemma_winners_len, table_hand_ok, winners_of,
};
use crate::components::{
    board_matches_street, chips_sum, count_active_seats, moved_sum, players_of_seats,
    seat_chips, tracked_total, wf, Seat, Table,
};
use crate::deck::Deck;
use crate::states::HandoutState;

verus! {

proof fn lemma_chips_sum_same(s1: Seq<Seat>, s2: Seq<Seat>, n: int)
    requires
        0 <= n <= s1.len(),
        s1.len() == s2.len(),
        forall|k: int|
            0 <= k < s1.len() ==> (#[trigger] s1[k]).bankroll == s2[k].bankroll && s1[k].stack
                == s2[k].stack && s1[k].moved_chips == s2[k].moved_chips,
    ensures
        chips_sum(s1, n) == chips_sum(s2, n),
    decreases n,
{
    if n > 0 {
        lemma_chips_sum_same(s1, s2, n - 1);
    }
}

proof fn lemma_count_active_seats_same(s1: Seq<Seat>, s2: Seq<Seat>, n: int)
    requires
        0 <= n <= s1.len(),
        s1.len() == s2.len(),
        forall|k: int| 0 <= k < s1.len() ==> (#[trigger] s1[k]).is_active == s2[k].is_active,
    ensures
        count_active_seats(s1, n) == count_active_seats(s2, n),
    decreases n,
{
    if n > 0 {
        lemma_count_active_seats_same(s1, s2, n - 1);
    }
}

proof fn lemma_moved_sum_mono(s: Seq<Seat>, k: int, n: int)
    requires
        0 <= k <= n,
    ensures
        moved_sum(s, k) <= moved_sum(s, n),
        moved_sum(s, k) >= 0,
    decreases n,
{
    if k < n {
        lemma_moved_sum_mono(s, k, n - 1);
    } else if n > 0 {
        lemma_moved_sum_mono(s, k - 1, n - 1);
    }
}

proof fn lemma_chips_sum_minus_moved(s1: Seq<Seat>, s2: Seq<Seat>, n: int)
    requires
        0 <= n <= s1.len(),
        s1.len() == s2.len(),
        forall|k: int|
            0 <= k < s1.len() ==> s2[k] == (Seat { moved_chips: 0u32, ..(#[trigger] s1[k]) }),
    ensures
        chips_sum(s2, n) == chips_sum(s1, n) - moved_sum(s1, n),
    decreases n,
{
    if n > 0 {
        lemma_chips_sum_minus_moved(s1, s2, n - 1);
    }
}

proof fn lemma_chips_sum_update(s: Seq<Seat>, i: int, v: Seat, n: int)
    requires
        0 <= i < s.len(),
        0 <= n <= s.len(),
    ensures
        chips_sum(s.update(i, v), n) == chips_sum(s, n) + if i < n {
            seat_chips(v) - seat_chips(s[i])
        } else {
            0int
        },
    decreases n,
{
    if n > 0 {
        lemma_chips_sum_update(s, i, v, n - 1);
    }
}

/// Positions unchanged seat for seat keep the position permutation.
proof fn lemma_count_active_players(s: Seq<Seat>, n: int)
    requires
        0 <= n <= s.len(),
    ensures
        betting::count_active(players_of_seats(s), n) == count_active_seats(s, n),
    decreases n,
{
    if n > 0 {
        lemma_count_active_players(s, n - 1);
    }
}

proof fn lemma_perm_preserved(s1: Seq<Seat>, s2: Seq<Seat>)
    requires
        s1.len() == 6,
        s2.len() == 6,
        forall|k: int|
            0 <= k < 6 ==> (#[trigger] s1[k]).preflop_position == s2[k].preflop_position,
        position_perm(players_of_seats(s1)),
    ensures
        position_perm(players_of_seats(s2)),
{
    let ps1 = players_of_seats(s1);
    let ps2 = players_of_seats(s2);
    assert forall|i: int| 0 <= i < 6 implies (#[trigger] ps2[i]).position < 6 by {
        assert(ps1[i].position == ps2[i].position);
    }
    assert forall|i: int, j: int| 0 <= i < 6 && 0 <= j < 6 && i != j implies (
    #[trigger] ps2[i]).position != (#[trigger] ps2[j]).position by {
        assert(ps1[i].position == ps2[i].position);
        assert(ps1[j].position == ps2[j].position);
    }
    assert forall|p: u8| p < 6 implies betting::pos_index(ps2, p) >= 0 by {
        assert(betting::pos_index(ps1, p) >= 0);
        lemma_pos_index_same(ps1, ps2, p, 0);
    }
}

/// Sweep every seat's front into the pooled pot and decide what comes next:
/// payout when one seat remains, showdown after the river, otherwise the
/// next deal.
pub fn pool_moved_chips(table: &mut Table)
    requires
        old(table).state == HandoutState::ExpectingPool,
        wf(*old(table)),
        old(table).pooled_pot + moved_sum(old(table).seats@, 6) <= u32::MAX,
    ensures
        final(table).seats@.len() == 6,
        forall|k: int|
            0 <= k < 6 ==> final(table).seats@[k] == (Seat {
                moved_chips: 0u32,
                ..(#[trigger] old(table).seats@[k])
            }),
        final(table).pooled_pot == old(table).pooled_pot + moved_sum(old(table).seats@, 6),
        final(table).pot == old(table).pot,
        final(table).street == old(table).street,
        final(table).board@ == old(table).board@,
        final(table).state == (if count_active_seats(old(table).seats@, 6) == 1 {
            HandoutState::ExpectingWinningsAttribution
        } else if old(table).street == 3 {
            HandoutState::ExpectingShowdown
        } else {
            HandoutState::ExpectingDeal
        }),
        tracked_total(*final(table)) == tracked_total(*old(table)),
        wf(*final(table)),
{
    let ghost s0 = table.seats@;
    let mut k: usize = 0;
    while k < 6
        invariant
            table.seats@.len() == 6,
            s0.len() == 6,
            k <= 6,
            table.pot == old(table).pot,
            table.street == old(table).street,
            table.board@ == old(table).board@,
            table.state == old(table).state,
            s0 == old(table).seats@,
            old(table).pooled_pot + moved_sum(s0, 6) <= u32::MAX,
            table.pooled_pot == old(table).pooled_pot + moved_sum(s0, k as int),
            forall|j: int|
                0 <= j < k ==> table.seats@[j] == (Seat { moved_chips: 0u32, ..(#[trigger] s0[j]) }),
            forall|j: int| k <= j < 6 ==> table.seats@[j] == s0[j],
        decreases 6 - k,
    {
        let mut st = table.seats[k];
        proof {
            lemma_moved_sum_mono(s0, k as int, 6);
            lemma_moved_sum_mono(s0, k + 1, 6);
        }
        table.pooled_pot = table.pooled_pot + st.moved_chips;
        st.moved_chips = 0;
        table.seats[k] = st;
        k = k + 1;
    }
    let mut n_active: usize = 0;
    let mut k: usize = 0;
    while k < 6
        invariant
            table.seats@.len() == 6,
            k <= 6,
            n_active == count_active_seats(table.seats@, k as int),
            n_active <= k,
        decreases 6 - k,
    {
        if table.seats[k].is_active {
            n_active = n_active + 1;
        }
        k = k + 1;
    }
    proof {
        lemma_count_active_seats_same(table.seats@, old(table).seats@, 6);
    }
    if n_active == 1 {
        table.state = HandoutState::ExpectingWinningsAttribution;
    } else if table.street == 3 {
        table.state = HandoutState::ExpectingShowdown;
    } else {
        table.state = HandoutState::ExpectingDeal;
    }
    proof {
        lemma_chips_sum_minus_moved(old(table).seats@, table.seats@, 6);
        lemma_perm_preserved(old(table).seats@, table.seats@);
        assert forall|j: int| 0 <= j < 6 implies ((#[trigger] table.seats@[j]).is_hero <==> j
            == 3) by {
            assert(old(table).seats@[j].is_hero <==> j == 3);
        }
    }
}

/// Turn every remaining opponent's hole cards face up; the hero's already
/// are.
pub fn do_showdown(table: &mut Table)
    requires
        old(table).state == HandoutState::ExpectingShowdown,
        wf(*old(table)),
    ensures
        final(table).seats@.len() == 6,
        forall|k: int|
            0 <= k < 6 ==> final(table).seats@[k] == (Seat {
                hole_cards_face_up: old(table).seats@[k].hole_cards_face_up || (
                old(table).seats@[k].is_active && !old(table).seats@[k].is_hero),
                ..(#[trigger] old(table).seats@[k])
            }),
        final(table).pot == old(table).pot,
        final(table).pooled_pot == old(table).pooled_pot,
        final(table).street == old(table).street,
        final(table).board@ == old(table).board@,
        final(table).state == HandoutState::ShowdownMade,
        tracked_total(*final(table)) == tracked_total(*old(table)),
        wf(*final(table)),
{
    let ghost s0 = table.seats@;
    let mut k: usize = 0;
    while k < 6
        invariant
            table.seats@.len() == 6,
            s0.len() == 6,
            k <= 6,
            table.pot == old(table).pot,
            table.pooled_pot == old(table).pooled_pot,
            table.street == old(table).street,
            table.board@ == old(table).board@,
            table.state == old(table).state,
            s0 == old(table).seats@,
            forall|j: int|
                0 <= j < k ==> table.seats@[j] == (Seat {
                    hole_cards_face_up: s0[j].hole_cards_face_up || (s0[j].is_active
                        && !s0[j].is_hero),
                    ..(#[trigger] s0[j])
                }),
            forall|j: int| k <= j < 6 ==> table.seats@[j] == s0[j],
        decreases 6 - k,
    {
        let mut st = table.seats[k];
        if st.is_active && !st.is_hero {
            st.hole_cards_face_up = true;
        }
        table.seats[k] = st;
        k = k + 1;
    }
    table.state = HandoutState::ShowdownMade;
    proof {
        lemma_chips_sum_same(old(table).seats@, table.seats@, 6);
        lemma_perm_preserved(old(table).seats@, table.seats@);
        assert forall|j: int| 0 <= j < 6 implies ((#[trigger] table.seats@[j]).is_hero <==> j
            == 3) by {
            assert(old(table).seats@[j].is_hero <==> j == 3);
        }
    }
}

/// Leave the showdown on display, then move on to paying out the pot.
pub fn on_showdown_made(table: &mut Table)
    requires
        old(table).state == HandoutState::ShowdownMade,
    ensures
        final(table).seats@ == old(table).seats@,
        final(table).pot == old(table).pot,
        final(table).pooled_pot == old(table).pooled_pot,
        final(table).street == old(table).street,
        final(table).board@ == old(table).board@,
        final(table).state == HandoutState::ExpectingWinningsAttribution,
{
    table.state = HandoutState::ExpectingWinningsAttribution;
}


/// The seat whose turn it is: the first seat flagged in action.
pub open spec fn the_actor(t: Table) -> int {
    actor_of(players_of_seats(t.seats@))
}

/// A nonnegative move amount, capped by the actor's stack.
pub open spec fn clamp_amount(st: Seat, move_amount: i32) -> u32 {
    if move_amount as u32 <= st.stack {
        move_amount as u32
    } else {
        st.stack
    }
}

/// The seats after the move itself is applied, before the turn passes on:
/// a fold retires the actor and hides its cards; any other amount pushes
/// the clamped amount from the actor's stack to its front.
pub open spec fn mid_seats_of(t: Table, move_amount: i32) -> Seq<Seat> {
    let i = the_actor(t);
    let st = t.seats@[i];
    if move_amount < 0 {
        t.seats@.update(i, Seat { is_active: false, hole_cards_hidden: true, ..st })
    } else {
        let a = clamp_amount(st, move_amount);
        t.seats@.update(
            i,
            Seat {
                stack: (st.stack - a) as u32,
                moved_chips: (st.moved_chips + a) as u32,
                ..st
            },
        )
    }
}

/// The pot after the move: a fold adds nothing; a bet adds the clamped
/// amount.
pub open spec fn pot_after_move(t: Table, move_amount: i32) -> u32 {
    if move_amount < 0 {
        t.pot
    } else {
        (t.pot + clamp_amount(t.seats@[the_actor(t)], move_amount)) as u32
    }
}

/// Who acts after this move, by the betting rule on the updated seats.
pub open spec fn next_after_move(t: Table, move_amount: i32) -> Option<usize> {
    spec_next_actor(
        sorted_players(players_of_seats(mid_seats_of(t, move_amount)), t.street),
        t.street,
    )
}

/// Apply one move of the seat in action: a negative amount folds, any other
/// amount pushes `min(amount, stack)` chips forward and into the pot. Then
/// pass the turn to the next actor the betting rule picks, or close the
/// round.
#[verifier::rlimit(100)]
pub fn make_move(table: &mut Table, move_amount: i32)
    requires
        old(table).state == HandoutState::ExpectingMove,
        wf(*old(table)),
        the_actor(*old(table)) >= 0,
        count_in_action(players_of_seats(old(table).seats@), 6) == 1,
        chips_bounded(players_of_seats(old(table).seats@), old(table).pot),
    ensures
        final(table).seats@.len() == 6,
        forall|k: int|
            0 <= k < 6 ==> final(table).seats@[k] == (Seat {
                in_action: next_after_move(*old(table), move_amount) == Some(k as usize),
                ..(#[trigger] mid_seats_of(*old(table), move_amount)[k])
            }),
        final(table).pot == pot_after_move(*old(table), move_amount),
        final(table).pooled_pot == old(table).pooled_pot,
        final(table).street == old(table).street,
        final(table).board@ == old(table).board@,
        final(table).state == (if next_after_move(*old(table), move_amount) is Some {
            HandoutState::ExpectingMove
        } else {
            HandoutState::ExpectingPool
        }),
        tracked_total(*final(table)) == tracked_total(*old(table)),
        wf(*final(table)),
{
    let ghost t0 = *old(table);
    let ghost ps0 = players_of_seats(t0.seats@);
    let ghost mid = mid_seats_of(t0, move_amount);
    let mut ai: usize = 0;
    let mut found = false;
    let mut k: usize = 0;
    while k < 6
        invariant
            *table == t0,
            t0.seats@.len() == 6,
            k <= 6,
            betting::actor_from(ps0, 0) == betting::actor_from(ps0, k as int) || found,
            found ==> ai as int == the_actor(t0) && ai < 6,
            the_actor(t0) >= 0,
            count_in_action(ps0, 6) == 1,
            ps0 == players_of_seats(t0.seats@),
        decreases 6 - k,
    {
        if !found && table.seats[k].in_action {
            found = true;
            ai = k;
            proof {
                assert(ps0[k as int].in_action);
                betting::lemma_actor_char(ps0, 0);
                lemma_actor_unique_seats(ps0, k as int);
            }
        }
        k = k + 1;
    }
    proof {
        if !found {
            betting::lemma_actor_char(ps0, 0);
            assert(ps0[the_actor(t0)].in_action);
            assert(false);
        }
    }
    proof {
        assert(ps0[ai as int].stack <= betting::BETTING_CHIP_MAX && ps0[ai as int].front
            <= betting::BETTING_CHIP_MAX);
        assert(table.seats@[ai as int].stack <= betting::BETTING_CHIP_MAX
            && table.seats@[ai as int].moved_chips <= betting::BETTING_CHIP_MAX);
    }
    let mut st = table.seats[ai];
    if move_amount < 0 {
        st.is_active = false;
        st.hole_cards_hidden = true;
        table.seats[ai] = st;
    } else {
        let m = move_amount as u32;
        let a = if m <= st.stack {
            m
        } else {
            st.stack
        };
        st.moved_chips = st.moved_chips + a;
        st.stack = st.stack - a;
        table.seats[ai] = st;
        table.pot = table.pot + a;
    }
    proof {
        assert(table.seats@ == mid);
        assert(table.pot == pot_after_move(t0, move_amount));
        lemma_perm_preserved(t0.seats@, mid);
    }
    let mut players: Vec<Player> = Vec::new();
    let mut k: usize = 0;
    while k < 6
        invariant
            table.seats@.len() == 6,
            table.seats@ == mid,
            k <= 6,
            players@.len() == k,
            forall|j: int| 0 <= j < k ==> #[trigger] players@[j] == players_of_seats(mid)[j],
        decreases 6 - k,
    {
        let seat = table.seats[k];
        players.push(
            Player {
                id: k,
                position: seat.preflop_position,
                stack: seat.stack,
                front: seat.moved_chips,
                is_active: seat.is_active,
                in_action: seat.in_action,
            },
        );
        k = k + 1;
    }
    proof {
        assert(players@ =~= players_of_seats(mid));
    }
    let betting_engine = Betting::new(&players, table.pot, table.street);
    let next = betting_engine.next_actor_id();
    proof {
        assert(betting_engine.players@ == sorted_players(players_of_seats(mid), t0.street));
        assert(next == next_after_move(t0, move_amount));
        lemma_sorted_ids_bound(players_of_seats(mid), t0.street);
        betting::lemma_next_actor_id_bound(
            sorted_players(players_of_seats(mid), t0.street),
            t0.street,
        );
    }
    let mut st2 = table.seats[ai];
    st2.in_action = false;
    table.seats[ai] = st2;
    match next {
        Some(next_id) => {
            let mut st3 = table.seats[next_id];
            st3.in_action = true;
            table.seats[next_id] = st3;
            table.state = HandoutState::ExpectingMove;
        },
        None => {
            table.state = HandoutState::ExpectingPool;
        },
    }
    proof {
        assert forall|j: int| 0 <= j < 6 implies table.seats@[j] == (Seat {
            in_action: next_after_move(t0, move_amount) == Some(j as usize),
            ..(#[trigger] mid[j])
        }) by {
            if j != ai as int {
                assert(!t0.seats@[j].in_action) by {
                    if t0.seats@[j].in_action {
                        assert(ps0[j].in_action);
                        lemma_actor_unique_seats(ps0, j);
                    }
                }
                assert(!mid[j].in_action);
            }
        }
        lemma_chips_sum_update(t0.seats@, the_actor(t0), mid[the_actor(t0)], 6);
        lemma_chips_sum_same(mid, table.seats@, 6);
        lemma_perm_preserved(t0.seats@, table.seats@);
        assert forall|j: int| 0 <= j < 6 implies ((#[trigger] table.seats@[j]).is_hero <==> j
            == 3) by {
            assert(t0.seats@[j].is_hero <==> j == 3);
        }
    }
}

/// With exactly one player in action, any player found in action is the
/// first one.
proof fn lemma_actor_unique_seats(ps: Seq<Player>, j: int)
    requires
        ps.len() == 6,
        count_in_action(ps, 6) == 1,
        0 <= j < 6,
        ps[j].in_action,
        actor_of(ps) >= 0,
    ensures
        actor_of(ps) == j,
{
    betting::lemma_actor_char(ps, 0);
    betting::lemma_actor_unique(ps, actor_of(ps), j);
}

/// The players of a sorted table view all carry seat ids below six.
proof fn lemma_sorted_ids_bound(ps: Seq<Player>, street: u8)
    requires
        position_perm(ps),
        forall|k: int| 0 <= k < 6 ==> (#[trigger] ps[k]).id < 6,
    ensures
        forall|k: int|
            0 <= k < 6 ==> (#[trigger] sorted_players(ps, street)[k]).id < 6,
{
    assert forall|k: int| 0 <= k < 6 implies (#[trigger] sorted_players(ps, street)[k]).id
        < 6 by {
        let p = spec_action_order(street, k);
        assert(p < 6);
        assert(betting::pos_index(ps, p) >= 0);
        betting::lemma_pos_index_char(ps, p, 0);
        assert(sorted_players(ps, street)[k] == ps[betting::pos_index(ps, p)]);
    }
}


/// The betting view of the table's seats, in seat order.
pub fn table_players(table: &Table) -> (r: Vec<Player>)
    requires
        wf(*table),
    ensures
        r@ == players_of_seats(table.seats@),
{
    let mut players: Vec<Player> = Vec::new();
    let mut k: usize = 0;
    while k < 6
        invariant
            table.seats@.len() == 6,
            k <= 6,
            players@.len() == k,
            forall|j: int|
                0 <= j < k ==> #[trigger] players@[j] == players_of_seats(table.seats@)[j],
        decreases 6 - k,
    {
        let seat = table.seats[k];
        players.push(
            Player {
                id: k,
                position: seat.preflop_position,
                stack: seat.stack,
                front: seat.moved_chips,
                is_active: seat.is_active,
                in_action: seat.in_action,
            },
        );
        k = k + 1;
    }
    proof {
        assert(players@ =~= players_of_seats(table.seats@));
    }
    players
}

/// Relies on rand's `WeightedIndex::new` and `Distribution::sample`: the
/// sampled index is a valid index into the weights, each index drawn with
/// probability proportional to its weight.
#[verifier::external_body]
fn pick_weighted_index(weights: &Vec<u32>) -> (r: usize)
    requires
        1 <= weights@.len() <= 8,
        forall|i: int| 0 <= i < weights@.len() ==> 1 <= (#[trigger] weights@[i]) <= 1000,
    ensures
        0 <= r < weights@.len(),
{
    let dist = rand::distributions::WeightedIndex::new(weights).unwrap();
    dist.sample(&mut rand::thread_rng())
}

/// Pick the bot's move from the legal options, weighted as the policy
/// prescribes: preflop 7-2-1 over fold, call and raise; postflop an even
/// coin over check and raise, or 6-3-1 over fold, call and raise.
pub fn choose_bot_move(betting_engine: &Betting) -> (r: i32)
    requires
        betting_engine.players@.len() == 6,
        actor_of(betting_engine.players@) >= 0,
        chips_bounded(betting_engine.players@, betting_engine.pot),
    ensures
        spec_move_list(*betting_engine).contains(r),
{
    let options = betting_engine.move_options();
    let mut weights: Vec<u32> = Vec::new();
    if betting_engine.street == 0 {
        weights.push(7);
        weights.push(2);
        weights.push(1);
    } else if options.len() == 2 {
        weights.push(5);
        weights.push(5);
    } else {
        weights.push(6);
        weights.push(3);
        weights.push(1);
    }
    let n = if options.len() <= weights.len() {
        options.len()
    } else {
        weights.len()
    };
    let mut used: Vec<u32> = Vec::new();
    let mut k: usize = 0;
    while k < n
        invariant
            n <= weights@.len(),
            n <= options@.len(),
            forall|j: int| 0 <= j < weights@.len() ==> 1 <= (#[trigger] weights@[j]) <= 1000,
            k <= n,
            used@.len() == k,
            forall|j: int| 0 <= j < k ==> #[trigger] used@[j] == weights@[j],
        decreases n - k,
    {
        used.push(weights[k]);
        k = k + 1;
    }
    proof {
        assert(options@.len() >= 2);
        assert(n >= 2);
    }
    let idx = pick_weighted_index(&used);
    options[idx]
}

/// Deal the community cards the street calls for (three for the flop, then
/// one for the turn and one for the river), advance the street, and hand
/// the turn to the first active seat in the new action order.
#[verifier::rlimit(60)]
pub fn deal_community_cards(table: &mut Table, deck: &mut Deck)
    requires
        old(table).state == HandoutState::ExpectingDeal,
        wf(*old(table)),
        old(table).street <= 2,
        board_matches_street(*old(table)),
        actor_of(players_of_seats(old(table).seats@)) < 0,
        count_active_seats(old(table).seats@, 6) >= 2,
        old(deck)@.len() >= (if old(table).street == 0 {
            3int
        } else {
            1int
        }),
        forall|i: int| 0 <= i < old(deck)@.len() ==> (#[trigger] old(deck)@[i]).0 < 52,
    ensures
        final(table).seats@.len() == 6,
        final(table).street == old(table).street + 1,
        final(table).board@ == (if old(table).street == 0 {
            old(table).board@.update(0, old(deck)@[0]).update(1, old(deck)@[1]).update(
                2,
                old(deck)@[2],
            )
        } else if old(table).street == 1 {
            old(table).board@.update(3, old(deck)@[0])
        } else {
            old(table).board@.update(4, old(deck)@[0])
        }),
        final(deck)@ == (if old(table).street == 0 {
            old(deck)@.skip(3)
        } else {
            old(deck)@.skip(1)
        }),
        spec_deal_next(*old(table)) is Some,
        forall|k: int|
            0 <= k < 6 ==> final(table).seats@[k] == (Seat {
                in_action: spec_deal_next(*old(table)) == Some(k as usize),
                ..(#[trigger] old(table).seats@[k])
            }),
        final(table).pot == old(table).pot,
        final(table).pooled_pot == old(table).pooled_pot,
        final(table).state == HandoutState::ExpectingMove,
        tracked_total(*final(table)) == tracked_total(*old(table)),
        wf(*final(table)),
        board_matches_street(*final(table)),
{
    let ghost t0 = *old(table);
    let ghost ps0 = players_of_seats(t0.seats@);
    if !table.board[0].is_defined() {
        let c0 = deck.draw();
        let c1 = deck.draw();
        let c2 = deck.draw();
        table.board[0] = c0;
        table.board[1] = c1;
        table.board[2] = c2;
        table.street = 1;
        proof {
            assert(t0.street == 0) by {
                if t0.street == 1 || t0.street == 2 {
                    assert(t0.board@[0].0 < 52);
                }
            }
            assert(final(deck)@ =~= old(deck)@.skip(3));
        }
    } else if !table.board[3].is_defined() {
        let c0 = deck.draw();
        table.board[3] = c0;
        table.street = 2;
        proof {
            assert(t0.street == 1) by {
                if t0.street == 0 {
                    assert(t0.board@[0].0 == UNDEFINED_CARD);
                }
                if t0.street == 2 {
                    assert(t0.board@[3].0 < 52);
                }
            }
            assert(final(deck)@ =~= old(deck)@.skip(1));
        }
    } else {
        let c0 = deck.draw();
        table.board[4] = c0;
        table.street = 3;
        proof {
            assert(t0.street == 2) by {
                if t0.street == 0 {
                    assert(t0.board@[0].0 == UNDEFINED_CARD);
                }
                if t0.street == 1 {
                    assert(t0.board@[3].0 == UNDEFINED_CARD);
                }
            }
            assert(final(deck)@ =~= old(deck)@.skip(1));
        }
    }
    let players = table_players(table);
    proof {
        assert(players@ =~= ps0);
    }
    let betting_engine = Betting::new(&players, table.pot, table.street);
    let next = betting_engine.next_actor_id();
    proof {
        let street1 = t0.street + 1;
        assert(table.street == street1);
        let sorted = sorted_players(ps0, street1 as u8);
        lemma_count_active_players(t0.seats@, 6);
        betting::lemma_sorted_count_active(ps0, street1 as u8);
        assert forall|k: int| 0 <= k < 6 implies !(#[trigger] ps0[k]).in_action by {
            if ps0[k].in_action {
                betting::lemma_actor_char(ps0, 0);
                assert(actor_of(ps0) >= 0);
            }
        }
        betting::lemma_sorted_no_actor(ps0, street1 as u8);
        betting::lemma_actor_char(sorted, 0);
        if actor_of(sorted) >= 0 {
            assert(false);
        }
        betting::lemma_first_active_char(sorted, 0);
        if betting::first_active_from(sorted, 0) < 0 {
            betting::lemma_count_active_none(sorted, 6);
            assert(false);
        }
        assert(spec_deal_next(t0) is Some);
        lemma_sorted_ids_bound(ps0, street1 as u8);
        betting::lemma_next_actor_id_bound(sorted, street1 as u8);
        assert(next == spec_deal_next(t0));
    }
    let next_id = match next {
        Some(id) => id,
        None => {
            proof {
                assert(false);
            }
            0
        },
    };
    let mut st = table.seats[next_id];
    st.in_action = true;
    table.seats[next_id] = st;
    table.state = HandoutState::ExpectingMove;
    proof {
        assert forall|j: int| 0 <= j < 6 implies table.seats@[j] == (Seat {
            in_action: spec_deal_next(t0) == Some(j as usize),
            ..(#[trigger] t0.seats@[j])
        }) by {
            if j != next_id as int {
                assert(!t0.seats@[j].in_action) by {
                    if t0.seats@[j].in_action {
                        assert(ps0[j].in_action);
                        betting::lemma_actor_char(ps0, 0);
                    }
                }
            }
        }
        lemma_chips_sum_same(t0.seats@, table.seats@, 6);
        lemma_perm_preserved(t0.seats@, table.seats@);
        assert forall|j: int| 0 <= j < 6 implies ((#[trigger] table.seats@[j]).is_hero <==> j
            == 3) by {
            assert(t0.seats@[j].is_hero <==> j == 3);
        }
    }
}

/// Who acts first on the street the deal opens: the betting rule applied to
/// the unchanged seats on the next street.
pub open spec fn spec_deal_next(t: Table) -> Option<usize> {
    spec_next_actor(
        sorted_players(players_of_seats(t.seats@), (t.street + 1) as u8),
        (t.street + 1) as u8,
    )
}


/// The seven cards seat `k` can use: the board and its two hole cards.
pub open spec fn seat_hand(t: Table, k: int) -> Seq<Card> {
    t.board@ + seq![t.seats@[k].hole_cards[0], t.seats@[k].hole_cards[1]]
}

/// The holdings of the active seats among the first `n`, in seat order.
pub open spec fn active_hands(t: Table, n: int) -> Seq<Seq<Card>>
    decreases n,
{
    if n <= 0 {
        Seq::empty()
    } else if t.seats@[n - 1].is_active {
        active_hands(t, n - 1).push(seat_hand(t, n - 1))
    } else {
        active_hands(t, n - 1)
    }
}

proof fn lemma_active_hands_len(t: Table, n: int)
    requires
        0 <= n,
    ensures
        active_hands(t, n).len() == count_active_seats(t.seats@, n),
    decreases n,
{
    if n > 0 {
        lemma_active_hands_len(t, n - 1);
    } else {
        betting::lemma_count_in_action_nonneg(players_of_seats(t.seats@), 0);
    }
}

/// The chips the winners share: the pot split evenly, any remainder
/// dropped; zero if no holding wins.
pub open spec fn spec_win_share(t: Table) -> u32 {
    let ws = winners_of(active_hands(t, 6));
    if ws.len() > 0 {
        (t.pot as int / ws.len() as int) as u32
    } else {
        0u32
    }
}

/// Whether seat `k` collects a share: it is active and its index among the
/// active seats is one of the winning indices.
pub open spec fn seat_wins(t: Table, k: int) -> bool {
    t.seats@[k].is_active && winners_of(active_hands(t, 6)).contains(
        count_active_seats(t.seats@, k) as usize,
    )
}

fn contains_usize(v: &Vec<usize>, x: usize) -> (r: bool)
    ensures
        r == v@.contains(x),
{
    let n = v.len();
    let mut j: usize = 0;
    while j < n
        invariant
            n == v@.len(),
            j <= n,
            forall|i: int| 0 <= i < j ==> v@[i] != x,
        decreases n - j,
    {
        if v[j] == x {
            return true;
        }
        j = j + 1;
    }
    proof {
        if v@.contains(x) {
            let i = choose|i: int| 0 <= i < v@.len() && v@[i] == x;
        }
    }
    false
}

/// Award the pot. A lone active seat takes it whole; otherwise the active
/// seats' seven-card holdings go to the comparator and the pot is split
/// evenly among the winners, dropping any remainder. Shares land in the
/// winners' fronts; the pot is emptied.
#[verifier::rlimit(100)]
pub fn attribute_winnings(table: &mut Table)
    requires
        old(table).state == HandoutState::ExpectingWinningsAttribution,
        wf(*old(table)),
        count_active_seats(old(table).seats@, 6) >= 1,
        forall|k: int|
            0 <= k < 6 ==> (#[trigger] old(table).seats@[k]).moved_chips + old(table).pot
                <= u32::MAX,
        count_active_seats(old(table).seats@, 6) >= 2 ==> forall|k: int|
            0 <= k < 6 && (#[trigger] old(table).seats@[k]).is_active ==> table_hand_ok(
                seat_hand(*old(table), k),
            ),
    ensures
        final(table).seats@.len() == 6,
        count_active_seats(old(table).seats@, 6) == 1 ==> forall|k: int|
            0 <= k < 6 ==> final(table).seats@[k] == (Seat {
                moved_chips: (old(table).seats@[k].moved_chips + if old(
                    table,
                ).seats@[k].is_active {
                    old(table).pot
                } else {
                    0u32
                }) as u32,
                ..(#[trigger] old(table).seats@[k])
            }),
        count_active_seats(old(table).seats@, 6) >= 2 ==> forall|k: int|
            0 <= k < 6 ==> final(table).seats@[k] == (Seat {
                moved_chips: (old(table).seats@[k].moved_chips + if seat_wins(*old(table), k) {
                    spec_win_share(*old(table))
                } else {
                    0u32
                }) as u32,
                ..(#[trigger] old(table).seats@[k])
            }),
        final(table).pot == 0,
        final(table).pooled_pot == old(table).pooled_pot,
        final(table).street == old(table).street,
        final(table).board@ == old(table).board@,
        final(table).state == HandoutState::HandoutEnded,
        wf(*final(table)),
{
    let ghost t0 = *old(table);
    let mut n_active: usize = 0;
    let mut k: usize = 0;
    while k < 6
        invariant
            *table == t0,
            t0.seats@.len() == 6,
            k <= 6,
            n_active == count_active_seats(t0.seats@, k as int),
            n_active <= k,
        decreases 6 - k,
    {
        if table.seats[k].is_active {
            n_active = n_active + 1;
        }
        k = k + 1;
    }
    if n_active == 1 {
        let pot = table.pot;
        let mut k: usize = 0;
        while k < 6
            invariant
                table.seats@.len() == 6,
                t0.seats@.len() == 6,
                k <= 6,
                pot == t0.pot,
                table.pot == t0.pot,
                table.pooled_pot == t0.pooled_pot,
                table.street == t0.street,
                table.board@ == t0.board@,
                table.state == t0.state,
                forall|j: int|
                    0 <= j < 6 ==> (#[trigger] t0.seats@[j]).moved_chips + t0.pot <= u32::MAX,
                forall|j: int|
                    0 <= j < k ==> table.seats@[j] == (Seat {
                        moved_chips: (t0.seats@[j].moved_chips + if t0.seats@[j].is_active {
                            t0.pot
                        } else {
                            0u32
                        }) as u32,
                        ..(#[trigger] t0.seats@[j])
                    }),
                forall|j: int| k <= j < 6 ==> table.seats@[j] == t0.seats@[j],
            decreases 6 - k,
        {
            let mut st = table.seats[k];
            proof {
                assert(table.seats@[k as int] == t0.seats@[k as int]);
                assert(t0.seats@[k as int].moved_chips + t0.pot <= u32::MAX);
            }
            if st.is_active {
                st.moved_chips = st.moved_chips + pot;
            }
            table.seats[k] = st;
            k = k + 1;
        }
        table.pot = 0;
        table.state = HandoutState::HandoutEnded;
        proof {
            lemma_perm_preserved(t0.seats@, table.seats@);
            assert forall|j: int| 0 <= j < 6 implies ((#[trigger] table.seats@[j]).is_hero <==> j
                == 3) by {
                assert(t0.seats@[j].is_hero <==> j == 3);
            }
        }
        return ;
    }
    let mut hands: Vec<Vec<Card>> = Vec::new();
    let mut k: usize = 0;
    while k < 6
        invariant
            *table == t0,
            t0.seats@.len() == 6,
            t0.board@.len() == 5,
            k <= 6,
            hands@.len() == count_active_seats(t0.seats@, k as int),
            forall|j: int|
                0 <= j < hands@.len() ==> #[trigger] hands@[j]@ == active_hands(t0, k as int)[j],
            active_hands(t0, k as int).len() == hands@.len(),
            count_active_seats(t0.seats@, 6) >= 2,
            forall|j: int|
                0 <= j < 6 && (#[trigger] t0.seats@[j]).is_active ==> table_hand_ok(
                    seat_hand(t0, j),
                ),
            forall|j: int|
                0 <= j < hands@.len() ==> table_hand_ok(#[trigger] hands@[j]@),
        decreases 6 - k,
    {
        proof {
            lemma_active_hands_len(t0, k as int);
            lemma_active_hands_len(t0, k + 1);
        }
        let st = table.seats[k];
        if st.is_active {
            let mut h: Vec<Card> = Vec::new();
            let mut b: usize = 0;
            while b < 5
                invariant
                    *table == t0,
                    t0.board@.len() == 5,
                    b <= 5,
                    h@.len() == b,
                    forall|i: int| 0 <= i < b ==> #[trigger] h@[i] == t0.board@[i],
                decreases 5 - b,
            {
                h.push(table.board[b]);
                b = b + 1;
            }
            h.push(st.hole_cards[0]);
            h.push(st.hole_cards[1]);
            proof {
                assert(h@ =~= seat_hand(t0, k as int));
            }
            hands.push(h);
        }
        k = k + 1;
    }
    proof {
        lemma_active_hands_len(t0, 6);
        assert(hands@.len() >= 2);
        assert(hands_view(hands@) =~~= active_hands(t0, 6));
    }
    let winning_hand_indices = compare_hands(&hands);
    proof {
        assert(winning_hand_indices@ == winners_of(active_hands(t0, 6)));
        lemma_winners_len(active_hands(t0, 6), active_hands(t0, 6).len() as int);
    }
    let win_amount: u32 = if winning_hand_indices.len() > 0 {
        table.pot / (winning_hand_indices.len() as u32)
    } else {
        0
    };
    proof {
        assert(win_amount == spec_win_share(t0));
        assert(win_amount <= t0.pot) by {
            if winners_of(active_hands(t0, 6)).len() > 0 {
                assert(t0.pot as int / winners_of(active_hands(t0, 6)).len() as int
                    <= t0.pot as int) by (nonlinear_arith)
                    requires
                        winners_of(active_hands(t0, 6)).len() >= 1,
                        t0.pot >= 0,
                ;
            }
        }
    }
    let mut r: usize = 0;
    let mut k: usize = 0;
    while k < 6
        invariant
            table.seats@.len() == 6,
            t0.seats@.len() == 6,
            k <= 6,
            table.pot == t0.pot,
            table.pooled_pot == t0.pooled_pot,
            table.street == t0.street,
            table.board@ == t0.board@,
            table.state == t0.state,
            win_amount == spec_win_share(t0),
            win_amount <= t0.pot,
            winning_hand_indices@ == winners_of(active_hands(t0, 6)),
            forall|j: int|
                0 <= j < 6 ==> (#[trigger] t0.seats@[j]).moved_chips + t0.pot <= u32::MAX,
            r == count_active_seats(t0.seats@, k as int),
            r <= k,
            forall|j: int|
                0 <= j < k ==> table.seats@[j] == (Seat {
                    moved_chips: (t0.seats@[j].moved_chips + if seat_wins(t0, j) {
                        spec_win_share(t0)
                    } else {
                        0u32
                    }) as u32,
                    ..(#[trigger] t0.seats@[j])
                }),
            forall|j: int| k <= j < 6 ==> table.seats@[j] == t0.seats@[j],
        decreases 6 - k,
    {
        let mut st = table.seats[k];
        proof {
            assert(table.seats@[k as int] == t0.seats@[k as int]);
            assert(t0.seats@[k as int].moved_chips + t0.pot <= u32::MAX);
        }
        if st.is_active {
            if contains_usize(&winning_hand_indices, r) {
                st.moved_chips = st.moved_chips + win_amount;
            }
            table.seats[k] = st;
            r = r + 1;
        } else {
            table.seats[k] = st;
        }
        k = k + 1;
    }
    table.pot = 0;
    table.state = HandoutState::HandoutEnded;
    proof {
        lemma_perm_preserved(t0.seats@, table.seats@);
        assert forall|j: int| 0 <= j < 6 implies ((#[trigger] table.seats@[j]).is_hero <==> j
            == 3) by {
            assert(t0.seats@[j].is_hero <==> j == 3);
        }
    }
}


/// The bankroll a seat keeps after its winnings are merged and a short
/// stack is topped back up toward 200, bounded by the bankroll.
pub open spec fn settled_bankroll(seat: Seat) -> u32 {
    let merged = seat.stack + seat.moved_chips;
    if merged < 2 {
        if 200 - merged <= seat.bankroll {
            (seat.bankroll - (200 - merged)) as u32
        } else {
            0u32
        }
    } else {
        seat.bankroll
    }
}

/// The stack a seat starts the next hand with, before its blind is posted.
pub open spec fn settled_stack(seat: Seat) -> u32 {
    let merged = seat.stack + seat.moved_chips;
    if merged < 2 {
        if 200 - merged <= seat.bankroll {
            200u32
        } else {
            (merged + seat.bankroll) as u32
        }
    } else {
        merged as u32
    }
}

/// The blind a position owes: two chips at the big blind, one at the small
/// blind, none elsewhere.
pub open spec fn blind_of(p: u8) -> u32 {
    if p == 0 {
        2u32
    } else if p == 1 {
        1u32
    } else {
        0u32
    }
}

/// Every seat that can cover a blind leaves the settlement with at least
/// the big blind behind its posted chips, or with an empty bankroll: the
/// settlement tops a short stack up toward 200 before the blinds are
/// posted. A seat whose merged stack is exactly 2 or 3 with chips still in
/// the bankroll is the one exception and is excluded here: it is too rich
/// to be topped up and too poor to cover the big blind twice.
pub proof fn lemma_handout_leaves_playable(seat: Seat, p: u8)
    requires
        seat.bankroll + seat.stack + seat.moved_chips >= 2,
        seat.bankroll + seat.stack + seat.moved_chips <= u32::MAX,
        seat.stack + seat.moved_chips < 2 || seat.stack + seat.moved_chips >= 4,
        p < 6,
    ensures
        settled_stack(seat) - blind_of(p) >= 2 || settled_bankroll(seat) == 0,
{
    let merged = seat.stack + seat.moved_chips;
    if merged < 2 {
        if 200 - merged <= seat.bankroll {
            assert(settled_stack(seat) == 200);
        } else {
            assert(settled_bankroll(seat) == 0);
        }
    } else {
        assert(settled_stack(seat) == merged);
    }
}

/// Settle the ended hand and start the next one: merge each seat's
/// winnings into its stack, top up short stacks from the bankroll toward
/// 200, rotate the positions, post the blinds, reactivate every seat, hand
/// the turn to position 5, reset the board and pots, and deal two fresh
/// hole cards from a newly shuffled deck.
#[verifier::rlimit(100)]
pub fn start_new_handout(table: &mut Table, deck: &mut Deck)
    requires
        old(table).state == HandoutState::HandoutEnded,
        wf(*old(table)),
        forall|k: int| 0 <= k < 6 ==> seat_chips(#[trigger] old(table).seats@[k]) >= 2,
        forall|k: int| 0 <= k < 6 ==> seat_chips(#[trigger] old(table).seats@[k]) <= u32::MAX,
    ensures
        final(table).seats@.len() == 6,
        forall|k: int|
            0 <= k < 6 ==> final(table).seats@[k] == (Seat {
                hole_cards: final(table).seats@[k].hole_cards,
                bankroll: settled_bankroll(old(table).seats@[k]),
                stack: (settled_stack(old(table).seats@[k]) - blind_of(
                    ((old(table).seats@[k].preflop_position + 1) % 6) as u8,
                )) as u32,
                moved_chips: blind_of(((old(table).seats@[k].preflop_position + 1) % 6) as u8),
                preflop_position: ((old(table).seats@[k].preflop_position + 1) % 6) as u8,
                is_active: true,
                in_action: ((old(table).seats@[k].preflop_position + 1) % 6) == 5,
                is_hero: old(table).seats@[k].is_hero,
                hole_cards_face_up: old(table).seats@[k].is_hero,
                hole_cards_hidden: false,
                ..(#[trigger] old(table).seats@[k])
            }),
        exists|d: Seq<Card>|
            {
                &&& d.len() == 52
                &&& d.to_multiset() == crate::card::full_deck_seq().to_multiset()
                &&& (forall|i: int| 0 <= i < 52 ==> (#[trigger] d[i]).0 < 52)
                &&& final(deck)@ == d.skip(12)
                &&& forall|k: int|
                    0 <= k < 6 ==> (#[trigger] final(table).seats@[k]).hole_cards[0] == d[2 * k]
                        && final(table).seats@[k].hole_cards[1] == d[2 * k + 1]
            },
        final(deck)@.len() == 40,
        forall|i: int| 0 <= i < 5 ==> (#[trigger] final(table).board@[i]).0 == UNDEFINED_CARD,
        final(table).board@.len() == 5,
        final(table).pot == 3,
        final(table).pooled_pot == 0,
        final(table).street == 0,
        final(table).state == HandoutState::ExpectingMove,
        chips_sum(final(table).seats@, 6) == chips_sum(old(table).seats@, 6),
        wf(*final(table)),
        board_matches_street(*final(table)),
{
    let ghost t0 = *old(table);
    proof {
        let ps0 = players_of_seats(t0.seats@);
        assert forall|j: int| 0 <= j < 6 implies (#[trigger] t0.seats@[j]).preflop_position
            < 6 by {
            assert(ps0[j].position < 6);
        }
    }
    *deck = Deck::new_shuffled();
    let ghost d = deck@;
    let mut k: usize = 0;
    while k < 6
        invariant
            table.seats@.len() == 6,
            t0.seats@.len() == 6,
            k <= 6,
            table.pot == t0.pot,
            table.pooled_pot == t0.pooled_pot,
            table.street == t0.street,
            table.board@ == t0.board@,
            table.state == t0.state,
            d.len() == 52,
            d.to_multiset() == crate::card::full_deck_seq().to_multiset(),
            forall|i: int| 0 <= i < 52 ==> (#[trigger] d[i]).0 < 52,
            deck@ == d.skip(2 * k),
            forall|j: int| 0 <= j < 6 ==> (#[trigger] t0.seats@[j]).preflop_position < 6,
            forall|j: int| 0 <= j < 6 ==> seat_chips(#[trigger] t0.seats@[j]) >= 2,
            forall|j: int| 0 <= j < 6 ==> seat_chips(#[trigger] t0.seats@[j]) <= u32::MAX,
            forall|j: int|
                0 <= j < k ==> #[trigger] table.seats@[j] == (Seat {
                    hole_cards: table.seats@[j].hole_cards,
                    bankroll: settled_bankroll(t0.seats@[j]),
                    stack: (settled_stack(t0.seats@[j]) - blind_of(
                        ((t0.seats@[j].preflop_position + 1) % 6) as u8,
                    )) as u32,
                    moved_chips: blind_of(((t0.seats@[j].preflop_position + 1) % 6) as u8),
                    preflop_position: ((t0.seats@[j].preflop_position + 1) % 6) as u8,
                    is_active: true,
                    in_action: ((t0.seats@[j].preflop_position + 1) % 6) == 5,
                    is_hero: t0.seats@[j].is_hero,
                    hole_cards_face_up: t0.seats@[j].is_hero,
                    hole_cards_hidden: false,
                    ..t0.seats@[j]
                }),
            forall|j: int|
                0 <= j < k ==> (#[trigger] table.seats@[j]).hole_cards[0] == d[2 * j]
                    && table.seats@[j].hole_cards[1] == d[2 * j + 1],
            forall|j: int| k <= j < 6 ==> #[trigger] table.seats@[j] == t0.seats@[j],
        decreases 6 - k,
    {
        let mut st = table.seats[k];
        proof {
            assert(table.seats@[k as int] == t0.seats@[k as int]);
            assert(seat_chips(t0.seats@[k as int]) >= 2);
            assert(seat_chips(t0.seats@[k as int]) <= u32::MAX);
        }
        st.stack = st.stack + st.moved_chips;
        st.moved_chips = 0;
        if st.stack < 2 {
            let top_up_amount = if 200 - st.stack <= st.bankroll {
                200 - st.stack
            } else {
                st.bankroll
            };
            st.stack = st.stack + top_up_amount;
            st.bankroll = st.bankroll - top_up_amount;
        }
        proof {
            let s0k = t0.seats@[k as int];
            let merged = s0k.stack + s0k.moved_chips;
            if merged < 2 {
                if 200 - merged <= s0k.bankroll {
                    assert(st.stack == 200 && settled_stack(s0k) == 200);
                } else {
                    assert(st.bankroll == 0 && settled_bankroll(s0k) == 0);
                    assert(st.stack == merged + s0k.bankroll);
                    assert(merged + s0k.bankroll >= 2);
                }
            }
            assert(st.stack == settled_stack(t0.seats@[k as int]));
            assert(st.bankroll == settled_bankroll(t0.seats@[k as int]));
            assert(st.stack >= 2);
        }
        st.preflop_position = (st.preflop_position + 1) % 6;
        if st.preflop_position == 0 {
            st.stack = st.stack - 2;
            st.moved_chips = st.moved_chips + 2;
        }
        if st.preflop_position == 1 {
            st.stack = st.stack - 1;
            st.moved_chips = st.moved_chips + 1;
        }
        st.is_active = true;
        st.in_action = st.preflop_position == 5;
        st.hole_cards_face_up = st.is_hero;
        st.hole_cards_hidden = false;
        proof {
            assert(deck@.len() == 52 - 2 * k);
        }
        let c0 = deck.draw();
        let c1 = deck.draw();
        st.hole_cards = [c0, c1];
        proof {
            assert(c0 == d.skip(2 * k as int)[0] && c0 == d[2 * k as int]);
            assert(c1 == d.skip(2 * k as int).drop_first()[0] && c1 == d[2 * k as int + 1]);
            assert(deck@ =~= d.skip(2 * (k + 1) as int));
        }
        table.seats[k] = st;
        k = k + 1;
    }
    let ghost settled_seats = table.seats@;
    let ghost deck_after = deck@;
    let mut b: usize = 0;
    while b < 5
        invariant
            table.board@.len() == 5,
            b <= 5,
            forall|i: int| 0 <= i < b ==> (#[trigger] table.board@[i]).0 == UNDEFINED_CARD,
            table.seats@ == settled_seats,
            deck@ == deck_after,
        decreases 5 - b,
    {
        table.board[b] = Card(UNDEFINED_CARD);
        b = b + 1;
    }
    table.pot = 3;
    table.pooled_pot = 0;
    table.street = 0;
    table.state = HandoutState::ExpectingMove;
    proof {
        let ps0 = players_of_seats(t0.seats@);
        let ps1 = players_of_seats(table.seats@);
        assert forall|j: int| 0 <= j < 6 implies (#[trigger] ps1[j]).position < 6 by {
            assert(ps0[j].position < 6);
        }
        assert forall|i: int, j: int| 0 <= i < 6 && 0 <= j < 6 && i != j implies (
        #[trigger] ps1[i]).position != (#[trigger] ps1[j]).position by {
            assert(ps0[i].position != ps0[j].position);
            assert(ps1[i].position == ((ps0[i].position + 1) % 6) as u8);
            assert(ps1[j].position == ((ps0[j].position + 1) % 6) as u8);
        }
        assert forall|p: u8| p < 6 implies betting::pos_index(ps1, p) >= 0 by {
            let q: u8 = if p == 0 {
                5u8
            } else {
                (p - 1) as u8
            };
            assert(betting::pos_index(ps0, q) >= 0);
            betting::lemma_pos_index_char(ps0, q, 0);
            let i = betting::pos_index(ps0, q);
            assert(ps0[i].position == q);
            assert(ps1[i].position == ((q + 1) % 6) as u8);
            assert(((q + 1) % 6) as u8 == p);
            betting::lemma_pos_exists_index(ps1, p, i);
        }
        assert forall|j: int| 0 <= j < 6 implies ((#[trigger] table.seats@[j]).is_hero <==> j
            == 3) by {
            assert(t0.seats@[j].is_hero <==> j == 3);
        }
        lemma_settled_chips_sum(t0.seats@, table.seats@, 6);
    }
}

proof fn lemma_settled_chips_sum(s0: Seq<Seat>, s1: Seq<Seat>, n: int)
    requires
        0 <= n <= s0.len(),
        s0.len() == s1.len(),
        forall|j: int| 0 <= j < s0.len() ==> seat_chips(#[trigger] s0[j]) >= 2,
        forall|j: int| 0 <= j < s0.len() ==> seat_chips(#[trigger] s0[j]) <= u32::MAX,
        forall|j: int|
            0 <= j < s1.len() ==> (#[trigger] s1[j]).bankroll == settled_bankroll(s0[j])
                && s1[j].stack == (settled_stack(s0[j]) - blind_of(
                ((s0[j].preflop_position + 1) % 6) as u8,
            )) as u32 && s1[j].moved_chips == blind_of(((s0[j].preflop_position + 1) % 6) as u8),
    ensures
        chips_sum(s1, n) == chips_sum(s0, n),
    decreases n,
{
    if n > 0 {
        lemma_settled_chips_sum(s0, s1, n - 1);
        let a = s0[n - 1];
        let merged = a.stack + a.moved_chips;
        if merged < 2 {
            if 200 - merged <= a.bankroll {
                assert(settled_stack(a) == 200);
                assert(settled_bankroll(a) == a.bankroll - (200 - merged));
            } else {
                assert(settled_stack(a) == merged + a.bankroll);
                assert(settled_bankroll(a) == 0);
            }
        } else {
            assert(settled_stack(a) == merged);
            assert(settled_bankroll(a) == a.bankroll);
        }
        assert(settled_stack(a) >= 2);
        assert(settled_bankroll(a) + settled_stack(a) == seat_chips(a));
        assert(seat_chips(s1[n - 1]) == seat_chips(s0[n - 1]));
    }
}

} // verus!
