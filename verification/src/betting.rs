//! The betting engine: who acts next, what moves are legal, and when a
//! betting round is closed.
//!
//! A `Betting` snapshot holds the six players in action order: preflop the
//! first to act sits at position 5 and the big blind (position 0) acts last;
//! postflop the small blind (position 1) acts first and the button
//! (position 2) last.

use vstd::prelude::*;

verus! {

/// The chips every player may hold without any computation overflowing.
pub const BETTING_CHIP_MAX: u32 = 0x1000_0000;

/// One player's betting state: seat id, preflop position, remaining stack,
/// chips pushed forward this round, and the active / in-action flags.
#[derive(Debug, Clone, Copy, PartialEq, Eq, Structural)]
pub struct Player {
    /// The caller's identifier for the seat, returned by `next_actor_id`.
    pub id: usize,
    /// Preflop position: 0 big blind, 1 small blind, 2 button, 3..5 earlier.
    pub position: u8,
    /// Chips still committable this hand.
    pub stack: u32,
    /// Chips pushed forward in the current round.
    pub front: u32,
    /// Still contesting the pot.
    pub is_active: bool,
    /// It is this player's turn.
    pub in_action: bool,
}

/// The seat position that acts `k`-th on the given street.
pub open spec fn spec_action_order(street: u8, k: int) -> u8 {
    if street == 0 {
        (5 - k) as u8
    } else if k == 0 {
        1u8
    } else if k == 1 {
        0u8
    } else {
        (7 - k) as u8
    }
}

/// The first index at or after `i` whose player sits at position `p`, or -1.
pub open spec fn pos_index_from(ps: Seq<Player>, p: u8, i: int) -> int
    decreases ps.len() - i,
{
    if i < 0 || i >= ps.len() {
        -1
    } else if ps[i].position == p {
        i
    } else {
        pos_index_from(ps, p, i + 1)
    }
}

/// The first index whose player sits at position `p`, or -1.
pub open spec fn pos_index(ps: Seq<Player>, p: u8) -> int {
    pos_index_from(ps, p, 0)
}

/// Six players whose positions are exactly 0 through 5, each once.
pub open spec fn position_perm(ps: Seq<Player>) -> bool {
    &&& ps.len() == 6
    &&& forall|i: int| 0 <= i < 6 ==> (#[trigger] ps[i]).position < 6
    &&& forall|i: int, j: int|
        0 <= i < 6 && 0 <= j < 6 && i != j ==> (#[trigger] ps[i]).position != (
        #[trigger] ps[j]).position
    &&& forall|p: u8| p < 6 ==> pos_index(ps, p) >= 0
}

/// The input players reordered into action order for the street.
pub open spec fn sorted_players(ps: Seq<Player>, street: u8) -> Seq<Player> {
    Seq::new(6, |k: int| ps[pos_index(ps, spec_action_order(street, k))])
}

/// The largest `front` among the first `n` players.
pub open spec fn max_front_of(ps: Seq<Player>, n: int) -> u32
    decreases n,
{
    if n <= 0 {
        0u32
    } else if ps[n - 1].front >= max_front_of(ps, n - 1) {
        ps[n - 1].front
    } else {
        max_front_of(ps, n - 1)
    }
}

/// The first index at or after `i` whose player is in action, or -1.
pub open spec fn actor_from(ps: Seq<Player>, i: int) -> int
    decreases ps.len() - i,
{
    if i < 0 || i >= ps.len() {
        -1
    } else if ps[i].in_action {
        i
    } else {
        actor_from(ps, i + 1)
    }
}

/// The index of the player in action, or -1 when none is.
pub open spec fn actor_of(ps: Seq<Player>) -> int {
    actor_from(ps, 0)
}

/// How many of the first `n` players are still active.
pub open spec fn count_active(ps: Seq<Player>, n: int) -> int
    decreases n,
{
    if n <= 0 {
        0
    } else {
        count_active(ps, n - 1) + if ps[n - 1].is_active {
            1int
        } else {
            0int
        }
    }
}

/// The first index at or after `i` whose player is active, or -1.
pub open spec fn first_active_from(ps: Seq<Player>, i: int) -> int
    decreases ps.len() - i,
{
    if i < 0 || i >= ps.len() {
        -1
    } else if ps[i].is_active {
        i
    } else {
        first_active_from(ps, i + 1)
    }
}

/// Scanning forward from `cur`, the index of the next active player at
/// offset `off` or beyond (wrapping around the six seats), or -1.
pub open spec fn next_active_after(ps: Seq<Player>, cur: int, off: int) -> int
    decreases 6 - off,
{
    if off < 1 || off >= 6 {
        -1
    } else if ps[(cur + off) % 6].is_active {
        (cur + off) % 6
    } else {
        next_active_after(ps, cur, off + 1)
    }
}

/// No active player sits before index `i` in action order.
pub open spec fn all_inactive_before(ps: Seq<Player>, i: int) -> bool {
    forall|j: int| 0 <= j < i ==> !(#[trigger] ps[j]).is_active
}

/// What player `i` must add to match the table, capped by their stack.
pub open spec fn spec_tocall_at(ps: Seq<Player>, i: int) -> int {
    let d = max_front_of(ps, ps.len() as int) - ps[i].front;
    if d <= ps[i].stack {
        d
    } else {
        ps[i].stack as int
    }
}

/// The seat id of the player to act next, or `None` when the betting round
/// is closed: with fewer than two active players the hand is decided; a
/// player owing chips must act; on a level front the round closes, except
/// that the big blind keeps its preflop option when only the blinds are
/// posted, and that a player does not act again after a full check-around.
pub open spec fn spec_next_actor(ps: Seq<Player>, street: u8) -> Option<usize> {
    if count_active(ps, 6) < 2 {
        None
    } else if actor_of(ps) < 0 {
        if first_active_from(ps, 0) >= 0 {
            Some(ps[first_active_from(ps, 0)].id)
        } else {
            None
        }
    } else {
        let nxt = next_active_after(ps, actor_of(ps), 1);
        if nxt < 0 {
            None
        } else {
            let p = ps[nxt];
            let mf = max_front_of(ps, 6);
            let tc = spec_tocall_at(ps, nxt);
            if tc > 0 {
                Some(p.id)
            } else if mf > 0 {
                if street == 0 && mf == 2 && p.position == 0 {
                    Some(p.id)
                } else {
                    None
                }
            } else {
                if nxt == 0 || all_inactive_before(ps, nxt) {
                    None
                } else {
                    Some(p.id)
                }
            }
        }
    }
}

pub proof fn lemma_pos_index_char(ps: Seq<Player>, p: u8, i: int)
    requires
        0 <= i,
    ensures
        match pos_index_from(ps, p, i) {
            k if k >= 0 => i <= k < ps.len() && ps[k].position == p,
            _ => forall|j: int| i <= j < ps.len() ==> (#[trigger] ps[j]).position != p,
        },
    decreases ps.len() - i,
{
    if i < ps.len() && ps[i].position != p {
        lemma_pos_index_char(ps, p, i + 1);
    }
}

pub proof fn lemma_max_front_char(ps: Seq<Player>, n: int)
    requires
        0 <= n <= ps.len(),
    ensures
        forall|k: int| 0 <= k < n ==> (#[trigger] ps[k]).front <= max_front_of(ps, n),
    decreases n,
{
    if n > 0 {
        lemma_max_front_char(ps, n - 1);
    }
}

pub proof fn lemma_actor_char(ps: Seq<Player>, i: int)
    requires
        0 <= i,
    ensures
        match actor_from(ps, i) {
            k if k >= 0 => i <= k < ps.len() && ps[k].in_action,
            _ => forall|j: int| i <= j < ps.len() ==> !(#[trigger] ps[j]).in_action,
        },
    decreases ps.len() - i,
{
    if i < ps.len() && !ps[i].in_action {
        lemma_actor_char(ps, i + 1);
    }
}

pub proof fn lemma_next_active_char(ps: Seq<Player>, cur: int, off: int)
    ensures
        next_active_after(ps, cur, off) >= 0 ==> next_active_after(ps, cur, off) < 6,
    decreases 6 - off,
{
    if 1 <= off < 6 {
        lemma_next_active_char(ps, cur, off + 1);
    }
}

pub proof fn lemma_first_active_char(ps: Seq<Player>, i: int)
    requires
        0 <= i,
    ensures
        match first_active_from(ps, i) {
            k if k >= 0 => i <= k < ps.len() && ps[k].is_active,
            _ => forall|j: int| i <= j < ps.len() ==> !(#[trigger] ps[j]).is_active,
        },
    decreases ps.len() - i,
{
    if i < ps.len() && !ps[i].is_active {
        lemma_first_active_char(ps, i + 1);
    }
}

pub proof fn lemma_count_active_none(ps: Seq<Player>, n: int)
    requires
        0 <= n <= ps.len(),
        forall|j: int| 0 <= j < ps.len() ==> !(#[trigger] ps[j]).is_active,
    ensures
        count_active(ps, n) == 0,
    decreases n,
{
    if n > 0 {
        lemma_count_active_none(ps, n - 1);
    }
}

/// A position held by some player has a first index holding it.
pub proof fn lemma_pos_exists_index(ps: Seq<Player>, p: u8, w: int)
    requires
        0 <= w < ps.len(),
        ps[w].position == p,
    ensures
        pos_index(ps, p) >= 0,
{
    lemma_pos_index_char(ps, p, 0);
}

/// With pairwise distinct positions, the first index holding the position
/// of player `i` is `i` itself.
pub proof fn lemma_pos_index_of(ps: Seq<Player>, i: int)
    requires
        position_perm(ps),
        0 <= i < 6,
    ensures
        pos_index(ps, ps[i].position) == i,
{
    lemma_pos_index_char(ps, ps[i].position, 0);
    let k = pos_index(ps, ps[i].position);
    if k < 0 {
    } else if k != i {
        assert(ps[k].position == ps[i].position);
        assert(false);
    }
}

/// Two player lists with the same positions slot for slot have the same
/// first index for every position.
pub proof fn lemma_pos_index_same(ps1: Seq<Player>, ps2: Seq<Player>, p: u8, i: int)
    requires
        ps1.len() == ps2.len(),
        forall|k: int| 0 <= k < ps1.len() ==> (#[trigger] ps1[k]).position == ps2[k].position,
        0 <= i,
    ensures
        pos_index_from(ps1, p, i) == pos_index_from(ps2, p, i),
    decreases ps1.len() - i,
{
    if i < ps1.len() && ps1[i].position != p {
        lemma_pos_index_same(ps1, ps2, p, i + 1);
    }
}

/// The active count is never negative.
pub proof fn lemma_count_active_nonneg(ps: Seq<Player>, n: int)
    ensures
        count_active(ps, n) >= 0,
    decreases n,
{
    if n > 0 {
        lemma_count_active_nonneg(ps, n - 1);
    }
}

/// A single active player makes the active count positive.
pub proof fn lemma_count_active_at_least_one(ps: Seq<Player>, n: int, i: int)
    requires
        0 <= i < n <= ps.len(),
        ps[i].is_active,
    ensures
        count_active(ps, n) >= 1,
    decreases n,
{
    if i < n - 1 {
        lemma_count_active_at_least_one(ps, n - 1, i);
    } else {
        lemma_count_active_nonneg(ps, n - 1);
    }
}

/// Two distinct active players make the active count at least two.
pub proof fn lemma_count_active_at_least_two(ps: Seq<Player>, n: int, i: int, j: int)
    requires
        0 <= i < j < n <= ps.len(),
        ps[i].is_active,
        ps[j].is_active,
    ensures
        count_active(ps, n) >= 2,
    decreases n,
{
    if j < n - 1 {
        lemma_count_active_at_least_two(ps, n - 1, i, j);
    } else {
        lemma_count_active_at_least_one(ps, n - 1, i);
    }
}

/// An active count of at least two exhibits two distinct active players.
pub proof fn lemma_count_active_two_exist(ps: Seq<Player>, n: int)
    requires
        0 <= n <= ps.len(),
        count_active(ps, n) >= 2,
    ensures
        exists|i: int, j: int|
            0 <= i < j < n && (#[trigger] ps[i]).is_active && (#[trigger] ps[j]).is_active,
    decreases n,
{
    if n > 0 {
        if ps[n - 1].is_active {
            if count_active(ps, n - 1) >= 2 {
                lemma_count_active_two_exist(ps, n - 1);
            } else {
                lemma_count_active_one_exists(ps, n - 1);
                let i = choose|i: int| 0 <= i < n - 1 && (#[trigger] ps[i]).is_active;
                assert(0 <= i < n - 1 && ps[i].is_active && ps[n - 1].is_active);
            }
        } else {
            lemma_count_active_two_exist(ps, n - 1);
        }
    }
}

/// A positive active count exhibits an active player.
pub proof fn lemma_count_active_one_exists(ps: Seq<Player>, n: int)
    requires
        0 <= n <= ps.len(),
        count_active(ps, n) >= 1,
    ensures
        exists|i: int| 0 <= i < n && (#[trigger] ps[i]).is_active,
    decreases n,
{
    if n > 0 && !ps[n - 1].is_active {
        lemma_count_active_one_exists(ps, n - 1);
    }
}

/// A betting-round snapshot: the players in action order, the pot, and the
/// street.
pub struct Betting {
    /// The six players, in action order for `street`.
    pub players: Vec<Player>,
    /// Chips already counted into the pot, blinds included.
    pub pot: u32,
    /// 0 preflop, 1 flop, 2 turn, 3 river.
    pub street: u8,
}

/// Chip amounts small enough for every betting computation.
pub open spec fn chips_bounded(ps: Seq<Player>, pot: u32) -> bool {
    &&& pot <= BETTING_CHIP_MAX
    &&& forall|k: int|
        0 <= k < ps.len() ==> (#[trigger] ps[k]).stack <= BETTING_CHIP_MAX && ps[k].front
            <= BETTING_CHIP_MAX
}

/// The legal move amounts: fold is -1, a call or check is the amount to
/// call, and the single raise size is twice the pot preflop (capped by the
/// stack) or half the pot postflop.
pub open spec fn spec_move_list(b: Betting) -> Seq<i32> {
    let ps = b.players@;
    let a = ps[actor_of(ps)];
    let tc = spec_tocall_at(ps, actor_of(ps));
    let raise: int = if b.street == 0 {
        if 2 * b.pot <= a.stack {
            2 * b.pot
        } else {
            a.stack as int
        }
    } else {
        b.pot as int / 2
    };
    if tc == 0 {
        seq![0i32, raise as i32]
    } else {
        seq![-1i32, tc as i32, raise as i32]
    }
}

fn find_by_position(players: &Vec<Player>, p: u8) -> (r: usize)
    requires
        players@.len() == 6,
        pos_index(players@, p) >= 0,
    ensures
        r as int == pos_index(players@, p),
{
    let mut j: usize = 0;
    while j < 6
        invariant
            players@.len() == 6,
            0 <= j <= 6,
            pos_index(players@, p) == pos_index_from(players@, p, j as int),
            pos_index(players@, p) >= 0,
        decreases 6 - j,
    {
        if players[j].position == p {
            return j;
        }
        j = j + 1;
    }
    proof {
        assert(false);
    }
    0
}

impl Betting {
    /// Build a snapshot from the players of a table, reordering them into
    /// action order for the street.
    pub fn new(query_result: &Vec<Player>, pot: u32, street: u8) -> (r: Betting)
        requires
            position_perm(query_result@),
        ensures
            r.players@ == sorted_players(query_result@, street),
            r.pot == pot,
            r.street == street,
    {
        let mut players: Vec<Player> = Vec::new();
        let mut k: usize = 0;
        while k < 6
            invariant
                position_perm(query_result@),
                k <= 6,
                players@.len() == k,
                forall|k2: int|
                    0 <= k2 < k ==> #[trigger] players@[k2] == query_result@[pos_index(
                        query_result@,
                        spec_action_order(street, k2),
                    )],
        decreases 6 - k,
        {
            let p: u8 = if street == 0 {
                5 - (k as u8)
            } else if k == 0 {
                1
            } else if k == 1 {
                0
            } else {
                7 - (k as u8)
            };
            proof {
                assert(p == spec_action_order(street, k as int));
                assert(pos_index(query_result@, p) >= 0);
                lemma_pos_index_char(query_result@, p, 0);
            }
            let j = find_by_position(query_result, p);
            players.push(query_result[j]);
            k = k + 1;
        }
        proof {
            assert(players@ =~= sorted_players(query_result@, street));
        }
        Betting { players, pot, street }
    }

    /// Mark the player currently in action as no longer active, so that a
    /// fold is visible before the next actor is computed.
    pub fn set_actor_inactive(&mut self)
        requires
            actor_of(old(self).players@) >= 0,
        ensures
            final(self).players@ == old(self).players@.update(
                actor_of(old(self).players@),
                Player { is_active: false, ..old(self).players@[actor_of(old(self).players@)] },
            ),
            final(self).pot == old(self).pot,
            final(self).street == old(self).street,
    {
        let ghost ps = self.players@;
        let n = self.players.len();
        let mut j: usize = 0;
        while j < n
            invariant
                n == self.players@.len(),
                self.players@ == ps,
                self.pot == old(self).pot,
                self.street == old(self).street,
                ps == old(self).players@,
                0 <= j <= n,
                actor_of(ps) == actor_from(ps, j as int),
                actor_of(ps) >= 0,
            decreases n - j,
        {
            if self.players[j].in_action {
                let mut p = self.players[j];
                p.is_active = false;
                self.players[j] = p;
                return ;
            }
            j = j + 1;
        }
        proof {
            assert(false);
        }
    }

    /// The largest amount any player has pushed forward this round.
    pub fn max_front(&self) -> (r: u32)
        requires
            self.players@.len() == 6,
        ensures
            r == max_front_of(self.players@, 6),
    {
        let mut mf: u32 = 0;
        let mut j: usize = 0;
        while j < 6
            invariant
                self.players@.len() == 6,
                0 <= j <= 6,
                mf == max_front_of(self.players@, j as int),
            decreases 6 - j,
        {
            let f = self.players[j].front;
            if f >= mf {
                mf = f;
            }
            j = j + 1;
        }
        mf
    }

    /// What the player in action must add to match the table, capped by
    /// their stack.
    pub fn tocall(&self) -> (r: u32)
        requires
            self.players@.len() == 6,
            actor_of(self.players@) >= 0,
        ensures
            r == spec_tocall_at(self.players@, actor_of(self.players@)),
    {
        let ghost ps = self.players@;
        let mf = self.max_front();
        let mut j: usize = 0;
        while j < 6
            invariant
                self.players@.len() == 6,
                ps == self.players@,
                mf == max_front_of(ps, 6),
                0 <= j <= 6,
                actor_of(ps) == actor_from(ps, j as int),
                actor_of(ps) >= 0,
            decreases 6 - j,
        {
            if self.players[j].in_action {
                let a = self.players[j];
                proof {
                    lemma_max_front_char(ps, 6);
                }
                let d = mf - a.front;
                if d <= a.stack {
                    return d;
                } else {
                    return a.stack;
                }
            }
            j = j + 1;
        }
        proof {
            assert(false);
        }
        0
    }

    /// The legal moves for the player in action, encoded as amounts:
    /// `-1` to fold (only when there are chips to call), the call or check
    /// amount, and one fixed raise size.
    pub fn move_options(&self) -> (r: Vec<i32>)
        requires
            self.players@.len() == 6,
            actor_of(self.players@) >= 0,
            chips_bounded(self.players@, self.pot),
        ensures
            r@ == spec_move_list(*self),
    {
        let ghost ps = self.players@;
        let tocall = self.tocall();
        let ghost ai = actor_of(ps);
        let mut j: usize = 0;
        while j < 6
            invariant
                self.players@.len() == 6,
                ps == self.players@,
                chips_bounded(ps, self.pot),
                tocall == spec_tocall_at(ps, actor_of(ps)),
                ai == actor_of(ps),
                0 <= j <= 6,
                actor_of(ps) == actor_from(ps, j as int),
                actor_of(ps) >= 0,
            decreases 6 - j,
        {
            if self.players[j].in_action {
                let a = self.players[j];
                proof {
                    lemma_max_front_char(ps, 6);
                    assert(a == ps[ai]);
                }
                let raise_amount: u32 = if self.street == 0 {
                    let doubled = self.pot * 2;
                    if doubled <= a.stack {
                        doubled
                    } else {
                        a.stack
                    }
                } else {
                    self.pot / 2
                };
                let mut r: Vec<i32> = Vec::new();
                if tocall == 0 {
                    r.push(0);
                    r.push(raise_amount as i32);
                    proof {
                        assert(r@ =~= spec_move_list(*self));
                    }
                } else {
                    r.push(-1);
                    r.push(tocall as i32);
                    r.push(raise_amount as i32);
                    proof {
                        assert(r@ =~= spec_move_list(*self));
                    }
                }
                return r;
            }
            j = j + 1;
        }
        proof {
            assert(false);
        }
        Vec::new()
    }

    /// The seat id of the next player to act, or `None` when the betting
    /// round is closed.
    pub fn next_actor_id(&self) -> (r: Option<usize>)
        requires
            self.players@.len() == 6,
        ensures
            r == spec_next_actor(self.players@, self.street),
    {
        let ghost ps = self.players@;
        let mut n_active: usize = 0;
        let mut j: usize = 0;
        while j < 6
            invariant
                self.players@.len() == 6,
                ps == self.players@,
                0 <= j <= 6,
                n_active == count_active(ps, j as int),
                n_active <= j,
            decreases 6 - j,
        {
            if self.players[j].is_active {
                n_active = n_active + 1;
            }
            j = j + 1;
        }
        if n_active < 2 {
            return None;
        }
        let mut current: Option<usize> = None;
        let mut j: usize = 0;
        while j < 6
            invariant
                self.players@.len() == 6,
                ps == self.players@,
                0 <= j <= 6,
                match current {
                    Some(c) => c as int == actor_of(ps),
                    None => actor_of(ps) == actor_from(ps, j as int),
                },
            decreases 6 - j,
        {
            if current.is_none() && self.players[j].in_action {
                current = Some(j);
            }
            j = j + 1;
        }
        let current_actor_index: usize = match current {
            Some(c) => c,
            None => {
                let mut k: usize = 0;
                while k < 6
                    invariant
                        self.players@.len() == 6,
                        ps == self.players@,
                        0 <= k <= 6,
                        count_active(ps, 6) >= 2,
                        actor_of(ps) < 0,
                        first_active_from(ps, 0) == first_active_from(ps, k as int),
                    decreases 6 - k,
                {
                    if self.players[k].is_active {
                        return Some(self.players[k].id);
                    }
                    k = k + 1;
                }
                proof {
                    lemma_first_active_char(ps, 0);
                    lemma_count_active_none(ps, 6);
                    assert(false);
                }
                return None;
            },
        };
        proof {
            lemma_actor_char(ps, 0);
            assert(current_actor_index as int == actor_of(ps));
        }
        let mut next_index: Option<usize> = None;
        let mut off: usize = 1;
        while off < 6
            invariant
                self.players@.len() == 6,
                ps == self.players@,
                current_actor_index < 6,
                current_actor_index as int == actor_of(ps),
                1 <= off <= 6,
                match next_index {
                    Some(nx) => nx as int == next_active_after(ps, actor_of(ps), 1),
                    None => next_active_after(ps, actor_of(ps), 1) == next_active_after(
                        ps,
                        actor_of(ps),
                        off as int,
                    ),
                },
            decreases 6 - off,
        {
            if next_index.is_none() {
                let index = (current_actor_index + off) % 6;
                if self.players[index].is_active {
                    next_index = Some(index);
                }
            }
            off = off + 1;
        }
        let nxt = match next_index {
            Some(nx) => nx,
            None => {
                return None;
            },
        };
        proof {
            lemma_next_active_char(ps, actor_of(ps), 1);
            assert(nxt as int == next_active_after(ps, actor_of(ps), 1));
            assert(nxt < 6);
        }
        let p = self.players[nxt];
        let mf = self.max_front();
        proof {
            lemma_max_front_char(ps, 6);
        }
        let d = mf - p.front;
        let tc = if d <= p.stack {
            d
        } else {
            p.stack
        };
        if tc > 0 {
            return Some(p.id);
        }
        if mf > 0 {
            if self.street == 0 && mf == 2 && p.position == 0 {
                return Some(p.id);
            } else {
                return None;
            }
        }
        let mut all_before_inactive = true;
        let mut j: usize = 0;
        while j < nxt
            invariant
                self.players@.len() == 6,
                ps == self.players@,
                nxt < 6,
                0 <= j <= nxt,
                all_before_inactive == (forall|k: int| 0 <= k < j ==> !(#[trigger] ps[k]).is_active),
            decreases nxt - j,
        {
            if self.players[j].is_active {
                all_before_inactive = false;
            }
            j = j + 1;
        }
        if nxt == 0 || all_before_inactive {
            None
        } else {
            Some(p.id)
        }
    }
}


/// How many of the first `n` players are in action.
pub open spec fn count_in_action(ps: Seq<Player>, n: int) -> int
    decreases n,
{
    if n <= 0 {
        0
    } else {
        count_in_action(ps, n - 1) + if ps[n - 1].in_action {
            1int
        } else {
            0int
        }
    }
}

/// Two distinct players in action make the in-action count at least two.
pub proof fn lemma_count_in_action_two(ps: Seq<Player>, n: int, i: int, j: int)
    requires
        0 <= i < j < n <= ps.len(),
        ps[i].in_action,
        ps[j].in_action,
    ensures
        count_in_action(ps, n) >= 2,
    decreases n,
{
    if j < n - 1 {
        lemma_count_in_action_two(ps, n - 1, i, j);
    } else {
        lemma_count_in_action_one(ps, n - 1, i);
    }
}

/// A player in action makes the in-action count positive.
pub proof fn lemma_count_in_action_one(ps: Seq<Player>, n: int, i: int)
    requires
        0 <= i < n <= ps.len(),
        ps[i].in_action,
    ensures
        count_in_action(ps, n) >= 1,
    decreases n,
{
    if i < n - 1 {
        lemma_count_in_action_one(ps, n - 1, i);
    } else {
        lemma_count_in_action_nonneg(ps, n - 1);
    }
}

/// The in-action count is never negative.
pub proof fn lemma_count_in_action_nonneg(ps: Seq<Player>, n: int)
    ensures
        count_in_action(ps, n) >= 0,
    decreases n,
{
    if n > 0 {
        lemma_count_in_action_nonneg(ps, n - 1);
    }
}

/// With exactly one player in action, the first one found is the only one.
pub proof fn lemma_actor_unique(ps: Seq<Player>, i: int, j: int)
    requires
        ps.len() == 6,
        count_in_action(ps, 6) == 1,
        0 <= i < 6,
        0 <= j < 6,
        ps[i].in_action,
        ps[j].in_action,
    ensures
        i == j,
{
    if i < j {
        lemma_count_in_action_two(ps, 6, i, j);
    } else if j < i {
        lemma_count_in_action_two(ps, 6, j, i);
    }
}

/// The next actor the betting rule picks carries an id below six whenever
/// every player's id is below six.
pub proof fn lemma_next_actor_id_bound(ps: Seq<Player>, street: u8)
    requires
        ps.len() == 6,
        forall|k: int| 0 <= k < 6 ==> (#[trigger] ps[k]).id < 6,
    ensures
        match spec_next_actor(ps, street) {
            Some(id) => id < 6,
            None => true,
        },
{
    lemma_actor_char(ps, 0);
    lemma_first_active_char(ps, 0);
    lemma_next_active_char(ps, actor_of(ps), 1);
}


/// The action-order slot that position `p` occupies on the given street:
/// the inverse of `spec_action_order`.
pub open spec fn order_slot(street: u8, p: u8) -> int {
    if street == 0 {
        5 - p
    } else if p == 1 {
        0int
    } else if p == 0 {
        1int
    } else {
        7 - p
    }
}

/// `order_slot` inverts `spec_action_order`.
pub proof fn lemma_order_slot_inverse(street: u8, p: u8)
    requires
        p < 6,
    ensures
        0 <= order_slot(street, p) < 6,
        spec_action_order(street, order_slot(street, p)) == p,
{
}

/// Sorting into action order keeps at least two active players active.
pub proof fn lemma_sorted_count_active(ps: Seq<Player>, street: u8)
    requires
        position_perm(ps),
        count_active(ps, 6) >= 2,
    ensures
        count_active(sorted_players(ps, street), 6) >= 2,
{
    lemma_count_active_two_exist(ps, 6);
    let (i, j) = choose|i: int, j: int|
        0 <= i < j < 6 && (#[trigger] ps[i]).is_active && (#[trigger] ps[j]).is_active;
    let sorted = sorted_players(ps, street);
    let si = order_slot(street, ps[i].position);
    let sj = order_slot(street, ps[j].position);
    lemma_order_slot_inverse(street, ps[i].position);
    lemma_order_slot_inverse(street, ps[j].position);
    lemma_pos_index_of(ps, i);
    lemma_pos_index_of(ps, j);
    assert(sorted[si] == ps[i]);
    assert(sorted[sj] == ps[j]);
    assert(si != sj);
    if si < sj {
        lemma_count_active_at_least_two(sorted, 6, si, sj);
    } else {
        lemma_count_active_at_least_two(sorted, 6, sj, si);
    }
}

/// Sorting into action order keeps every player out of action when none of
/// the originals is in action.
pub proof fn lemma_sorted_no_actor(ps: Seq<Player>, street: u8)
    requires
        position_perm(ps),
        forall|k: int| 0 <= k < 6 ==> !(#[trigger] ps[k]).in_action,
    ensures
        forall|k: int| 0 <= k < 6 ==> !(#[trigger] sorted_players(ps, street)[k]).in_action,
{
    let sorted = sorted_players(ps, street);
    assert forall|k: int| 0 <= k < 6 implies !(#[trigger] sorted[k]).in_action by {
        let p = spec_action_order(street, k);
        assert(p < 6);
        assert(pos_index(ps, p) >= 0);
        lemma_pos_index_char(ps, p, 0);
        assert(sorted[k] == ps[pos_index(ps, p)]);
    }
}

} // verus!
