//! Bit-parallel evaluation of 5-to-7-card poker hands.
//!
//! A hand is summarized by 13-bit masks: the set of card values present, one
//! mask per suit, and one mask per multiplicity (values that occur exactly
//! `c` times). The hand's `Rank` is decided from those masks alone, so any
//! permutation of the same cards gets the same rank.

use vstd::prelude::*;

verus! {

/// All the possible hand categories, weakest first. Within a category the
/// `u32` payload orders hands of the same category against each other.
#[derive(Debug, PartialEq, Eq, PartialOrd, Ord, Clone, Copy, Hash, Structural)]
pub enum Rank {
    /// No two cards share a value, no straight, no flush.
    HighCard(u32),
    /// Exactly one value occurs twice.
    OnePair(u32),
    /// Two values occur twice.
    TwoPair(u32),
    /// One value occurs three times.
    ThreeOfAKind(u32),
    /// Five consecutive values.
    Straight(u32),
    /// Five cards of one suit.
    Flush(u32),
    /// Three of one value and two of another.
    FullHouse(u32),
    /// Four cards of one value.
    FourOfAKind(u32),
    /// Five consecutive values, all of one suit.
    StraightFlush(u32),
}

/// The category of a rank, weakest `0` through strongest `8`.
pub open spec fn rank_category(r: Rank) -> int {
    match r {
        Rank::HighCard(_) => 0,
        Rank::OnePair(_) => 1,
        Rank::TwoPair(_) => 2,
        Rank::ThreeOfAKind(_) => 3,
        Rank::Straight(_) => 4,
        Rank::Flush(_) => 5,
        Rank::FullHouse(_) => 6,
        Rank::FourOfAKind(_) => 7,
        Rank::StraightFlush(_) => 8,
    }
}

/// The within-category tiebreak payload of a rank.
pub open spec fn rank_tiebreak(r: Rank) -> u32 {
    match r {
        Rank::HighCard(k) => k,
        Rank::OnePair(k) => k,
        Rank::TwoPair(k) => k,
        Rank::ThreeOfAKind(k) => k,
        Rank::Straight(k) => k,
        Rank::Flush(k) => k,
        Rank::FullHouse(k) => k,
        Rank::FourOfAKind(k) => k,
        Rank::StraightFlush(k) => k,
    }
}

/// The total order on ranks: first by category, then by tiebreak.
pub open spec fn rank_le(a: Rank, b: Rank) -> bool {
    rank_category(a) < rank_category(b) || (rank_category(a) == rank_category(b)
        && rank_tiebreak(a) <= rank_tiebreak(b))
}

/// Ranks with equal category and tiebreak are the same rank.
pub proof fn lemma_rank_le_antisymmetric(a: Rank, b: Rank)
    requires
        rank_le(a, b),
        rank_le(b, a),
    ensures
        a == b,
{
}

impl Rank {
    /// Whether `self` ranks no higher than `other` in the total order on
    /// hands: first by category, then by the tiebreak payload.
    pub fn le(&self, other: &Rank) -> (r: bool)
        ensures
            r == rank_le(*self, *other),
    {
        let ca = self.category();
        let cb = other.category();
        if ca < cb {
            true
        } else if ca == cb {
            self.tiebreak() <= other.tiebreak()
        } else {
            false
        }
    }

    /// The category index of the rank, weakest `0` through strongest `8`.
    pub fn category(&self) -> (r: u32)
        ensures
            r == rank_category(*self),
    {
        match *self {
            Rank::HighCard(_) => 0,
            Rank::OnePair(_) => 1,
            Rank::TwoPair(_) => 2,
            Rank::ThreeOfAKind(_) => 3,
            Rank::Straight(_) => 4,
            Rank::Flush(_) => 5,
            Rank::FullHouse(_) => 6,
            Rank::FourOfAKind(_) => 7,
            Rank::StraightFlush(_) => 8,
        }
    }

    /// The tiebreak payload of the rank.
    pub fn tiebreak(&self) -> (r: u32)
        ensures
            r == rank_tiebreak(*self),
    {
        match *self {
            Rank::HighCard(k) => k,
            Rank::OnePair(k) => k,
            Rank::TwoPair(k) => k,
            Rank::ThreeOfAKind(k) => k,
            Rank::Straight(k) => k,
            Rank::Flush(k) => k,
            Rank::FullHouse(k) => k,
            Rank::FourOfAKind(k) => k,
            Rank::StraightFlush(k) => k,
        }
    }
}

/// Bit mask for the wheel (ace, two, three, four, five).
pub const WHEEL: u32 = 0b1_0000_0000_1111;

/// Whether bit `j` of `m` is set.
pub open spec fn bit(m: u32, j: u32) -> bool {
    (m >> j) & 1 == 1
}

/// The number of set bits of `m` below bit `j`.
pub open spec fn setbits(m: u32, j: u32) -> u32
    decreases j,
{
    if j == 0 {
        0u32
    } else {
        (setbits(m, (j - 1) as u32) + if bit(m, (j - 1) as u32) {
            1u32
        } else {
            0u32
        }) as u32
    }
}

proof fn lemma_bit_or(a: u32, b: u32)
    by (bit_vector)
    ensures
        forall|j: u32| j < 32 ==> (#[trigger] bit(a | b, j) <==> bit(a, j) || bit(b, j)),
{
}

proof fn lemma_bit_and(a: u32, b: u32)
    by (bit_vector)
    ensures
        forall|j: u32| j < 32 ==> (#[trigger] bit(a & b, j) <==> bit(a, j) && bit(b, j)),
{
}

proof fn lemma_bit_xor(a: u32, b: u32)
    by (bit_vector)
    ensures
        forall|j: u32| j < 32 ==> (#[trigger] bit(a ^ b, j) <==> (bit(a, j) != bit(b, j))),
{
}

proof fn lemma_bit_single(v: u32)
    by (bit_vector)
    requires
        v < 32,
    ensures
        forall|j: u32| j < 32 ==> (#[trigger] bit(1u32 << v, j) <==> j == v),
        v < 13 ==> (1u32 << v) < 0x2000,
{
}

proof fn lemma_bit_zero()
    by (bit_vector)
    ensures
        forall|j: u32| j < 32 ==> !#[trigger] bit(0u32, j),
{
}

proof fn lemma_bit_bound(m: u32)
    by (bit_vector)
    requires
        m < 0x20000,
    ensures
        forall|j: u32| 17 <= j < 32 ==> !#[trigger] bit(m, j),
        m < 0x2000 ==> forall|j: u32| 13 <= j < 32 ==> !#[trigger] bit(m, j),
{
}

proof fn lemma_or_bound(a: u32, b: u32)
    by (bit_vector)
    requires
        a < 0x2000,
        b < 0x2000,
    ensures
        (a | b) < 0x2000,
        (a ^ b) < 0x2000,
        (a & b) < 0x2000,
{
}

/// A nonzero 17-bit value has a set bit below 17.
proof fn lemma_nonzero_has_bit(m: u32)
    requires
        m != 0,
        m < 0x20000,
    ensures
        exists|j: u32| j < 17 && bit(m, j),
{
    assert(bit(m, 0) || bit(m, 1) || bit(m, 2) || bit(m, 3) || bit(m, 4) || bit(m, 5) || bit(m, 6)
        || bit(m, 7) || bit(m, 8) || bit(m, 9) || bit(m, 10) || bit(m, 11) || bit(m, 12) || bit(
        m,
        13,
    ) || bit(m, 14) || bit(m, 15) || bit(m, 16)) by (bit_vector)
        requires
            m != 0,
            m < 0x20000,
    ;
}

/// A value whose 13-bit popcount is positive is nonzero.
proof fn lemma_setbits_pos_nonzero(m: u32)
    requires
        setbits(m, 13) > 0,
    ensures
        m != 0,
{
    assert(setbits(0u32, 13) == 0) by (bit_vector);
}

/// Two 13-bit masks that agree on every bit are equal.
proof fn lemma_bit_ext13(a: u32, b: u32)
    requires
        a < 0x2000,
        b < 0x2000,
        forall|j: u32| j < 13 ==> (bit(a, j) <==> bit(b, j)),
    ensures
        a == b,
{
    assert(a == b) by (bit_vector)
        requires
            a < 0x2000,
            b < 0x2000,
            (bit(a, 0) <==> bit(b, 0)),
            (bit(a, 1) <==> bit(b, 1)),
            (bit(a, 2) <==> bit(b, 2)),
            (bit(a, 3) <==> bit(b, 3)),
            (bit(a, 4) <==> bit(b, 4)),
            (bit(a, 5) <==> bit(b, 5)),
            (bit(a, 6) <==> bit(b, 6)),
            (bit(a, 7) <==> bit(b, 7)),
            (bit(a, 8) <==> bit(b, 8)),
            (bit(a, 9) <==> bit(b, 9)),
            (bit(a, 10) <==> bit(b, 10)),
            (bit(a, 11) <==> bit(b, 11)),
            (bit(a, 12) <==> bit(b, 12)),
    ;
}

/// Count the set bits of a 13-bit mask.
fn popcount(m: u32) -> (r: u32)
    requires
        m < 0x2000,
    ensures
        r == setbits(m, 13),
{
    let mut r: u32 = 0;
    let mut j: u32 = 0;
    while j < 13
        invariant
            j <= 13,
            r == setbits(m, j),
            r <= j,
        decreases 13 - j,
    {
        if (m >> j) & 1 == 1 {
            r = r + 1;
        }
        j = j + 1;
    }
    r
}

/// What remains of `m` after clearing least-significant set bits until at
/// most `to_keep` bits are left.
pub open spec fn spec_keep_n(m: u32, to_keep: u32) -> u32
    decreases m,
    via spec_keep_n_decreases
{
    if setbits(m, 13) <= to_keep {
        m
    } else if m == 0 {
        m
    } else {
        spec_keep_n(m & ((m - 1) as u32), to_keep)
    }
}

#[via_fn]
proof fn spec_keep_n_decreases(m: u32, to_keep: u32) {
    assert(m != 0 ==> (m & ((m - 1) as u32)) < m) by (bit_vector);
}

proof fn lemma_clear_lowest(m: u32)
    by (bit_vector)
    requires
        m != 0,
        m < 0x2000,
    ensures
        (m & ((m - 1) as u32)) < m,
        (m & ((m - 1) as u32)) < 0x2000,
        setbits(m & ((m - 1) as u32), 13) == setbits(m, 13) - 1,
        ((m & ((m - 1) as u32)) & m) == (m & ((m - 1) as u32)),
{
}

/// Keep the `to_keep` most significant bits of `rank`, by clearing
/// least-significant bits while more than `to_keep` remain.
pub fn keep_n(rank: u32, to_keep: u32) -> (r: u32)
    requires
        rank < 0x2000,
    ensures
        r == spec_keep_n(rank, to_keep),
{
    let mut result = rank;
    let mut cnt = popcount(result);
    while cnt > to_keep
        invariant
            result < 0x2000,
            cnt == setbits(result, 13),
            spec_keep_n(result, to_keep) == spec_keep_n(rank, to_keep),
        decreases result,
    {
        proof {
            lemma_setbits_pos_nonzero(result);
            lemma_clear_lowest(result);
        }
        result = result & (result - 1);
        cnt = popcount(result);
    }
    result
}

/// The result of `spec_keep_n` is a subset of the input mask, with exactly
/// `to_keep` bits when the input has at least that many.
pub proof fn lemma_keep_n_props(m: u32, to_keep: u32)
    requires
        m < 0x2000,
    ensures
        (spec_keep_n(m, to_keep) & m) == spec_keep_n(m, to_keep),
        spec_keep_n(m, to_keep) < 0x2000,
        setbits(m, 13) >= to_keep ==> setbits(spec_keep_n(m, to_keep), 13) == to_keep,
        setbits(m, 13) <= to_keep ==> spec_keep_n(m, to_keep) == m,
    decreases m,
{
    if setbits(m, 13) <= to_keep {
        assert((m & m) == m) by (bit_vector);
    } else {
        lemma_setbits_pos_nonzero(m);
        lemma_clear_lowest(m);
        let m2 = m & ((m - 1) as u32);
        lemma_keep_n_props(m2, to_keep);
        let k1 = spec_keep_n(m2, to_keep);
        assert(((k1 & m2) == k1 && (m2 & m) == m2) ==> ((k1 & m) == k1)) by (bit_vector);
    }
}

/// The index of the most significant set bit of `m` at or below bit `j`
/// (`0` when no such bit is set).
pub open spec fn spec_top_bit(m: u32, j: u32) -> u32
    decreases j,
{
    if bit(m, j) {
        j
    } else if j == 0 {
        0
    } else {
        spec_top_bit(m, (j - 1) as u32)
    }
}

proof fn lemma_top_bit_char(m: u32, j: u32)
    requires
        j < 32,
    ensures
        spec_top_bit(m, j) <= j,
        bit(m, spec_top_bit(m, j)) || (forall|k: u32| k <= j ==> !bit(m, k)),
        forall|k: u32| spec_top_bit(m, j) < k <= j ==> !bit(m, k),
    decreases j,
{
    if !bit(m, j) && j > 0 {
        lemma_top_bit_char(m, (j - 1) as u32);
    }
}

/// The most significant set bit of `m`, found by scanning downward.
fn top_bit(m: u32) -> (r: u32)
    requires
        m != 0,
        m < 0x20000,
    ensures
        r == spec_top_bit(m, 16),
        r <= 16,
        bit(m, r),
        forall|k: u32| r < k < 32 ==> !bit(m, k),
{
    proof {
        lemma_bit_bound(m);
    }
    let mut j: u32 = 16;
    loop
        invariant
            m != 0,
            m < 0x20000,
            j <= 16,
            spec_top_bit(m, 16) == spec_top_bit(m, j),
            forall|k: u32| j < k < 32 ==> !bit(m, k),
        decreases j,
    {
        if (m >> j) & 1 == 1 {
            return j;
        }
        if j == 0 {
            proof {
                lemma_nonzero_has_bit(m);
                assert(false);
            }
        }
        j = j - 1;
    }
}

/// Keep only the most significant bit of `rank`.
pub fn keep_highest(rank: u32) -> (r: u32)
    requires
        rank != 0,
        rank < 0x20000,
    ensures
        r == spec_keep_highest(rank),
{
    let t = top_bit(rank);
    1u32 << t
}

/// The mask holding only the most significant set bit of `m`.
pub open spec fn spec_keep_highest(m: u32) -> u32 {
    1u32 << spec_top_bit(m, 16)
}

/// A mask with a set bit below 13 has positive 13-bit popcount.
proof fn lemma_bit_implies_setbits_pos(m: u32, j: u32)
    requires
        j < 13,
        bit(m, j),
    ensures
        setbits(m, 13) >= 1,
        m != 0,
{
    assert(setbits(m, 13) >= 1 && m != 0) by (bit_vector)
        requires
            j < 13,
            bit(m, j),
    ;
}


/// Five consecutive set bits of `m` ending at bit `t`.
pub open spec fn run5(m: u32, t: u32) -> bool {
    4 <= t < 13 && bit(m, t) && bit(m, (t - 1) as u32) && bit(m, (t - 2) as u32) && bit(
        m,
        (t - 3) as u32,
    ) && bit(m, (t - 4) as u32)
}

/// The highest `t <= j` such that bits `t-4 ..= t` of `m` are all set.
pub open spec fn straight_top_from(m: u32, t: u32) -> Option<u32>
    decreases t,
{
    if run5(m, t) {
        Some(t)
    } else if t <= 4 {
        None
    } else {
        straight_top_from(m, (t - 1) as u32)
    }
}

/// The straight rank of value mask `m`: the wheel counts as rank `0`; any
/// other straight with top card at bit `t` has rank `t - 3`.
pub open spec fn spec_straight(m: u32) -> Option<u32> {
    match straight_top_from(m, 12) {
        Some(t) => Some((t - 3) as u32),
        None => if m & WHEEL == WHEEL {
            Some(0u32)
        } else {
            None
        },
    }
}

proof fn lemma_straight_top_is(m: u32, t: u32, j: u32)
    requires
        4 <= t <= j < 13,
        run5(m, t),
        forall|t2: u32| t < t2 <= j ==> !run5(m, t2),
    ensures
        straight_top_from(m, j) == Some(t),
    decreases j,
{
    if j > t {
        lemma_straight_top_is(m, t, (j - 1) as u32);
    }
}

proof fn lemma_straight_top_none(m: u32, j: u32)
    requires
        j < 13,
        forall|t2: u32| t2 <= j ==> !run5(m, t2),
    ensures
        straight_top_from(m, j) == None::<u32>,
    decreases j,
{
    if j > 4 {
        lemma_straight_top_none(m, (j - 1) as u32);
    }
}

proof fn lemma_left_bits(m: u32)
    by (bit_vector)
    requires
        m < 0x2000,
    ensures
        forall|t: u32|
            #![trigger bit(m & (m << 1u32) & (m << 2u32) & (m << 3u32) & (m << 4u32), t)]
            #![trigger run5(m, t)]
            4 <= t < 13 ==> (bit(m & (m << 1) & (m << 2) & (m << 3) & (m << 4), t) <==> run5(m, t)),
        forall|t: u32| t < 4 ==> !#[trigger] bit(m & (m << 1) & (m << 2) & (m << 3) & (m << 4), t),
        forall|t: u32|
            13 <= t < 32 ==> !#[trigger] bit(m & (m << 1) & (m << 2) & (m << 3) & (m << 4), t),
        (m & (m << 1) & (m << 2) & (m << 3) & (m << 4)) < 0x2000,
{
}

/// Whether the set of card values in the 13-bit mask `value_set` contains a
/// straight, and at which rank: `None` when there is no straight, rank `0`
/// for the wheel (ace through five), up to rank `9` for broadway.
pub fn rank_straight(value_set: u32) -> (r: Option<u32>)
    requires
        value_set < 0x2000,
    ensures
        r == spec_straight(value_set),
{
    let left = value_set & (value_set << 1) & (value_set << 2) & (value_set << 3) & (value_set
        << 4);
    proof {
        lemma_left_bits(value_set);
    }
    if left != 0 {
        let t = top_bit(left);
        proof {
            assert(4 <= t < 13);
            assert(run5(value_set, t));
            assert(forall|t2: u32| t < t2 < 13 ==> !run5(value_set, t2));
            lemma_straight_top_is(value_set, t, 12);
        }
        Some(t - 3)
    } else {
        proof {
            lemma_bit_zero();
            assert(forall|t2: u32| t2 <= 12 ==> !run5(value_set, t2));
            lemma_straight_top_none(value_set, 12);
        }
        if value_set & WHEEL == WHEEL {
            Some(0)
        } else {
            None
        }
    }
}

/// The first index of `s` (from `i` on) whose mask has at least five set bits.
pub open spec fn first_flush(s: Seq<u32>, i: int) -> Option<int>
    decreases s.len() - i,
{
    if i < 0 || i >= s.len() {
        None
    } else if setbits(s[i], 13) >= 5 {
        Some(i)
    } else {
        first_flush(s, i + 1)
    }
}

/// Find the suit whose value mask has at least five set bits, if any: with at
/// most seven cards at most one suit can qualify.
pub fn find_flush(suit_value_sets: &[u32]) -> (r: Option<usize>)
    requires
        forall|i: int|
            0 <= i < suit_value_sets@.len() ==> #[trigger] suit_value_sets@[i] < 0x2000,
    ensures
        match r {
            Some(i) => first_flush(suit_value_sets@, 0) == Some(i as int),
            None => first_flush(suit_value_sets@, 0) == None::<int>,
        },
{
    let n = suit_value_sets.len();
    let mut i: usize = 0;
    while i < n
        invariant
            i <= n,
            n == suit_value_sets@.len(),
            forall|k: int| 0 <= k < n ==> #[trigger] suit_value_sets@[k] < 0x2000,
            first_flush(suit_value_sets@, 0) == first_flush(suit_value_sets@, i as int),
        decreases n - i,
    {
        let sv = suit_value_sets[i];
        if popcount(sv) >= 5 {
            return Some(i);
        }
        i = i + 1;
    }
    None
}

/// A card as the evaluator sees it: a value `0..13` (deuce through ace) and
/// a suit `0..4`.
#[derive(Debug, Clone, Copy, PartialEq, Eq, Structural)]
pub struct Card {
    pub value: u8,
    pub suit: u8,
}

impl Card {
    /// Split a card id `0..52` into its value and suit.
    pub fn new(v: u8) -> (r: Self)
        requires
            v < 52,
        ensures
            r.value == v / 4,
            r.suit == v % 4,
    {
        let value = v / 4;
        let suit = v % 4;
        Self { value, suit }
    }
}

/// A card the evaluator can work on: value below 13, suit below 4.
pub open spec fn card_ok(c: Card) -> bool {
    c.value < 13 && c.suit < 4
}

/// A rankable hand: five to seven valid, pairwise distinct cards.
pub open spec fn hand_ok(s: Seq<Card>) -> bool {
    &&& 5 <= s.len() <= 7
    &&& forall|i: int| 0 <= i < s.len() ==> card_ok(#[trigger] s[i])
    &&& s.no_duplicates()
}

/// How many of the first `n` cards of `s` are exactly `x`.
pub open spec fn occ(s: Seq<Card>, x: Card, n: int) -> nat
    decreases n,
{
    if n <= 0 {
        0
    } else {
        occ(s, x, n - 1) + if s[n - 1] == x {
            1nat
        } else {
            0nat
        }
    }
}

/// How many of the first `n` cards of `s` carry value `v`.
pub open spec fn vcount(s: Seq<Card>, v: int, n: int) -> nat
    decreases n,
{
    if n <= 0 {
        0
    } else {
        vcount(s, v, n - 1) + if s[n - 1].value == v {
            1nat
        } else {
            0nat
        }
    }
}

/// The mask of values present among the first `n` cards of `s`.
pub open spec fn value_set_of(s: Seq<Card>, n: int) -> u32
    decreases n,
{
    if n <= 0 {
        0u32
    } else {
        value_set_of(s, n - 1) | (1u32 << (s[n - 1].value as u32))
    }
}

/// The mask of values that cards of suit `st` carry among the first `n`
/// cards of `s`.
pub open spec fn suit_set_of(s: Seq<Card>, st: u8, n: int) -> u32
    decreases n,
{
    if n <= 0 {
        0u32
    } else if s[n - 1].suit == st {
        suit_set_of(s, st, n - 1) | (1u32 << (s[n - 1].value as u32))
    } else {
        suit_set_of(s, st, n - 1)
    }
}

/// The mask of values below `v` that occur exactly `c` times in `s`.
pub open spec fn count_mask_of(s: Seq<Card>, c: nat, v: int) -> u32
    decreases v,
{
    if v <= 0 {
        0u32
    } else if vcount(s, v - 1, s.len() as int) == c {
        count_mask_of(s, c, v - 1) | (1u32 << ((v - 1) as u32))
    } else {
        count_mask_of(s, c, v - 1)
    }
}

proof fn lemma_value_set_char(s: Seq<Card>, n: int)
    requires
        0 <= n <= s.len(),
        forall|i: int| 0 <= i < s.len() ==> card_ok(#[trigger] s[i]),
    ensures
        value_set_of(s, n) < 0x2000,
        forall|v: int|
            #![trigger bit(value_set_of(s, n), v as u32)]
            #![trigger vcount(s, v, n)]
            0 <= v < 13 ==> (bit(value_set_of(s, n), v as u32) <==> vcount(s, v, n) > 0),
    decreases n,
{
    lemma_bit_zero();
    if n > 0 {
        lemma_value_set_char(s, n - 1);
        let prev = value_set_of(s, n - 1);
        let w = s[n - 1].value as u32;
        lemma_bit_single(w);
        lemma_or_bound(prev, 1u32 << w);
        lemma_bit_or(prev, 1u32 << w);
        assert(card_ok(s[n - 1]));
        assert(value_set_of(s, n) == prev | (1u32 << w));
        assert forall|v: int| 0 <= v < 13 implies (bit(value_set_of(s, n), v as u32) <==> vcount(
            s,
            v,
            n,
        ) > 0) by {
            assert(vcount(s, v, n) == vcount(s, v, n - 1) + if s[n - 1].value == v {
                1nat
            } else {
                0nat
            });
            assert(bit(prev | (1u32 << w), v as u32) <==> (bit(prev, v as u32) || v as u32 == w));
            assert(bit(prev, v as u32) <==> vcount(s, v, n - 1) > 0);
        }
    }
}

/// How many of the first `n` cards of `s` are the card of value `v` and
/// suit `st`.
pub open spec fn suit_occ(s: Seq<Card>, v: int, st: u8, n: int) -> nat {
    occ(s, Card { value: v as u8, suit: st }, n)
}

proof fn lemma_suit_set_char(s: Seq<Card>, st: u8, n: int)
    requires
        0 <= n <= s.len(),
        forall|i: int| 0 <= i < s.len() ==> card_ok(#[trigger] s[i]),
    ensures
        suit_set_of(s, st, n) < 0x2000,
        forall|v: int|
            #![trigger bit(suit_set_of(s, st, n), v as u32)]
            #![trigger suit_occ(s, v, st, n)]
            0 <= v < 13 ==> (bit(suit_set_of(s, st, n), v as u32) <==> suit_occ(s, v, st, n) > 0),
    decreases n,
{
    lemma_bit_zero();
    if n > 0 {
        lemma_suit_set_char(s, st, n - 1);
        let prev = suit_set_of(s, st, n - 1);
        let w = s[n - 1].value as u32;
        lemma_bit_single(w);
        lemma_or_bound(prev, 1u32 << w);
        lemma_bit_or(prev, 1u32 << w);
        assert(card_ok(s[n - 1]));
        assert forall|v: int| 0 <= v < 13 implies (bit(suit_set_of(s, st, n), v as u32)
            <==> suit_occ(s, v, st, n) > 0) by {
            let x = Card { value: v as u8, suit: st };
            assert(occ(s, x, n) == occ(s, x, n - 1) + if s[n - 1] == x {
                1nat
            } else {
                0nat
            });
            if s[n - 1].suit == st {
                assert(suit_set_of(s, st, n) == prev | (1u32 << w));
                assert(bit(prev | (1u32 << w), v as u32) <==> (bit(prev, v as u32) || v as u32
                    == w));
                assert((s[n - 1] == x) <==> (s[n - 1].value == v as u8 && s[n - 1].suit == st));
                assert(v as u32 == w <==> s[n - 1].value == v as u8);
            } else {
                assert(suit_set_of(s, st, n) == prev);
                assert(s[n - 1] != x);
            }
            assert(bit(prev, v as u32) <==> suit_occ(s, v, st, n - 1) > 0);
        }
    }
}

proof fn lemma_count_mask_char(s: Seq<Card>, c: nat, v: int)
    requires
        0 <= v <= 13,
    ensures
        count_mask_of(s, c, v) < 0x2000,
        forall|w: int|
            #![trigger bit(count_mask_of(s, c, v), w as u32)]
            #![trigger vcount(s, w, s.len() as int)]
            0 <= w < 13 ==> (bit(count_mask_of(s, c, v), w as u32) <==> (w < v && vcount(
                s,
                w,
                s.len() as int,
            ) == c)),
    decreases v,
{
    lemma_bit_zero();
    if v > 0 {
        lemma_count_mask_char(s, c, v - 1);
        let prev = count_mask_of(s, c, v - 1);
        let w = (v - 1) as u32;
        lemma_bit_single(w);
        lemma_or_bound(prev, 1u32 << w);
        lemma_bit_or(prev, 1u32 << w);
        assert forall|ww: int| 0 <= ww < 13 implies (bit(count_mask_of(s, c, v), ww as u32) <==> (
        ww < v && vcount(s, ww, s.len() as int) == c)) by {
            if vcount(s, v - 1, s.len() as int) == c {
                assert(count_mask_of(s, c, v) == prev | (1u32 << w));
                assert(bit(prev | (1u32 << w), ww as u32) <==> (bit(prev, ww as u32) || bit(
                    1u32 << w,
                    ww as u32,
                )));
                assert(bit(1u32 << w, ww as u32) <==> (ww as u32 == w));
            } else {
                assert(count_mask_of(s, c, v) == prev);
            }
            assert(bit(count_mask_of(s, c, v - 1), ww as u32) <==> (ww < v - 1 && vcount(
                s,
                ww,
                s.len() as int,
            ) == c));
        }
    }
}

proof fn lemma_occ_pos_exists(s: Seq<Card>, x: Card, n: int)
    requires
        0 <= n <= s.len(),
        occ(s, x, n) > 0,
    ensures
        exists|i: int| 0 <= i < n && s[i] == x,
    decreases n,
{
    if n > 0 && s[n - 1] != x {
        lemma_occ_pos_exists(s, x, n - 1);
    }
}

proof fn lemma_occ_le_one(s: Seq<Card>, x: Card, n: int)
    requires
        0 <= n <= s.len(),
        s.no_duplicates(),
    ensures
        occ(s, x, n) <= 1,
    decreases n,
{
    if n > 0 {
        lemma_occ_le_one(s, x, n - 1);
        if s[n - 1] == x && occ(s, x, n - 1) > 0 {
            lemma_occ_pos_exists(s, x, n - 1);
        }
    }
}

proof fn lemma_vcount_decomp(s: Seq<Card>, v: int, n: int)
    requires
        0 <= v < 13,
        0 <= n <= s.len(),
        forall|i: int| 0 <= i < s.len() ==> card_ok(#[trigger] s[i]),
    ensures
        vcount(s, v, n) == occ(s, Card { value: v as u8, suit: 0 }, n) + occ(
            s,
            Card { value: v as u8, suit: 1 },
            n,
        ) + occ(s, Card { value: v as u8, suit: 2 }, n) + occ(
            s,
            Card { value: v as u8, suit: 3 },
            n,
        ),
    decreases n,
{
    if n > 0 {
        lemma_vcount_decomp(s, v, n - 1);
    }
}

/// With no duplicate cards a value occurs at most four times: once per suit.
proof fn lemma_vcount_le4(s: Seq<Card>, v: int, n: int)
    requires
        0 <= v < 13,
        0 <= n <= s.len(),
        forall|i: int| 0 <= i < s.len() ==> card_ok(#[trigger] s[i]),
        s.no_duplicates(),
    ensures
        vcount(s, v, n) <= 4,
{
    lemma_vcount_decomp(s, v, n);
    lemma_occ_le_one(s, Card { value: v as u8, suit: 0 }, n);
    lemma_occ_le_one(s, Card { value: v as u8, suit: 1 }, n);
    lemma_occ_le_one(s, Card { value: v as u8, suit: 2 }, n);
    lemma_occ_le_one(s, Card { value: v as u8, suit: 3 }, n);
}

/// The sum of `vcount` over values below `v`.
pub open spec fn vsum(s: Seq<Card>, v: int, n: int) -> nat
    decreases v,
{
    if v <= 0 {
        0
    } else {
        vsum(s, v - 1, n) + vcount(s, v - 1, n)
    }
}

proof fn lemma_vsum_step_n(s: Seq<Card>, v: int, n: int)
    requires
        0 < n <= s.len(),
    ensures
        vsum(s, v, n) == vsum(s, v, n - 1) + (if 0 <= (s[n - 1].value as int) < v {
            1nat
        } else {
            0nat
        }),
    decreases v,
{
    if v > 0 {
        lemma_vsum_step_n(s, v - 1, n);
    }
}

proof fn lemma_vsum_zero(s: Seq<Card>, v: int)
    ensures
        vsum(s, v, 0) == 0,
    decreases v,
{
    if v > 0 {
        lemma_vsum_zero(s, v - 1);
    }
}

proof fn lemma_vsum_total(s: Seq<Card>, n: int)
    requires
        0 <= n <= s.len(),
        forall|i: int| 0 <= i < s.len() ==> card_ok(#[trigger] s[i]),
    ensures
        vsum(s, 13, n) == n,
    decreases n,
{
    if n > 0 {
        lemma_vsum_total(s, n - 1);
        lemma_vsum_step_n(s, 13, n);
        assert(card_ok(s[n - 1]));
    } else {
        lemma_vsum_zero(s, 13);
    }
}

/// The part of `vsum` contributed by values inside mask `p`.
pub open spec fn vsum_in(s: Seq<Card>, p: u32, v: int, n: int) -> nat
    decreases v,
{
    if v <= 0 {
        0
    } else if bit(p, (v - 1) as u32) {
        vsum_in(s, p, v - 1, n) + vcount(s, v - 1, n)
    } else {
        vsum_in(s, p, v - 1, n)
    }
}

/// The part of `vsum` contributed by values outside mask `p`.
pub open spec fn vsum_out(s: Seq<Card>, p: u32, v: int, n: int) -> nat
    decreases v,
{
    if v <= 0 {
        0
    } else if !bit(p, (v - 1) as u32) {
        vsum_out(s, p, v - 1, n) + vcount(s, v - 1, n)
    } else {
        vsum_out(s, p, v - 1, n)
    }
}

proof fn lemma_vsum_split(s: Seq<Card>, p: u32, v: int, n: int)
    ensures
        vsum(s, v, n) == vsum_in(s, p, v, n) + vsum_out(s, p, v, n),
    decreases v,
{
    if v > 0 {
        lemma_vsum_split(s, p, v - 1, n);
    }
}

proof fn lemma_setbits_le(m: u32, j: u32)
    ensures
        setbits(m, j) <= j,
    decreases j,
{
    if j > 0 {
        lemma_setbits_le(m, (j - 1) as u32);
    }
}

proof fn lemma_setbits_step(p: u32, v: int)
    requires
        0 < v <= 13,
    ensures
        setbits(p, v as u32) == setbits(p, (v - 1) as u32) + (if bit(p, (v - 1) as u32) {
            1u32
        } else {
            0u32
        }),
{
    lemma_setbits_le(p, (v - 1) as u32);
}

proof fn lemma_vsum_in_upper(s: Seq<Card>, p: u32, v: int, n: int, b: nat)
    requires
        0 <= v <= 13,
        forall|w: int| 0 <= w < 13 && bit(p, w as u32) ==> vcount(s, w, n) <= b,
    ensures
        vsum_in(s, p, v, n) <= b * setbits(p, v as u32),
    decreases v,
{
    if v > 0 {
        lemma_vsum_in_upper(s, p, v - 1, n, b);
        lemma_setbits_step(p, v);
        if bit(p, (v - 1) as u32) {
            assert(b * (setbits(p, (v - 1) as u32) + 1) == b * setbits(p, (v - 1) as u32) + b)
                by (nonlinear_arith);
        }
    }
}

proof fn lemma_vsum_in_lower(s: Seq<Card>, p: u32, v: int, n: int, b: nat)
    requires
        0 <= v <= 13,
        forall|w: int| 0 <= w < 13 && bit(p, w as u32) ==> vcount(s, w, n) >= b,
    ensures
        vsum_in(s, p, v, n) >= b * setbits(p, v as u32),
    decreases v,
{
    if v > 0 {
        lemma_vsum_in_lower(s, p, v - 1, n, b);
        lemma_setbits_step(p, v);
        let k0 = setbits(p, (v - 1) as u32) as int;
        let k1 = setbits(p, v as u32) as int;
        if bit(p, (v - 1) as u32) {
            assert(k1 == k0 + 1);
            assert(vcount(s, v - 1, n) >= b);
            assert(vsum_in(s, p, v, n) == vsum_in(s, p, v - 1, n) + vcount(s, v - 1, n));
            assert(b * k1 == b * k0 + b) by (nonlinear_arith)
                requires
                    k1 == k0 + 1,
            ;
        } else {
            assert(k1 == k0);
            assert(vsum_in(s, p, v, n) == vsum_in(s, p, v - 1, n));
        }
    } else {
        assert(b * setbits(p, 0u32) == 0) by (nonlinear_arith)
            requires
                setbits(p, 0u32) == 0,
        ;
        assert(setbits(p, 0u32) == 0);
    }
}

proof fn lemma_vsum_out_pos(s: Seq<Card>, p: u32, v: int, n: int)
    requires
        vsum_out(s, p, v, n) > 0,
    ensures
        exists|w: int| 0 <= w < v && !bit(p, w as u32) && vcount(s, w, n) > 0,
    decreases v,
{
    if v > 0 {
        if !bit(p, (v - 1) as u32) && vcount(s, v - 1, n) > 0 {
        } else {
            lemma_vsum_out_pos(s, p, v - 1, n);
        }
    }
}

/// If the values inside the 13-bit mask `p` each occur at most `b` times and
/// together cannot account for the whole hand, some value outside `p` is
/// present.
proof fn lemma_kicker_exists(s: Seq<Card>, p: u32, n: int, b: nat)
    requires
        0 <= n <= s.len(),
        forall|i: int| 0 <= i < s.len() ==> card_ok(#[trigger] s[i]),
        p < 0x2000,
        forall|w: int| 0 <= w < 13 && bit(p, w as u32) ==> vcount(s, w, n) <= b,
        b * setbits(p, 13) < n,
    ensures
        exists|w: int| 0 <= w < 13 && !bit(p, w as u32) && vcount(s, w, n) > 0,
{
    lemma_vsum_total(s, n);
    lemma_vsum_split(s, p, 13, n);
    lemma_vsum_in_upper(s, p, 13, n, b);
    lemma_vsum_out_pos(s, p, 13, n);
}


/// The four per-suit value masks of the full hand, suit order `0..4`.
pub open spec fn suit_masks(s: Seq<Card>) -> Seq<u32> {
    Seq::new(4, |st: int| suit_set_of(s, st as u8, s.len() as int))
}

proof fn lemma_first_flush_bounds(sq: Seq<u32>, i: int)
    requires
        0 <= i,
    ensures
        match first_flush(sq, i) {
            Some(k) => i <= k < sq.len() && setbits(sq[k], 13) >= 5,
            None => true,
        },
    decreases sq.len() - i,
{
    if i < sq.len() && setbits(sq[i], 13) < 5 {
        lemma_first_flush_bounds(sq, i + 1);
    }
}

/// The rank of the hand `s`, decided from its value, suit and multiplicity
/// masks exactly as the categories are ordered: straight flush, four of a
/// kind, full house, flush, straight, three of a kind, two pair, one pair,
/// high card.
pub open spec fn spec_rank(s: Seq<Card>) -> Rank {
    let n = s.len() as int;
    let vs = value_set_of(s, n);
    let c2 = count_mask_of(s, 2, 13);
    let c3 = count_mask_of(s, 3, 13);
    let c4 = count_mask_of(s, 4, 13);
    match first_flush(suit_masks(s), 0) {
        Some(fi) => {
            let fm = suit_masks(s)[fi];
            match spec_straight(fm) {
                Some(sr) => Rank::StraightFlush(sr),
                None => Rank::Flush(spec_keep_n(fm, 5)),
            }
        },
        None => if c4 != 0 {
            Rank::FourOfAKind(c4 << 13 | spec_keep_highest(vs ^ c4))
        } else if c3 != 0 && setbits(c3, 13) == 2 {
            Rank::FullHouse(spec_keep_highest(c3) << 13 | (c3 ^ spec_keep_highest(c3)))
        } else if c3 != 0 && c2 != 0 {
            Rank::FullHouse(c3 << 13 | spec_keep_highest(c2))
        } else {
            match spec_straight(vs) {
                Some(sr) => Rank::Straight(sr),
                None => if c3 != 0 {
                    Rank::ThreeOfAKind(c3 << 13 | spec_keep_n(vs ^ c3, 2))
                } else if setbits(c2, 13) >= 2 {
                    Rank::TwoPair(spec_keep_n(c2, 2) << 13 | spec_keep_highest(vs ^ spec_keep_n(
                        c2,
                        2,
                    )))
                } else if c2 == 0 {
                    Rank::HighCard(spec_keep_n(vs, 5))
                } else {
                    Rank::OnePair(c2 << 13 | spec_keep_n(vs ^ c2, 3))
                },
            }
        },
    }
}

/// Compute the value mask, the four per-suit masks, and the five
/// per-multiplicity masks of the hand.
fn tally(cards: &[Card]) -> (r: (u32, Vec<u32>, Vec<u32>))
    requires
        1 <= cards@.len() <= 7,
        forall|i: int| 0 <= i < cards@.len() ==> card_ok(#[trigger] cards@[i]),
        cards@.no_duplicates(),
    ensures
        r.0 == value_set_of(cards@, cards@.len() as int),
        r.0 < 0x2000,
        r.1@.len() == 4,
        forall|st: int|
            0 <= st < 4 ==> #[trigger] r.1@[st] == suit_set_of(
                cards@,
                st as u8,
                cards@.len() as int,
            ) && r.1@[st] < 0x2000,
        r.2@.len() == 5,
        forall|c: int|
            0 <= c < 5 ==> #[trigger] r.2@[c] == count_mask_of(cards@, c as nat, 13) && r.2@[c]
                < 0x2000,
{
    let ghost s = cards@;
    let n = cards.len();
    let mut value_set: u32 = 0;
    let mut sv: Vec<u32> = vec![0u32, 0u32, 0u32, 0u32];
    let mut vtc: Vec<u8> = vec![0u8; 13];
    let mut i: usize = 0;
    while i < n
        invariant
            n == s.len(),
            1 <= n <= 7,
            forall|k: int| 0 <= k < s.len() ==> card_ok(#[trigger] s[k]),
            s == cards@,
            i <= n,
            value_set == value_set_of(s, i as int),
            value_set < 0x2000,
            sv@.len() == 4,
            forall|st: int|
                0 <= st < 4 ==> #[trigger] sv@[st] == suit_set_of(s, st as u8, i as int)
                    && sv@[st] < 0x2000,
            vtc@.len() == 13,
            forall|v: int| 0 <= v < 13 ==> #[trigger] vtc@[v] == vcount(s, v, i as int),
            forall|v: int| 0 <= v < 13 ==> #[trigger] vtc@[v] <= i,
        decreases n - i,
    {
        let c = cards[i];
        proof {
            assert(card_ok(s[i as int]));
            lemma_bit_single(c.value as u32);
            lemma_or_bound(value_set, 1u32 << (c.value as u32));
            lemma_or_bound(sv@[c.suit as int], 1u32 << (c.value as u32));
        }
        value_set = value_set | (1u32 << (c.value as u32));
        let cur_sv = sv[c.suit as usize];
        sv[c.suit as usize] = cur_sv | (1u32 << (c.value as u32));
        let cur_cnt = vtc[c.value as usize];
        vtc[c.value as usize] = cur_cnt + 1;
        i = i + 1;
        proof {
            assert forall|st: int| 0 <= st < 4 implies #[trigger] sv@[st] == suit_set_of(
                s,
                st as u8,
                i as int,
            ) && sv@[st] < 0x2000 by {
                if st == c.suit as int {
                    assert(s[i - 1].suit == st as u8);
                } else {
                    assert(s[i - 1].suit != st as u8);
                }
            }
            assert forall|v: int| 0 <= v < 13 implies #[trigger] vtc@[v] == vcount(
                s,
                v,
                i as int,
            ) by {
                assert(vcount(s, v, i as int) == vcount(s, v, i - 1) + if s[i - 1].value == v {
                    1nat
                } else {
                    0nat
                });
            }
        }
    }
    let mut ctv: Vec<u32> = vec![0u32, 0u32, 0u32, 0u32, 0u32];
    let mut v: usize = 0;
    while v < 13
        invariant
            n == s.len(),
            1 <= n <= 7,
            forall|k: int| 0 <= k < s.len() ==> card_ok(#[trigger] s[k]),
            s == cards@,
            s.no_duplicates(),
            v <= 13,
            vtc@.len() == 13,
            forall|w: int| 0 <= w < 13 ==> #[trigger] vtc@[w] == vcount(s, w, n as int),
            ctv@.len() == 5,
            forall|c: int|
                0 <= c < 5 ==> #[trigger] ctv@[c] == count_mask_of(s, c as nat, v as int)
                    && ctv@[c] < 0x2000,
        decreases 13 - v,
    {
        let cnt = vtc[v];
        proof {
            lemma_vcount_le4(s, v as int, n as int);
            assert(vtc@[v as int] == vcount(s, v as int, n as int));
            lemma_bit_single(v as u32);
            lemma_or_bound(ctv@[cnt as int], 1u32 << (v as u32));
        }
        let cur = ctv[cnt as usize];
        ctv[cnt as usize] = cur | (1u32 << (v as u32));
        v = v + 1;
        proof {
            assert forall|c: int| 0 <= c < 5 implies #[trigger] ctv@[c] == count_mask_of(
                s,
                c as nat,
                v as int,
            ) && ctv@[c] < 0x2000 by {
                if c == cnt as int {
                    assert(vcount(s, v - 1, s.len() as int) == c as nat);
                } else {
                    assert(vcount(s, v - 1, s.len() as int) != c as nat);
                }
            }
        }
    }
    (value_set, sv, ctv)
}

/// Rank a hand of five to seven cards.
fn rank_cards(cards: &[Card]) -> (r: Rank)
    requires
        hand_ok(cards@),
    ensures
        r == spec_rank(cards@),
{
    let ghost s = cards@;
    let ghost n = s.len() as int;
    let (value_set, sv, ctv) = tally(cards);
    proof {
        assert(sv@ =~= suit_masks(s));
        lemma_first_flush_bounds(suit_masks(s), 0);
        lemma_value_set_char(s, n);
        lemma_count_mask_char(s, 2, 13);
        lemma_count_mask_char(s, 3, 13);
        lemma_count_mask_char(s, 4, 13);
        lemma_vsum_total(s, n);
        lemma_vsum_split(s, count_mask_of(s, 4, 13), 13, n);
        lemma_vsum_split(s, spec_keep_n(count_mask_of(s, 2, 13), 2), 13, n);
    }
    let flush = find_flush(sv.as_slice());
    match flush {
        Some(fi) => {
            let fm = sv[fi];
            match rank_straight(fm) {
                Some(sr) => Rank::StraightFlush(sr),
                None => Rank::Flush(keep_n(fm, 5)),
            }
        },
        None => {
            let c2 = ctv[2];
            let c3 = ctv[3];
            let c4 = ctv[4];
            if c4 != 0 {
                proof {
                    lemma_quad_kicker(s);
                }
                Rank::FourOfAKind(c4 << 13 | keep_highest(value_set ^ c4))
            } else if c3 != 0 && popcount(c3) == 2 {
                let set = keep_highest(c3);
                Rank::FullHouse(set << 13 | (c3 ^ set))
            } else if c3 != 0 && c2 != 0 {
                Rank::FullHouse(c3 << 13 | keep_highest(c2))
            } else {
                match rank_straight(value_set) {
                    Some(sr) => Rank::Straight(sr),
                    None => {
                        if c3 != 0 {
                            proof {
                                lemma_or_bound(value_set, c3);
                            }
                            Rank::ThreeOfAKind(c3 << 13 | keep_n(value_set ^ c3, 2))
                        } else if popcount(c2) >= 2 {
                            let pairs = keep_n(c2, 2);
                            proof {
                                lemma_two_pair_kicker(s);
                            }
                            Rank::TwoPair(pairs << 13 | keep_highest(value_set ^ pairs))
                        } else if c2 == 0 {
                            Rank::HighCard(keep_n(value_set, 5))
                        } else {
                            proof {
                                lemma_or_bound(value_set, c2);
                            }
                            Rank::OnePair(c2 << 13 | keep_n(value_set ^ c2, 3))
                        }
                    },
                }
            }
        },
    }
}

/// When a hand holds four of a kind, some fifth card of another value is
/// present, so the quads mask never swallows the whole value mask.
proof fn lemma_quad_kicker(s: Seq<Card>)
    requires
        hand_ok(s),
        count_mask_of(s, 4, 13) != 0,
    ensures
        (value_set_of(s, s.len() as int) ^ count_mask_of(s, 4, 13)) != 0,
        (value_set_of(s, s.len() as int) ^ count_mask_of(s, 4, 13)) < 0x2000,
{
    let n = s.len() as int;
    let vs = value_set_of(s, n);
    let c4 = count_mask_of(s, 4, 13);
    lemma_value_set_char(s, n);
    lemma_count_mask_char(s, 4, 13);
    lemma_or_bound(vs, c4);
    lemma_nonzero_has_bit(c4);
    let j = choose|j: u32| j < 17 && bit(c4, j);
    lemma_bit_bound(c4);
    assert(j < 13);
    assert(bit(c4, (j as int) as u32));
    assert(vcount(s, j as int, n) == 4);
    lemma_bit_implies_setbits_pos(c4, j);
    assert forall|w: int| 0 <= w < 13 && bit(c4, w as u32) implies vcount(s, w, n) >= 4 by {}
    lemma_vsum_in_lower(s, c4, 13, n, 4);
    lemma_vsum_split(s, c4, 13, n);
    lemma_vsum_total(s, n);
    let sb = setbits(c4, 13) as int;
    assert(sb >= 1);
    assert(4 * sb <= vsum_in(s, c4, 13, n));
    if sb >= 2 {
        assert(4 * sb >= 8) by (nonlinear_arith)
            requires
                sb >= 2,
        ;
        assert(false);
    }
    assert(sb == 1);
    assert forall|w: int| 0 <= w < 13 && bit(c4, w as u32) implies vcount(s, w, n) <= 4 by {}
    lemma_kicker_exists(s, c4, n, 4);
    let w = choose|w: int| 0 <= w < 13 && !bit(c4, w as u32) && vcount(s, w, n) > 0;
    lemma_bit_xor(vs, c4);
    assert(bit(vs, w as u32));
    assert(bit(vs ^ c4, w as u32));
    lemma_bit_implies_setbits_pos(vs ^ c4, w as u32);
}

/// When a hand holds two pairs and nothing stronger, some fifth card outside
/// the two chosen pairs is present.
proof fn lemma_two_pair_kicker(s: Seq<Card>)
    requires
        hand_ok(s),
        count_mask_of(s, 3, 13) == 0,
        count_mask_of(s, 4, 13) == 0,
        setbits(count_mask_of(s, 2, 13), 13) >= 2,
    ensures
        (value_set_of(s, s.len() as int) ^ spec_keep_n(count_mask_of(s, 2, 13), 2)) != 0,
        (value_set_of(s, s.len() as int) ^ spec_keep_n(count_mask_of(s, 2, 13), 2)) < 0x2000,
{
    let n = s.len() as int;
    let vs = value_set_of(s, n);
    let c2 = count_mask_of(s, 2, 13);
    let pairs = spec_keep_n(c2, 2);
    lemma_value_set_char(s, n);
    lemma_count_mask_char(s, 2, 13);
    lemma_count_mask_char(s, 3, 13);
    lemma_count_mask_char(s, 4, 13);
    lemma_keep_n_props(c2, 2);
    lemma_or_bound(vs, pairs);
    lemma_bit_and(pairs, c2);
    assert(setbits(pairs, 13) == 2);
    assert forall|w: int| 0 <= w < 13 && bit(pairs, w as u32) implies vcount(s, w, n) <= 2 by {
        assert(bit(pairs & c2, w as u32));
        assert(bit(c2, w as u32));
    }
    lemma_kicker_exists(s, pairs, n, 2);
    let w = choose|w: int| 0 <= w < 13 && !bit(pairs, w as u32) && vcount(s, w, n) > 0;
    lemma_bit_xor(vs, pairs);
    assert(bit(vs, w as u32));
    assert(bit(vs ^ pairs, w as u32));
    lemma_bit_implies_setbits_pos(vs ^ pairs, w as u32);
}

/// Anything that can produce its cards can be ranked.
pub trait Rankable {
    /// The cards of the hand, as the evaluator models them.
    spec fn cards_spec(&self) -> Seq<Card>;

    /// The cards of the hand.
    fn cards(&self) -> (r: &[Card])
        ensures
            r@ == self.cards_spec(),
    ;

    /// Rank the best five-card hand among the five to seven cards held.
    fn rank(&self) -> (r: Rank)
        requires
            hand_ok(self.cards_spec()),
        ensures
            r == spec_rank(self.cards_spec()),
    ;

    /// Rank a hand of exactly five cards, branching on the number of
    /// distinct card values instead of building every mask.
    fn rank_five(&self) -> (r: Rank)
        requires
            hand_ok(self.cards_spec()),
            self.cards_spec().len() == 5,
        ensures
            r == spec_rank_five(self.cards_spec()),
    ;
}

impl Rankable for Vec<Card> {
    open spec fn cards_spec(&self) -> Seq<Card> {
        self@
    }

    fn cards(&self) -> (r: &[Card]) {
        self.as_slice()
    }

    fn rank(&self) -> (r: Rank) {
        rank_cards(self.as_slice())
    }

    fn rank_five(&self) -> (r: Rank) {
        rank_five_cards(self.as_slice())
    }
}


/// The mask of suits present among the first `n` cards of `s`.
pub open spec fn suit_bits_of(s: Seq<Card>, n: int) -> u32
    decreases n,
{
    if n <= 0 {
        0u32
    } else {
        suit_bits_of(s, n - 1) | (1u32 << (s[n - 1].suit as u32))
    }
}

/// The rank of a five-card hand, decided by the number of distinct values:
/// five distinct values make a high card, straight, flush or straight
/// flush; four make one pair; three make trips or two pair; two make a
/// full house or four of a kind.
pub open spec fn spec_rank_five(s: Seq<Card>) -> Rank {
    let n = s.len() as int;
    let vs = value_set_of(s, n);
    let c2 = count_mask_of(s, 2, 13);
    let c3 = count_mask_of(s, 3, 13);
    let c4 = count_mask_of(s, 4, 13);
    let ss = suit_bits_of(s, n);
    if setbits(vs, 13) == 5 {
        let is_flush = setbits(ss, 13) == 1;
        match (spec_straight(vs), is_flush) {
            (Option::None, false) => Rank::HighCard(vs),
            (Option::Some(r), false) => Rank::Straight(r),
            (Option::None, true) => Rank::Flush(vs),
            (Option::Some(r), true) => Rank::StraightFlush(r),
        }
    } else if setbits(vs, 13) == 4 {
        Rank::OnePair(c2 << 13 | (vs ^ c2))
    } else if setbits(vs, 13) == 3 {
        if c3 != 0 {
            Rank::ThreeOfAKind(c3 << 13 | (vs ^ c3))
        } else {
            Rank::TwoPair(c2 << 13 | (vs ^ c2))
        }
    } else {
        if c3 != 0 {
            Rank::FullHouse(c3 << 13 | (vs ^ c3))
        } else {
            Rank::FourOfAKind(c4 << 13 | (vs ^ c4))
        }
    }
}

/// Rank a hand of exactly five cards.
fn rank_five_cards(cards: &[Card]) -> (r: Rank)
    requires
        hand_ok(cards@),
        cards@.len() == 5,
    ensures
        r == spec_rank_five(cards@),
{
    let ghost s = cards@;
    let ghost n = s.len() as int;
    let (value_set, _sv, ctv) = tally(cards);
    let mut suit_set: u32 = 0;
    let nc = cards.len();
    let mut i: usize = 0;
    while i < nc
        invariant
            nc == s.len(),
            s == cards@,
            forall|k: int| 0 <= k < s.len() ==> card_ok(#[trigger] s[k]),
            i <= nc,
            suit_set == suit_bits_of(s, i as int),
            suit_set < 16,
        decreases nc - i,
    {
        let c = cards[i];
        proof {
            assert(card_ok(s[i as int]));
            let w = c.suit as u32;
            assert(suit_set < 16 && w < 4 ==> (suit_set | (1u32 << w)) < 16) by (bit_vector);
        }
        suit_set = suit_set | (1u32 << (c.suit as u32));
        i = i + 1;
    }
    let unique_card_count = popcount(value_set);
    let c2 = ctv[2];
    let c3 = ctv[3];
    let c4 = ctv[4];
    if unique_card_count == 5 {
        let suit_count = popcount(suit_set);
        let is_flush = suit_count == 1;
        match (rank_straight(value_set), is_flush) {
            (Option::None, false) => Rank::HighCard(value_set),
            (Option::Some(r), false) => Rank::Straight(r),
            (Option::None, true) => Rank::Flush(value_set),
            (Option::Some(r), true) => Rank::StraightFlush(r),
        }
    } else if unique_card_count == 4 {
        Rank::OnePair(c2 << 13 | (value_set ^ c2))
    } else if unique_card_count == 3 {
        if c3 != 0 {
            Rank::ThreeOfAKind(c3 << 13 | (value_set ^ c3))
        } else {
            Rank::TwoPair(c2 << 13 | (value_set ^ c2))
        }
    } else {
        if c3 != 0 {
            Rank::FullHouse(c3 << 13 | (value_set ^ c3))
        } else {
            Rank::FourOfAKind(c4 << 13 | (value_set ^ c4))
        }
    }
}

proof fn lemma_occ_take_multiset(s: Seq<Card>, x: Card, n: int)
    requires
        0 <= n <= s.len(),
    ensures
        occ(s, x, n) == s.take(n).to_multiset().count(x),
    decreases n,
{
    broadcast use vstd::seq_lib::group_to_multiset_ensures;

    if n == 0 {
        assert(!s.take(0).contains(x));
    } else {
        lemma_occ_take_multiset(s, x, n - 1);
        assert(s.take(n) =~= s.take(n - 1).push(s[n - 1]));
        assert(s.take(n - 1).push(s[n - 1]).to_multiset() =~= s.take(n - 1).to_multiset().insert(
            s[n - 1],
        ));
        if s[n - 1] == x {
            vstd::multiset::lemma_insert_increases_count_by_1(s.take(n - 1).to_multiset(), x);
        } else {
            vstd::multiset::lemma_insert_other_elements_unchanged(
                s.take(n - 1).to_multiset(),
                s[n - 1],
                x,
            );
        }
    }
}

/// The number of occurrences of a card in a hand is its multiset count.
proof fn lemma_occ_multiset(s: Seq<Card>, x: Card)
    ensures
        occ(s, x, s.len() as int) == s.to_multiset().count(x),
{
    lemma_occ_take_multiset(s, x, s.len() as int);
    assert(s.take(s.len() as int) =~= s);
}

/// Hands holding the same cards, in any order, get the same rank: every mask
/// the evaluation reads is determined by how often each card occurs.
pub proof fn lemma_rank_permutation_invariant(h1: Seq<Card>, h2: Seq<Card>)
    requires
        hand_ok(h1),
        hand_ok(h2),
        h1.to_multiset() == h2.to_multiset(),
    ensures
        spec_rank(h1) == spec_rank(h2),
{
    broadcast use vstd::seq_lib::group_to_multiset_ensures;

    let n1 = h1.len() as int;
    let n2 = h2.len() as int;
    assert(h1.len() == h1.to_multiset().len());
    assert(h2.len() == h2.to_multiset().len());
    assert(n1 == n2);
    assert forall|x: Card| occ(h1, x, n1) == occ(h2, x, n2) by {
        lemma_occ_multiset(h1, x);
        lemma_occ_multiset(h2, x);
    }
    assert forall|v: int| 0 <= v < 13 implies vcount(h1, v, n1) == vcount(h2, v, n2) by {
        lemma_vcount_decomp(h1, v, n1);
        lemma_vcount_decomp(h2, v, n2);
    }
    lemma_value_set_char(h1, n1);
    lemma_value_set_char(h2, n2);
    assert forall|j: u32| j < 13 implies (bit(value_set_of(h1, n1), j) <==> bit(
        value_set_of(h2, n2),
        j,
    )) by {
        let v = j as int;
        assert(bit(value_set_of(h1, n1), v as u32) <==> vcount(h1, v, n1) > 0);
        assert(bit(value_set_of(h2, n2), v as u32) <==> vcount(h2, v, n2) > 0);
    }
    lemma_bit_ext13(value_set_of(h1, n1), value_set_of(h2, n2));
    assert forall|c: nat| count_mask_of(h1, c, 13) == count_mask_of(h2, c, 13) by {
        lemma_count_mask_char(h1, c, 13);
        lemma_count_mask_char(h2, c, 13);
        assert forall|j: u32| j < 13 implies (bit(count_mask_of(h1, c, 13), j) <==> bit(
            count_mask_of(h2, c, 13),
            j,
        )) by {
            let w = j as int;
            assert(bit(count_mask_of(h1, c, 13), w as u32) <==> (w < 13 && vcount(h1, w, n1)
                == c));
            assert(bit(count_mask_of(h2, c, 13), w as u32) <==> (w < 13 && vcount(h2, w, n2)
                == c));
        }
        lemma_bit_ext13(count_mask_of(h1, c, 13), count_mask_of(h2, c, 13));
    }
    assert forall|st: u8| st < 4 implies suit_set_of(h1, st, n1) == suit_set_of(h2, st, n2) by {
        lemma_suit_set_char(h1, st, n1);
        lemma_suit_set_char(h2, st, n2);
        assert forall|j: u32| j < 13 implies (bit(suit_set_of(h1, st, n1), j) <==> bit(
            suit_set_of(h2, st, n2),
            j,
        )) by {
            let v = j as int;
            assert(suit_occ(h1, v, st, n1) == occ(h1, Card { value: v as u8, suit: st }, n1));
            assert(suit_occ(h2, v, st, n2) == occ(h2, Card { value: v as u8, suit: st }, n2));
            assert(bit(suit_set_of(h1, st, n1), v as u32) <==> suit_occ(h1, v, st, n1) > 0);
            assert(bit(suit_set_of(h2, st, n2), v as u32) <==> suit_occ(h2, v, st, n2) > 0);
        }
        lemma_bit_ext13(suit_set_of(h1, st, n1), suit_set_of(h2, st, n2));
    }
    assert(suit_masks(h1) =~= suit_masks(h2));
}


proof fn lemma_vsum_out_in(s: Seq<Card>, p: u32, q: u32, v: int, n: int)
    requires
        0 <= v <= 13,
        forall|w: int| 0 <= w < 13 ==> (bit(q, w as u32) <==> (!bit(p, w as u32) && vcount(s, w, n)
            > 0)),
    ensures
        vsum_out(s, p, v, n) == vsum_in(s, q, v, n),
    decreases v,
{
    if v > 0 {
        lemma_vsum_out_in(s, p, q, v - 1, n);
    }
}

proof fn lemma_vsum_in_or(s: Seq<Card>, a: u32, b: u32, v: int, n: int)
    requires
        0 <= v <= 13,
        a < 0x2000,
        b < 0x2000,
        (a & b) == 0,
    ensures
        vsum_in(s, a | b, v, n) == vsum_in(s, a, v, n) + vsum_in(s, b, v, n),
    decreases v,
{
    lemma_bit_or(a, b);
    lemma_bit_and(a, b);
    lemma_bit_zero();
    if v > 0 {
        lemma_vsum_in_or(s, a, b, v - 1, n);
        let w = (v - 1) as u32;
        assert(bit(a & b, w) <==> (bit(a, w) && bit(b, w)));
        assert(!bit(0u32, w));
    }
}

proof fn lemma_setbits_xor_subset(a: u32, b: u32)
    by (bit_vector)
    requires
        a < 0x2000,
        b < 0x2000,
        (b & a) == b,
    ensures
        setbits(a ^ b, 13) == setbits(a, 13) - setbits(b, 13),
        ((a ^ b) & a) == (a ^ b),
        ((a ^ b) & b) == 0,
{
}

proof fn lemma_setbits_or_disjoint(a: u32, b: u32)
    by (bit_vector)
    requires
        a < 0x2000,
        b < 0x2000,
        (a & b) == 0,
    ensures
        setbits(a | b, 13) == setbits(a, 13) + setbits(b, 13),
{
}

proof fn lemma_straight_pop(m: u32)
    by (bit_vector)
    requires
        m < 0x2000,
    ensures
        forall|t: u32| 4 <= t < 13 && #[trigger] run5(m, t) ==> setbits(m, 13) >= 5,
        (m & WHEEL) == WHEEL ==> setbits(m, 13) >= 5,
{
}

proof fn lemma_single_bit_keep_highest(m: u32)
    by (bit_vector)
    requires
        m < 0x2000,
        setbits(m, 13) == 1,
    ensures
        spec_keep_highest(m) == m,
{
}

proof fn lemma_mask_zero(m: u32)
    requires
        m < 0x2000,
        setbits(m, 13) == 0,
    ensures
        m == 0,
{
    if m != 0 {
        lemma_nonzero_has_bit(m);
        let j = choose|j: u32| j < 17 && bit(m, j);
        lemma_bit_bound(m);
        lemma_bit_implies_setbits_pos(m, j);
    }
}

/// No straight hides in a mask of fewer than five values.
proof fn lemma_no_straight(m: u32)
    requires
        m < 0x2000,
        setbits(m, 13) < 5,
    ensures
        spec_straight(m) == None::<u32>,
{
    lemma_straight_pop(m);
    assert(forall|t2: u32| t2 <= 12 ==> !run5(m, t2));
    lemma_straight_top_none(m, 12);
}


/// The multiplicity masks partition the value mask: with no duplicate
/// cards every present value occurs one to four times, so the value count
/// and the hand size are linear in the mask popcounts.
proof fn lemma_count_partition(s: Seq<Card>)
    requires
        hand_ok(s),
    ensures
        setbits(value_set_of(s, s.len() as int), 13) == setbits(count_mask_of(s, 1, 13), 13)
            + setbits(count_mask_of(s, 2, 13), 13) + setbits(count_mask_of(s, 3, 13), 13)
            + setbits(count_mask_of(s, 4, 13), 13),
        s.len() == setbits(count_mask_of(s, 1, 13), 13) + 2 * setbits(count_mask_of(s, 2, 13), 13)
            + 3 * setbits(count_mask_of(s, 3, 13), 13) + 4 * setbits(count_mask_of(s, 4, 13), 13),
{
    let n = s.len() as int;
    let vs = value_set_of(s, n);
    let c1 = count_mask_of(s, 1, 13);
    let c2 = count_mask_of(s, 2, 13);
    let c3 = count_mask_of(s, 3, 13);
    let c4 = count_mask_of(s, 4, 13);
    lemma_value_set_char(s, n);
    lemma_count_mask_char(s, 1, 13);
    lemma_count_mask_char(s, 2, 13);
    lemma_count_mask_char(s, 3, 13);
    lemma_count_mask_char(s, 4, 13);
    assert forall|w: int| 0 <= w < 13 implies vcount(s, w, n) <= 4 by {
        lemma_vcount_le4(s, w, n);
    }
    lemma_bit_and(c1, c2);
    lemma_bit_and(c1, c3);
    lemma_bit_and(c1, c4);
    lemma_bit_and(c2, c3);
    lemma_bit_and(c2, c4);
    lemma_bit_and(c3, c4);
    lemma_bit_zero();
    assert((c1 & c2) == 0) by {
        if (c1 & c2) != 0 {
            lemma_or_bound(c1, c2);
            lemma_nonzero_has_bit(c1 & c2);
            let j = choose|j: u32| j < 17 && bit(c1 & c2, j);
            lemma_bit_bound(c1 & c2);
            assert(j < 13);
            assert(vcount(s, j as int, n) == 1 && vcount(s, j as int, n) == 2);
        }
    }
    assert((c1 & c3) == 0) by {
        if (c1 & c3) != 0 {
            lemma_or_bound(c1, c3);
            lemma_nonzero_has_bit(c1 & c3);
            let j = choose|j: u32| j < 17 && bit(c1 & c3, j);
            lemma_bit_bound(c1 & c3);
            assert(vcount(s, j as int, n) == 1 && vcount(s, j as int, n) == 3);
        }
    }
    assert((c1 & c4) == 0) by {
        if (c1 & c4) != 0 {
            lemma_or_bound(c1, c4);
            lemma_nonzero_has_bit(c1 & c4);
            let j = choose|j: u32| j < 17 && bit(c1 & c4, j);
            lemma_bit_bound(c1 & c4);
            assert(vcount(s, j as int, n) == 1 && vcount(s, j as int, n) == 4);
        }
    }
    assert((c2 & c3) == 0) by {
        if (c2 & c3) != 0 {
            lemma_or_bound(c2, c3);
            lemma_nonzero_has_bit(c2 & c3);
            let j = choose|j: u32| j < 17 && bit(c2 & c3, j);
            lemma_bit_bound(c2 & c3);
            assert(vcount(s, j as int, n) == 2 && vcount(s, j as int, n) == 3);
        }
    }
    assert((c2 & c4) == 0) by {
        if (c2 & c4) != 0 {
            lemma_or_bound(c2, c4);
            lemma_nonzero_has_bit(c2 & c4);
            let j = choose|j: u32| j < 17 && bit(c2 & c4, j);
            lemma_bit_bound(c2 & c4);
            assert(vcount(s, j as int, n) == 2 && vcount(s, j as int, n) == 4);
        }
    }
    assert((c3 & c4) == 0) by {
        if (c3 & c4) != 0 {
            lemma_or_bound(c3, c4);
            lemma_nonzero_has_bit(c3 & c4);
            let j = choose|j: u32| j < 17 && bit(c3 & c4, j);
            lemma_bit_bound(c3 & c4);
            assert(vcount(s, j as int, n) == 3 && vcount(s, j as int, n) == 4);
        }
    }
    lemma_or_bound(c1, c2);
    let c12 = c1 | c2;
    lemma_bit_or(c1, c2);
    assert((c12 & c3) == 0) by {
        lemma_bit_and(c12, c3);
        if (c12 & c3) != 0 {
            lemma_or_bound(c12, c3);
            lemma_nonzero_has_bit(c12 & c3);
            let j = choose|j: u32| j < 17 && bit(c12 & c3, j);
            lemma_bit_bound(c12 & c3);
            assert(bit(c12, j) && bit(c3, j));
            assert(bit(c1 & c3, j) || bit(c2 & c3, j));
        }
    }
    lemma_or_bound(c12, c3);
    let c123 = c12 | c3;
    lemma_bit_or(c12, c3);
    assert((c123 & c4) == 0) by {
        lemma_bit_and(c123, c4);
        if (c123 & c4) != 0 {
            lemma_or_bound(c123, c4);
            lemma_nonzero_has_bit(c123 & c4);
            let j = choose|j: u32| j < 17 && bit(c123 & c4, j);
            lemma_bit_bound(c123 & c4);
            assert(bit(c123, j) && bit(c4, j));
            assert(bit(c1 & c4, j) || bit(c2 & c4, j) || bit(c3 & c4, j));
        }
    }
    lemma_or_bound(c123, c4);
    let c1234 = c123 | c4;
    lemma_bit_or(c123, c4);
    assert(vs == c1234) by {
        assert forall|j: u32| j < 13 implies (bit(vs, j) <==> bit(c1234, j)) by {
            let w = j as int;
            assert(bit(vs, w as u32) <==> vcount(s, w, n) > 0);
            assert(bit(c1, w as u32) <==> vcount(s, w, n) == 1);
            assert(bit(c2, w as u32) <==> vcount(s, w, n) == 2);
            assert(bit(c3, w as u32) <==> vcount(s, w, n) == 3);
            assert(bit(c4, w as u32) <==> vcount(s, w, n) == 4);
        }
        lemma_bit_ext13(vs, c1234);
    }
    lemma_setbits_or_disjoint(c1, c2);
    lemma_setbits_or_disjoint(c12, c3);
    lemma_setbits_or_disjoint(c123, c4);
    lemma_vsum_in_or(s, c1, c2, 13, n);
    lemma_vsum_in_or(s, c12, c3, 13, n);
    lemma_vsum_in_or(s, c123, c4, 13, n);
    lemma_vsum_in_upper(s, c1, 13, n, 1);
    lemma_vsum_in_lower(s, c1, 13, n, 1);
    lemma_vsum_in_upper(s, c2, 13, n, 2);
    lemma_vsum_in_lower(s, c2, 13, n, 2);
    lemma_vsum_in_upper(s, c3, 13, n, 3);
    lemma_vsum_in_lower(s, c3, 13, n, 3);
    lemma_vsum_in_upper(s, c4, 13, n, 4);
    lemma_vsum_in_lower(s, c4, 13, n, 4);
    lemma_vsum_split(s, vs, 13, n);
    lemma_vsum_total(s, n);
    assert(vsum_out(s, vs, 13, n) == vsum_in(s, 0u32, 13, n)) by {
        lemma_bit_zero();
        lemma_vsum_out_in(s, vs, 0u32, 13, n);
    }
    lemma_vsum_in_upper(s, 0u32, 13, n, 0);
    assert(setbits(0u32, 13) == 0) by (bit_vector);
    assert(vsum_in(s, 0u32, 13, n) == 0);
}


/// How many of the first `n` cards of `s` carry suit `st`.
pub open spec fn scount(s: Seq<Card>, st: u8, n: int) -> nat
    decreases n,
{
    if n <= 0 {
        0
    } else {
        scount(s, st, n - 1) + if s[n - 1].suit == st {
            1nat
        } else {
            0nat
        }
    }
}

proof fn lemma_suit_bits_char(s: Seq<Card>, n: int)
    requires
        0 <= n <= s.len(),
        forall|i: int| 0 <= i < s.len() ==> card_ok(#[trigger] s[i]),
    ensures
        suit_bits_of(s, n) < 16,
        forall|st: u8| st < 4 ==> (bit(suit_bits_of(s, n), st as u32) <==> scount(s, st, n) > 0),
    decreases n,
{
    lemma_bit_zero();
    if n > 0 {
        lemma_suit_bits_char(s, n - 1);
        let prev = suit_bits_of(s, n - 1);
        let w = s[n - 1].suit as u32;
        assert(card_ok(s[n - 1]));
        lemma_bit_single(w);
        lemma_bit_or(prev, 1u32 << w);
        assert(prev < 16 && w < 4 ==> (prev | (1u32 << w)) < 16) by (bit_vector);
        assert forall|st: u8| st < 4 implies (bit(suit_bits_of(s, n), st as u32) <==> scount(
            s,
            st,
            n,
        ) > 0) by {
            assert(scount(s, st, n) == scount(s, st, n - 1) + if s[n - 1].suit == st {
                1nat
            } else {
                0nat
            });
            assert(bit(prev | (1u32 << w), st as u32) <==> (bit(prev, st as u32) || st as u32
                == w));
        }
    }
}

proof fn lemma_ssum4(s: Seq<Card>, n: int)
    requires
        0 <= n <= s.len(),
        forall|i: int| 0 <= i < s.len() ==> card_ok(#[trigger] s[i]),
    ensures
        scount(s, 0, n) + scount(s, 1, n) + scount(s, 2, n) + scount(s, 3, n) == n,
    decreases n,
{
    if n > 0 {
        lemma_ssum4(s, n - 1);
        assert(card_ok(s[n - 1]));
    }
}

proof fn lemma_suit_mask_le(s: Seq<Card>, st: u8, n: int)
    requires
        0 <= n <= s.len(),
        forall|i: int| 0 <= i < s.len() ==> card_ok(#[trigger] s[i]),
    ensures
        setbits(suit_set_of(s, st, n), 13) <= scount(s, st, n),
        suit_set_of(s, st, n) < 0x2000,
    decreases n,
{
    lemma_suit_set_char(s, st, n);
    assert(setbits(0u32, 13) == 0) by (bit_vector);
    if n > 0 {
        lemma_suit_mask_le(s, st, n - 1);
        if s[n - 1].suit == st {
            let prev = suit_set_of(s, st, n - 1);
            let w = s[n - 1].value as u32;
            assert(card_ok(s[n - 1]));
            assert(prev < 0x2000 && w < 13 ==> setbits(prev | (1u32 << w), 13) <= setbits(
                prev,
                13,
            ) + 1) by (bit_vector);
        }
    }
}

proof fn lemma_scount_at(s: Seq<Card>, i: int, st: u8, n: int)
    requires
        0 <= i < n <= s.len(),
        s[i].suit == st,
    ensures
        scount(s, st, n) >= 1,
    decreases n,
{
    if i < n - 1 {
        lemma_scount_at(s, i, st, n - 1);
    }
}


proof fn lemma_subset_and(a: u32, b: u32)
    requires
        a < 0x2000,
        b < 0x2000,
        forall|j: u32| j < 13 ==> (bit(a, j) ==> bit(b, j)),
    ensures
        (a & b) == a,
{
    lemma_bit_and(a, b);
    lemma_or_bound(a, b);
    lemma_bit_ext13(a & b, a);
}

/// With five distinct cards, a lone suit means a five-value flush whose
/// suit mask is the whole value mask; with several suits no flush exists.
proof fn lemma_flush_cases(s: Seq<Card>)
    requires
        hand_ok(s),
        s.len() == 5,
    ensures
        setbits(suit_bits_of(s, 5), 13) == 1 ==> {
            &&& first_flush(suit_masks(s), 0) == Some(s[0].suit as int)
            &&& suit_masks(s)[s[0].suit as int] == value_set_of(s, 5)
            &&& setbits(value_set_of(s, 5), 13) == 5
        },
        setbits(suit_bits_of(s, 5), 13) != 1 ==> first_flush(suit_masks(s), 0) == None::<int>,
{
    let n = 5int;
    let vs = value_set_of(s, n);
    let sb = suit_bits_of(s, n);
    lemma_value_set_char(s, n);
    lemma_suit_bits_char(s, n);
    lemma_ssum4(s, n);
    assert forall|st: u8| st < 4 implies setbits(suit_set_of(s, st, n), 13) <= scount(
        s,
        st,
        n,
    ) && suit_set_of(s, st, n) < 0x2000 by {
        lemma_suit_mask_le(s, st, n);
    }
    assert(card_ok(s[0]));
    let st0 = s[0].suit;
    lemma_scount_at(s, 0, st0, n);
    assert(bit(sb, st0 as u32));
    if setbits(sb, 13) == 1 {
        // Every card carries the first card's suit.
        assert forall|i: int| 0 <= i < 5 implies (#[trigger] s[i]).suit == st0 by {
            assert(card_ok(s[i]));
            lemma_scount_at(s, i, s[i].suit, n);
            assert(bit(sb, s[i].suit as u32));
            let a = s[i].suit as u32;
            let b = st0 as u32;
            assert(a == b) by (bit_vector)
                requires
                    a < 4,
                    b < 4,
                    sb < 16,
                    setbits(sb, 13) == 1,
                    bit(sb, a),
                    bit(sb, b),
            ;
        }
        // Other suits hold no cards, so their masks are empty.
        assert forall|st: u8| st < 4 && st != st0 implies suit_set_of(s, st, n) == 0 by {
            assert(scount(s, st, n) == 0) by {
                if scount(s, st, n) > 0 {
                    assert(bit(sb, st as u32));
                    let a = st as u32;
                    let b = st0 as u32;
                    assert(a == b) by (bit_vector)
                        requires
                            a < 4,
                            b < 4,
                            sb < 16,
                            setbits(sb, 13) == 1,
                            bit(sb, a),
                            bit(sb, b),
                    ;
                }
            }
            lemma_mask_zero(suit_set_of(s, st, n));
        }
        // The lone suit's mask is the value mask.
        lemma_suit_set_char(s, st0, n);
        assert forall|j: u32| j < 13 implies (bit(suit_set_of(s, st0, n), j) <==> bit(vs, j)) by {
            let v = j as int;
            lemma_vcount_decomp(s, v, n);
            assert(bit(suit_set_of(s, st0, n), v as u32) <==> suit_occ(s, v, st0, n) > 0);
            assert(bit(vs, v as u32) <==> vcount(s, v, n) > 0);
            assert forall|st: u8| st < 4 && st != st0 implies #[trigger] suit_occ(s, v, st, n)
                == 0 by {
                if occ(s, Card { value: v as u8, suit: st }, n) > 0 {
                    lemma_occ_pos_exists(s, Card { value: v as u8, suit: st }, n);
                }
            }
            assert(suit_occ(s, v, st0, n) == occ(s, Card { value: v as u8, suit: st0 }, n));
            assert(suit_occ(s, v, 0, n) + suit_occ(s, v, 1, n) + suit_occ(s, v, 2, n) + suit_occ(
                s,
                v,
                3,
                n,
            ) == vcount(s, v, n));
        }
        lemma_suit_mask_le(s, st0, n);
        lemma_bit_ext13(suit_set_of(s, st0, n), vs);
        // Distinct same-suit cards have distinct values: five values present.
        assert forall|w: int| 0 <= w < 13 && bit(vs, w as u32) implies vcount(s, w, n) == 1 by {
            lemma_vcount_decomp(s, w, n);
            lemma_occ_le_one(s, Card { value: w as u8, suit: st0 }, n);
            assert forall|st: u8| st < 4 && st != st0 implies #[trigger] suit_occ(s, w, st, n)
                == 0 by {
                if occ(s, Card { value: w as u8, suit: st }, n) > 0 {
                    lemma_occ_pos_exists(s, Card { value: w as u8, suit: st }, n);
                }
            }
            assert(suit_occ(s, w, 0, n) + suit_occ(s, w, 1, n) + suit_occ(s, w, 2, n) + suit_occ(
                s,
                w,
                3,
                n,
            ) == vcount(s, w, n));
            assert(suit_occ(s, w, st0, n) == occ(s, Card { value: w as u8, suit: st0 }, n));
        }
        lemma_vsum_split(s, vs, 13, n);
        lemma_vsum_total(s, n);
        lemma_vsum_in_upper(s, vs, 13, n, 1);
        lemma_vsum_in_lower(s, vs, 13, n, 1);
        lemma_bit_zero();
        assert(vsum_out(s, vs, 13, n) == vsum_in(s, 0u32, 13, n)) by {
            lemma_vsum_out_in(s, vs, 0u32, 13, n);
        }
        lemma_vsum_in_upper(s, 0u32, 13, n, 0);
        assert(setbits(0u32, 13) == 0) by (bit_vector);
        assert(setbits(vs, 13) == 5);
        // The first flush scan stops at the lone suit.
        assert(setbits(suit_masks(s)[st0 as int], 13) >= 5);
        assert forall|st: int| 0 <= st < st0 as int implies setbits(
            #[trigger] suit_masks(s)[st],
            13,
        ) < 5 by {
            assert(suit_set_of(s, st as u8, n) == 0);
            assert(setbits(0u32, 13) == 0) by (bit_vector);
        }
        assert(first_flush(suit_masks(s), 0) == Some(st0 as int)) by {
            if st0 == 0 {
            } else if st0 == 1 {
                assert(first_flush(suit_masks(s), 0) == first_flush(suit_masks(s), 1));
            } else if st0 == 2 {
                assert(first_flush(suit_masks(s), 0) == first_flush(suit_masks(s), 1));
                assert(first_flush(suit_masks(s), 1) == first_flush(suit_masks(s), 2));
            } else {
                assert(first_flush(suit_masks(s), 0) == first_flush(suit_masks(s), 1));
                assert(first_flush(suit_masks(s), 1) == first_flush(suit_masks(s), 2));
                assert(first_flush(suit_masks(s), 2) == first_flush(suit_masks(s), 3));
            }
        }
    } else {
        // At least two suits are in play, so no suit holds five cards.
        lemma_bit_implies_setbits_pos(sb, st0 as u32);
        assert(setbits(sb, 13) >= 2) by {
            if setbits(sb, 13) == 1 {
                assert(false);
            } else {
                let x = setbits(sb, 13);
                assert(x >= 1 && x != 1 ==> x >= 2);
            }
        }
        assert(bit(sb, 0u32) && bit(sb, 1u32) || bit(sb, 0u32) && bit(sb, 2u32) || bit(sb, 0u32)
            && bit(sb, 3u32) || bit(sb, 1u32) && bit(sb, 2u32) || bit(sb, 1u32) && bit(sb, 3u32)
            || bit(sb, 2u32) && bit(sb, 3u32)) by (bit_vector)
            requires
                sb < 16,
                setbits(sb, 13) >= 2,
        ;
        assert forall|st: u8| st < 4 implies scount(s, st, n) <= 4 by {
            if scount(s, st, n) >= 5 {
                assert(scount(s, 0, n) + scount(s, 1, n) + scount(s, 2, n) + scount(s, 3, n)
                    == 5);
                // Some other suit is also present, so the totals overflow five.
                if st != 0 && bit(sb, 0u32) {
                    assert(scount(s, 0, n) > 0);
                } else if st != 1 && bit(sb, 1u32) {
                    assert(scount(s, 1, n) > 0);
                } else if st != 2 && bit(sb, 2u32) {
                    assert(scount(s, 2, n) > 0);
                } else if st != 3 && bit(sb, 3u32) {
                    assert(scount(s, 3, n) > 0);
                }
                assert(false);
            }
        }
        assert(first_flush(suit_masks(s), 0) == first_flush(suit_masks(s), 1));
        assert(first_flush(suit_masks(s), 1) == first_flush(suit_masks(s), 2));
        assert(first_flush(suit_masks(s), 2) == first_flush(suit_masks(s), 3));
        assert(first_flush(suit_masks(s), 3) == first_flush(suit_masks(s), 4));
    }
}


proof fn lemma_count_mask_in_values(s: Seq<Card>, c: nat)
    requires
        hand_ok(s),
        c >= 1,
    ensures
        forall|j: u32|
            j < 13 && bit(count_mask_of(s, c, 13), j) ==> bit(
                value_set_of(s, s.len() as int),
                j,
            ),
{
    let n = s.len() as int;
    lemma_value_set_char(s, n);
    lemma_count_mask_char(s, c, 13);
    assert forall|j: u32| j < 13 && bit(count_mask_of(s, c, 13), j) implies bit(
        value_set_of(s, n),
        j,
    ) by {
        let w = j as int;
        assert(bit(count_mask_of(s, c, 13), w as u32) <==> (w < 13 && vcount(s, w, n) == c));
        assert(bit(value_set_of(s, n), w as u32) <==> vcount(s, w, n) > 0);
    }
}

/// The five-card fast path agrees with the general evaluation: on five
/// distinct cards, branching on the number of distinct values reaches the
/// same rank, category and tiebreak alike, as the full mask walk.
pub proof fn lemma_rank_five_agrees(s: Seq<Card>)
    requires
        hand_ok(s),
        s.len() == 5,
    ensures
        spec_rank_five(s) == spec_rank(s),
{
    let n = 5int;
    let vs = value_set_of(s, n);
    let c1 = count_mask_of(s, 1, 13);
    let c2 = count_mask_of(s, 2, 13);
    let c3 = count_mask_of(s, 3, 13);
    let c4 = count_mask_of(s, 4, 13);
    let sb = suit_bits_of(s, n);
    let ucc = setbits(vs, 13) as int;
    let k1 = setbits(c1, 13) as int;
    let k2 = setbits(c2, 13) as int;
    let k3 = setbits(c3, 13) as int;
    let k4 = setbits(c4, 13) as int;
    lemma_value_set_char(s, n);
    lemma_count_mask_char(s, 1, 13);
    lemma_count_mask_char(s, 2, 13);
    lemma_count_mask_char(s, 3, 13);
    lemma_count_mask_char(s, 4, 13);
    lemma_count_partition(s);
    lemma_flush_cases(s);
    lemma_suit_bits_char(s, n);
    assert(ucc == k1 + k2 + k3 + k4);
    assert(5 == k1 + 2 * k2 + 3 * k3 + 4 * k4);
    if setbits(sb, 13) == 1 {
        // A lone suit: five distinct values, and the flush mask is the
        // value mask, so both paths match on (straight, flush).
        assert(ucc == 5);
        assert(suit_masks(s)[s[0].suit as int] == vs);
        lemma_keep_n_props(vs, 5);
        assert(spec_keep_n(vs, 5) == vs);
    } else {
        // Several suits: no flush on either path.
        assert(first_flush(suit_masks(s), 0) == None::<int>);
        assert(setbits(sb, 13) != 1);
        if ucc == 5 {
            assert(k2 == 0 && k3 == 0 && k4 == 0);
            lemma_mask_zero(c2);
            lemma_mask_zero(c3);
            lemma_mask_zero(c4);
            lemma_keep_n_props(vs, 5);
            assert(spec_keep_n(vs, 5) == vs);
        } else if ucc == 4 {
            assert(k2 == 1 && k3 == 0 && k4 == 0);
            lemma_mask_zero(c3);
            lemma_mask_zero(c4);
            assert(c2 != 0) by {
                if c2 == 0 {
                    assert(setbits(0u32, 13) == 0) by (bit_vector);
                }
            }
            lemma_no_straight(vs);
            lemma_count_mask_in_values(s, 2 as nat);
            lemma_subset_and(c2, vs);
            lemma_setbits_xor_subset(vs, c2);
            lemma_or_bound(vs, c2);
            lemma_keep_n_props(vs ^ c2, 3);
            assert(spec_keep_n(vs ^ c2, 3) == (vs ^ c2));
            assert(setbits(c2, 13) < 2);
        } else if ucc == 3 {
            lemma_no_straight(vs);
            if k3 == 1 {
                assert(k2 == 0 && k4 == 0);
                lemma_mask_zero(c2);
                lemma_mask_zero(c4);
                assert(c3 != 0) by {
                    if c3 == 0 {
                        assert(setbits(0u32, 13) == 0) by (bit_vector);
                    }
                }
                lemma_count_mask_in_values(s, 3 as nat);
            lemma_subset_and(c3, vs);
                lemma_setbits_xor_subset(vs, c3);
                lemma_or_bound(vs, c3);
                lemma_keep_n_props(vs ^ c3, 2);
                assert(spec_keep_n(vs ^ c3, 2) == (vs ^ c3));
                assert(setbits(c3, 13) != 2);
            } else {
                assert(k3 == 0 && k2 == 2 && k4 == 0);
                lemma_mask_zero(c3);
                lemma_mask_zero(c4);
                lemma_keep_n_props(c2, 2);
                assert(spec_keep_n(c2, 2) == c2);
                lemma_count_mask_in_values(s, 2 as nat);
            lemma_subset_and(c2, vs);
                lemma_setbits_xor_subset(vs, c2);
                lemma_or_bound(vs, c2);
                lemma_single_bit_keep_highest(vs ^ c2);
                assert(spec_keep_highest(vs ^ c2) == (vs ^ c2));
                assert(c3 == 0);
            }
        } else {
            assert(ucc == 2) by {
                if ucc <= 1 {
                    assert(k1 + 2 * k2 + 3 * k3 + 4 * k4 <= 4 * (k1 + k2 + k3 + k4));
                }
            }
            lemma_no_straight(vs);
            if k4 == 1 {
                assert(k2 == 0 && k3 == 0 && k1 == 1);
                lemma_mask_zero(c2);
                lemma_mask_zero(c3);
                assert(c4 != 0) by {
                    if c4 == 0 {
                        assert(setbits(0u32, 13) == 0) by (bit_vector);
                    }
                }
                lemma_count_mask_in_values(s, 4 as nat);
            lemma_subset_and(c4, vs);
                lemma_setbits_xor_subset(vs, c4);
                lemma_or_bound(vs, c4);
                lemma_single_bit_keep_highest(vs ^ c4);
                assert(spec_keep_highest(vs ^ c4) == (vs ^ c4));
            } else {
                assert(k4 == 0 && k3 == 1 && k2 == 1 && k1 == 0);
                lemma_mask_zero(c4);
                lemma_mask_zero(c1);
                assert(c3 != 0 && c2 != 0) by {
                    assert(setbits(0u32, 13) == 0) by (bit_vector);
                }
                lemma_single_bit_keep_highest(c2);
                assert(spec_keep_highest(c2) == c2);
                assert((vs ^ c3) == c2) by {
                    lemma_or_bound(vs, c3);
                    lemma_bit_xor(vs, c3);
                    lemma_bit_zero();
                    assert forall|j: u32| j < 13 implies (bit(vs ^ c3, j) <==> bit(c2, j)) by {
                        let w = j as int;
                        assert(bit(vs, w as u32) <==> vcount(s, w, n) > 0);
                        assert(bit(c1, w as u32) <==> vcount(s, w, n) == 1);
                        assert(bit(c2, w as u32) <==> vcount(s, w, n) == 2);
                        assert(bit(c3, w as u32) <==> vcount(s, w, n) == 3);
                        assert(bit(c4, w as u32) <==> vcount(s, w, n) == 4);
                        lemma_vcount_le4(s, w, n);
                        assert(!bit(c1, w as u32) && !bit(c4, w as u32));
                    }
                    lemma_bit_ext13(vs ^ c3, c2);
                }
                assert(setbits(c3, 13) != 2);
            }
        }
    }
}

} // verus!
