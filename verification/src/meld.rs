//! Melds, arrangements, and the exact deadwood solver.
//!
//! A [`Meld`] is a *set* (3-4 cards of one rank) or a *run* (3+ consecutive
//! cards of one suit).  A [`Melds`] is one chosen arrangement of a hand into
//! at most three disjoint melds plus deadwood.  [`best_melds`] and
//! [`deadwood`] solve the optimization gin rummy revolves around: splitting
//! a hand into disjoint melds that minimize the pip value of the leftovers.
//!
//! The solver enumerates all 329 possible melds (65 sets and 264 runs) as
//! card bitsets, keeps those applicable to the hand, and runs a
//! branch-and-bound search over "the lowest card is deadwood or starts one
//! of its melds", which explores every disjoint packing.

use crate::bits::{
    bit, count, count_below, disjoint, group_bit_ops, lemma_bits_ext, lemma_below_monotone,
    lemma_count_split, lemma_pips_split, lemma_remove_smaller, pips, pips_below, pos_value,
    subset, valid_pos, ALL_BITS,
};
use crate::hand::{Card, Hand, Rank, rank_of, lemma_rank_of_value, lemma_value_of_rank};
use crate::Suit;
use vstd::prelude::*;

pub use crate::notation::ParseMeldError;

verus! {

broadcast use group_bit_ops, crate::hand::lemma_hand_bits;

/// The bits of the four cards of rank `r`.
pub open spec fn rank_column(r: int) -> u64 {
    (1u64 << (r as u64)) | ((1u64 << (r as u64)) << 16u64) | ((1u64 << (r as u64)) << 32u64) | ((
    1u64 << (r as u64)) << 48u64)
}

/// The bits of the 16-bit lane of suit `m`.
pub open spec fn suit_lane(m: int) -> u64 {
    0xFFFFu64 << ((16 * m) as u64)
}

/// The bits of ranks `lo..=hi` within one lane.
pub open spec fn span(lo: int, hi: int) -> u64 {
    ((1u64 << ((hi + 1) as u64)) - (1u64 << (lo as u64))) as u64
}

/// Whether `x` is exactly the set of rank `r` without suit `missing`
/// (`-1` for the set of all four suits).
pub open spec fn is_set_of(x: u64, r: int, missing: int) -> bool {
    &&& 1 <= r <= 13
    &&& -1 <= missing < 4
    &&& forall|p: int| 0 <= p < 64 ==> (#[trigger] bit(x, p) <==> (p % 16 == r && p / 16 != missing))
}

/// Whether `x` is exactly the run of suit `s` spanning ranks `lo..=hi`, at
/// least three cards long.
pub open spec fn is_run_of(x: u64, s: int, lo: int, hi: int) -> bool {
    &&& 0 <= s < 4
    &&& 1 <= lo
    &&& lo + 2 <= hi <= 13
    &&& forall|p: int| 0 <= p < 64 ==> (#[trigger] bit(x, p) <==> (p / 16 == s && lo <= p % 16 <= hi))
}

/// Whether the card set `x` is a set.
pub open spec fn is_set_bits(x: u64) -> bool {
    exists|r: int, m: int| is_set_of(x, r, m)
}

/// Whether the card set `x` is a run.
pub open spec fn is_run_bits(x: u64) -> bool {
    exists|s: int, lo: int, hi: int| is_run_of(x, s, lo, hi)
}

/// Whether the card set `x` is a meld: a set or a run.
pub open spec fn is_meld_bits(x: u64) -> bool {
    is_set_bits(x) || is_run_bits(x)
}

/// Whether all cards of `x` are of suit `s`.
pub open spec fn in_lane(x: u64, s: int) -> bool {
    forall|p: int| #[trigger] bit(x, p) ==> p / 16 == s
}

/// Whether all cards of `x` are of one suit.
pub open spec fn one_suit(x: u64) -> bool {
    exists|s: int| 0 <= s < 4 && #[trigger] in_lane(x, s)
}

proof fn bv_column(r: u64, p: u64)
    by (bit_vector)
    requires
        1 <= r <= 13,
        p < 64,
    ensures
        ((((1u64 << r) | ((1u64 << r) << 16u64) | ((1u64 << r) << 32u64) | ((1u64 << r) << 48u64))
            >> p) & 1u64 == 1u64) <==> (p % 16 == r),
{
}

proof fn bv_suit_lane(m: u64, p: u64)
    by (bit_vector)
    requires
        m < 4,
        p < 64,
    ensures
        (((0xFFFFu64 << (16 * m)) >> p) & 1u64 == 1u64) <==> (p / 16 == m),
{
}

proof fn bv_span(l: u64, h: u64, q: u64)
    by (bit_vector)
    requires
        l <= h,
        h <= 13,
        q < 64,
    ensures
        (1u64 << (h + 1)) >= (1u64 << l),
        (((((1u64 << (h + 1)) - (1u64 << l)) as u64) >> q) & 1u64 == 1u64) <==> (l <= q && q <= h),
{
}

proof fn bv_shl(y: u64, k: u64, p: u64)
    by (bit_vector)
    requires
        k < 64,
        p < 64,
    ensures
        (((y << k) >> p) & 1u64 == 1u64) <==> (k <= p && ((y >> ((p - k) as u64)) & 1u64 == 1u64)),
{
}


/// The bits of a rank column are the four cards of that rank.
pub proof fn lemma_rank_column(r: int)
    requires
        1 <= r <= 13,
    ensures
        forall|p: int| 0 <= p < 64 ==> (#[trigger] bit(rank_column(r), p) <==> p % 16 == r),
{
    assert forall|p: int| 0 <= p < 64 implies (#[trigger] bit(rank_column(r), p) <==> p % 16
        == r) by {
        bv_column(r as u64, p as u64);
    }
}

/// The bits of a suit lane are the 16 positions of that suit.
pub proof fn lemma_suit_lane(m: int)
    requires
        0 <= m < 4,
    ensures
        forall|p: int| 0 <= p < 64 ==> (#[trigger] bit(suit_lane(m), p) <==> p / 16 == m),
{
    assert forall|p: int| 0 <= p < 64 implies (#[trigger] bit(suit_lane(m), p) <==> p / 16
        == m) by {
        bv_suit_lane(m as u64, p as u64);
    }
}

/// The bits of a shifted word are the word's bits moved up.
pub proof fn lemma_shl(y: u64, k: int)
    requires
        0 <= k < 64,
    ensures
        forall|p: int| 0 <= p < 64 ==> (#[trigger] bit(y << (k as u64), p) <==> (k <= p && bit(
            y,
            p - k,
        ))),
{
    assert forall|p: int| 0 <= p < 64 implies (#[trigger] bit(y << (k as u64), p) <==> (k <= p
        && bit(y, p - k))) by {
        bv_shl(y, k as u64, p as u64);
    }
}

/// The bits of a span are its ranks.
pub proof fn lemma_span(lo: int, hi: int)
    requires
        0 <= lo <= hi <= 13,
    ensures
        (1u64 << ((hi + 1) as u64)) >= (1u64 << (lo as u64)),
        forall|q: int| 0 <= q < 64 ==> (#[trigger] bit(span(lo, hi), q) <==> lo <= q <= hi),
{
    bv_span(lo as u64, hi as u64, 0);
    assert forall|q: int| 0 <= q < 64 implies (#[trigger] bit(span(lo, hi), q) <==> lo <= q
        <= hi) by {
        bv_span(lo as u64, hi as u64, q as u64);
    }
}

/// The set of rank `r`, without suit `missing` unless it is `-1`.
pub open spec fn set_mask(r: int, missing: int) -> u64 {
    if missing < 0 {
        rank_column(r)
    } else {
        rank_column(r) & !suit_lane(missing)
    }
}

/// The run of suit `s` spanning ranks `lo..=hi`.
pub open spec fn run_mask(s: int, lo: int, hi: int) -> u64 {
    span(lo, hi) << ((16 * s) as u64)
}

/// The set mask is the set it names.
pub proof fn lemma_set_mask(r: int, missing: int)
    requires
        1 <= r <= 13,
        -1 <= missing < 4,
    ensures
        is_set_of(set_mask(r, missing), r, missing),
{
    lemma_rank_column(r);
    if missing >= 0 {
        lemma_suit_lane(missing);
    }
}

/// The run mask is the run it names.
pub proof fn lemma_run_mask(s: int, lo: int, hi: int)
    requires
        0 <= s < 4,
        1 <= lo,
        lo + 2 <= hi <= 13,
    ensures
        is_run_of(run_mask(s, lo, hi), s, lo, hi),
{
    lemma_span(lo, hi);
    lemma_shl(span(lo, hi), 16 * s);
    assert forall|p: int| 0 <= p < 64 implies (#[trigger] bit(run_mask(s, lo, hi), p) <==> (p
        / 16 == s && lo <= p % 16 <= hi)) by {
        if 16 * s <= p {
            assert(bit(span(lo, hi), p - 16 * s) <==> lo <= p - 16 * s <= hi);
        }
    }
}

/// A set is determined by its rank and missing suit.
pub proof fn lemma_set_unique(x: u64, r: int, m: int)
    requires
        is_set_of(x, r, m),
    ensures
        x == set_mask(r, m),
{
    lemma_set_mask(r, m);
    assert forall|p: int| 0 <= p < 64 implies #[trigger] bit(x, p) == bit(set_mask(r, m), p) by {}
    lemma_bits_ext(x, set_mask(r, m));
}

/// A run is determined by its suit and span.
pub proof fn lemma_run_unique(x: u64, s: int, lo: int, hi: int)
    requires
        is_run_of(x, s, lo, hi),
    ensures
        x == run_mask(s, lo, hi),
{
    lemma_run_mask(s, lo, hi);
    assert forall|p: int| 0 <= p < 64 implies #[trigger] bit(x, p) == bit(run_mask(s, lo, hi), p) by {}
    lemma_bits_ext(x, run_mask(s, lo, hi));
}

/// Melds hold valid cards only.
pub proof fn lemma_meld_valid(x: u64)
    requires
        is_meld_bits(x),
    ensures
        subset(x, ALL_BITS),
{
    assert forall|p: int| #[trigger] bit(x, p) implies bit(ALL_BITS, p) by {
        if is_set_bits(x) {
            let (r, m) = choose|r: int, m: int| is_set_of(x, r, m);
        } else {
            let (s, lo, hi) = choose|s: int, lo: int, hi: int| is_run_of(x, s, lo, hi);
        }
    }
}


/// The two shapes of a meld
#[derive(Debug, Clone, Copy, PartialEq, Eq, Structural, Hash)]
pub enum MeldKind {
    /// 3 or 4 cards of the same rank (a set, also called a group)
    Group,
    /// 3 or more consecutive cards of the same suit
    Run,
}

/// Error indicating that cards do not form a meld
#[derive(Debug, Clone, Copy, PartialEq, Eq, Structural, Hash)]
pub enum InvalidMeld {
    /// A meld requires at least 3 cards
    TooFewCards,
    /// Cards of one suit do not form consecutive ranks
    NotConsecutive,
    /// Cards of several suits form neither a set nor a run
    MixedCards,
    /// The card set contains bits outside the 52-card deck
    UnknownCards,
}

/// The lowest set bit of a nonzero word.
pub(crate) fn lowest_bit(x: u64) -> (p: u64)
    requires
        x != 0,
    ensures
        p < 64,
        bit(x, p as int),
        forall|q: int| 0 <= q < p ==> !#[trigger] bit(x, q),
{
    let mut p: u64 = 0;
    while p < 64 && (x >> p) & 1 != 1
        invariant
            x != 0,
            p <= 64,
            forall|q: int| 0 <= q < p ==> !#[trigger] bit(x, q),
        decreases 64 - p,
    {
        p += 1;
    }
    if p >= 64 {
        proof {
            lemma_bits_ext(x, 0u64);
        }
    }
    p
}

/// The highest rank held in lane `s`, or 0 when the lane is empty.
fn highest_in_lane(x: u64, s: u64) -> (q: u64)
    requires
        s < 4,
    ensures
        q < 16,
        q > 0 ==> bit(x, 16 * s + q),
        forall|t: int| q < t < 16 ==> !#[trigger] bit(x, 16 * s + t),
{
    let mut q: u64 = 15;
    while q > 0 && (x >> (16 * s + q)) & 1 != 1
        invariant
            s < 4,
            q < 16,
            forall|t: int| q < t < 16 ==> !#[trigger] bit(x, 16 * s + t),
        decreases q,
    {
        q -= 1;
    }
    q
}

/// The bits of the four cards of rank `r`.
fn column_exec(r: u64) -> (x: u64)
    requires
        1 <= r <= 13,
    ensures
        x == rank_column(r as int),
{
    (1u64 << r) | ((1u64 << r) << 16u64) | ((1u64 << r) << 32u64) | ((1u64 << r) << 48u64)
}

/// The bits of the run of suit `s` spanning ranks `lo..=hi`.
fn run_exec(s: u64, lo: u64, hi: u64) -> (x: u64)
    requires
        s < 4,
        lo <= hi <= 13,
    ensures
        x == run_mask(s as int, lo as int, hi as int),
{
    proof {
        lemma_span(lo as int, hi as int);
    }
    ((1u64 << (hi + 1)) - (1u64 << lo)) << (16 * s)
}

/// A validated meld: a card set that is entirely one set or one run
///
/// A meld is internally a [`Hand`], so meld membership tests are single
/// bitwise operations on the shared `u64` layout.
#[derive(Debug, Clone, Copy, PartialEq, Eq, Structural, Hash)]
pub struct Meld(Hand);

impl Meld {
    /// A meld is always a set or a run.
    #[verifier::type_invariant]
    closed spec fn inv(self) -> bool {
        is_meld_bits(self.0.bits())
    }

    /// The card bits of the meld
    pub closed spec fn bits(self) -> u64 {
        self.0.bits()
    }

    /// Whether this meld is a run
    pub open spec fn is_run(self) -> bool {
        is_run_bits(self.bits())
    }

    /// The meld with the given cards, which form a meld
    pub closed spec fn from_bits_spec(x: u64) -> Meld {
        Meld(Hand::from_bits_spec(x))
    }

    /// The meld with given bits has those bits.
    pub broadcast proof fn lemma_from_bits_spec(x: u64)
        ensures
            #[trigger] Meld::from_bits_spec(x).bits() == x,
    {
        crate::hand::lemma_hand_bits(x);
    }

    /// An exec meld's cards form a meld.
    pub fn lemma_valid(&self)
        ensures
            is_meld_bits(self.bits()),
    {
        proof {
            use_type_invariant(self);
        }
    }

    /// Create a set of the given rank, with all four suits (`None`) or the
    /// three suits other than `missing`
    pub fn set(rank: Rank, missing: Option<Suit>) -> (m: Meld)
        ensures
            m.bits() == set_mask(
                rank.value(),
                match missing {
                    None => -1,
                    Some(suit) => suit.idx(),
                },
            ),
    {
        let r = rank.get() as u64;
        let all = column_exec(r);
        let x = match missing {
            None => all,
            Some(suit) => all & !(0xFFFFu64 << (16 * (suit.index() as u64))),
        };
        proof {
            let m = match missing {
                None => -1,
                Some(suit) => suit.idx(),
            };
            lemma_set_mask(r as int, m);
        }
        Meld(Hand::from_bits_retain(x))
    }

    /// Create a run of the given suit spanning `low..=high`, at least three
    /// cards long
    pub fn run(suit: Suit, low: Rank, high: Rank) -> (m: Meld)
        requires
            high.value() >= low.value() + 2,
        ensures
            m.bits() == run_mask(suit.idx(), low.value(), high.value()),
    {
        let x = run_exec(suit.index() as u64, low.get() as u64, high.get() as u64);
        proof {
            lemma_run_mask(suit.idx(), low.value(), high.value());
        }
        Meld(Hand::from_bits_retain(x))
    }

    /// Try to create a run of the given suit spanning `low..=high`
    pub fn try_run(suit: Suit, low: Rank, high: Rank) -> (r: Result<Meld, InvalidMeld>)
        ensures
            high.value() < low.value() + 2 ==> r == Err::<Meld, InvalidMeld>(
                InvalidMeld::TooFewCards,
            ),
            high.value() >= low.value() + 2 ==> (r matches Ok(m) && m.bits() == run_mask(
                suit.idx(),
                low.value(),
                high.value(),
            )),
    {
        if high.get() < low.get() + 2 {
            Err(InvalidMeld::TooFewCards)
        } else {
            Ok(Meld::run(suit, low, high))
        }
    }

    /// Try to create a meld from a card set
    ///
    /// Cards outside the deck are rejected first, then sets of fewer than
    /// three cards; a card set of one suit that is no run is not
    /// consecutive, and any other non-meld mixes cards.
    pub fn try_from_cards(cards: Hand) -> (r: Result<Meld, InvalidMeld>)
        ensures
            !subset(cards.bits(), ALL_BITS) ==> r == Err::<Meld, InvalidMeld>(
                InvalidMeld::UnknownCards,
            ),
            subset(cards.bits(), ALL_BITS) && count(cards.bits()) < 3 ==> r == Err::<
                Meld,
                InvalidMeld,
            >(InvalidMeld::TooFewCards),
            subset(cards.bits(), ALL_BITS) && count(cards.bits()) >= 3 && is_meld_bits(
                cards.bits(),
            ) ==> (r matches Ok(m) && m.bits() == cards.bits()),
            subset(cards.bits(), ALL_BITS) && count(cards.bits()) >= 3 && !is_meld_bits(
                cards.bits(),
            ) && one_suit(cards.bits()) ==> r == Err::<Meld, InvalidMeld>(
                InvalidMeld::NotConsecutive,
            ),
            subset(cards.bits(), ALL_BITS) && count(cards.bits()) >= 3 && !is_meld_bits(
                cards.bits(),
            ) && !one_suit(cards.bits()) ==> r == Err::<Meld, InvalidMeld>(
                InvalidMeld::MixedCards,
            ),
    {
        if cards.contains_unknown_bits() {
            return Err(InvalidMeld::UnknownCards);
        }
        if cards.len() < 3 {
            return Err(InvalidMeld::TooFewCards);
        }
        let x = cards.to_bits();
        proof {
            if x == 0 {
                assert(count_below(0u64, 64) == 0) by {
                    lemma_zero_count(64);
                }
            }
        }
        let p = lowest_bit(x);
        let s = p / 16;
        let r = p % 16;
        proof {
            assert(bit(ALL_BITS, p as int));
        }
        let col = column_exec(r);
        if x == col {
            proof {
                lemma_set_mask(r as int, -1);
            }
            return Ok(Meld(cards));
        }
        let mut m: u64 = 0;
        while m < 4
            invariant
                m <= 4,
                1 <= r <= 13,
                x == cards.bits(),
                subset(x, ALL_BITS),
                count(x) >= 3,
                col == rank_column(r as int),
                forall|k: int| -1 <= k < m ==> x != #[trigger] set_mask(r as int, k),
            decreases 4 - m,
        {
            if x == col & !(0xFFFFu64 << (16 * m)) {
                proof {
                    lemma_set_mask(r as int, m as int);
                }
                return Ok(Meld(cards));
            }
            m += 1;
        }
        let hi = highest_in_lane(x, s);
        proof {
            assert(bit(x, 16 * s + r));
        }
        if hi >= r + 2 {
            let run = run_exec(s, r, hi);
            if x == run {
                proof {
                    lemma_run_mask(s as int, r as int, hi as int);
                }
                return Ok(Meld(cards));
            }
        }
        proof {
            // No set matches: a set would be of the lowest card's rank.
            if is_set_bits(x) {
                let (r2, m2) = choose|r2: int, m2: int| is_set_of(x, r2, m2);
                assert(bit(x, p as int));
                assert(r2 == r);
                lemma_set_unique(x, r2, m2);
            }
            // No run matches: a run would start at the lowest card and end at
            // the highest card of its lane.
            if is_run_bits(x) {
                let (s2, lo2, hi2) = choose|s2: int, lo2: int, hi2: int| is_run_of(x, s2, lo2, hi2);
                assert(bit(x, p as int));
                assert(s2 == s);
                assert(bit(x, 16 * s2 + lo2));
                assert(lo2 == r);
                assert(bit(x, 16 * s2 + hi2));
                if hi < hi2 {
                    assert(!bit(x, 16 * s + hi2));
                }
                if hi > hi2 {
                    assert(bit(x, 16 * s + hi));
                }
                assert(hi == hi2);
                lemma_run_unique(x, s2, lo2, hi2);
            }
        }
        let lane = 0xFFFFu64 << (16 * s);
        proof {
            assert(lane == suit_lane(s as int));
            lemma_suit_lane(s as int);
        }
        if x & !lane == 0 {
            proof {
                assert forall|q: int| #[trigger] bit(x, q) implies q / 16 == s by {
                    assert(!bit(x & !lane, q));
                }
                assert(in_lane(x, s as int));
            }
            Err(InvalidMeld::NotConsecutive)
        } else {
            proof {
                if one_suit(x) {
                    let s2 = choose|s2: int| 0 <= s2 < 4 && #[trigger] in_lane(x, s2);
                    assert(bit(x, p as int));
                    assert(s2 == s);
                    assert forall|q: int| 0 <= q < 64 implies #[trigger] bit(x & !lane, q)
                        == bit(0u64, q) by {}
                    lemma_bits_ext(x & !lane, 0u64);
                }
            }
            Err(InvalidMeld::MixedCards)
        }
    }
}

/// The count of zero is zero.
proof fn lemma_zero_count(n: int)
    ensures
        count_below(0u64, n) == 0,
    decreases n,
{
    if n > 0 {
        lemma_zero_count(n - 1);
    }
}

/// Counting below a bound grows with the bound.
pub proof fn lemma_count_below_mono(x: u64, m: int, n: int)
    requires
        0 <= m <= n,
    ensures
        count_below(x, m) <= count_below(x, n),
    decreases n - m,
{
    if m < n {
        lemma_count_below_mono(x, m, n - 1);
    }
}

/// Three distinct cards make a count of at least three.
pub proof fn lemma_three_bits(x: u64, a: int, b: int, c: int)
    requires
        0 <= a < b < c < 64,
        bit(x, a),
        bit(x, b),
        bit(x, c),
    ensures
        count(x) >= 3,
{
    lemma_count_below_mono(x, a + 1, b);
    lemma_count_below_mono(x, b + 1, c);
    lemma_count_below_mono(x, c + 1, 64);
}

/// Every meld has at least three cards.
pub proof fn lemma_meld_count(x: u64)
    requires
        is_meld_bits(x),
    ensures
        count(x) >= 3,
        x != 0,
{
    if is_set_bits(x) {
        let (r, m) = choose|r: int, m: int| is_set_of(x, r, m);
        if m == 0 {
            lemma_three_bits(x, 16 + r, 32 + r, 48 + r);
        } else if m == 1 {
            lemma_three_bits(x, r, 32 + r, 48 + r);
        } else if m == 2 {
            lemma_three_bits(x, r, 16 + r, 48 + r);
        } else {
            lemma_three_bits(x, r, 16 + r, 32 + r);
        }
    } else {
        let (s, lo, hi) = choose|s: int, lo: int, hi: int| is_run_of(x, s, lo, hi);
        lemma_three_bits(x, 16 * s + lo, 16 * s + lo + 1, 16 * s + lo + 2);
    }
    if x == 0 {
        lemma_zero_count(64);
    }
}

/// No meld is both a set and a run.
pub proof fn lemma_set_not_run(x: u64)
    requires
        is_set_bits(x),
    ensures
        !is_run_bits(x),
{
    if is_run_bits(x) {
        let (r, m) = choose|r: int, m: int| is_set_of(x, r, m);
        let (s, lo, hi) = choose|s: int, lo: int, hi: int| is_run_of(x, s, lo, hi);
        assert(bit(x, 16 * s + lo));
        assert(bit(x, 16 * s + lo + 1));
    }
}

impl Meld {
    /// The shape of this meld
    pub fn kind(self) -> (k: MeldKind)
        ensures
            (k == MeldKind::Run) == self.is_run(),
            (k == MeldKind::Group) == is_set_bits(self.bits()),
    {
        proof {
            use_type_invariant(&self);
            lemma_meld_count(self.bits());
        }
        let x = self.0.to_bits();
        let p = lowest_bit(x);
        let up1 = p + 16 < 64 && (x >> (p + 16)) & 1 == 1;
        let up2 = p + 32 < 64 && (x >> (p + 32)) & 1 == 1;
        proof {
            if is_set_bits(x) {
                lemma_set_not_run(x);
                let (r, m) = choose|r: int, m: int| is_set_of(x, r, m);
                assert(p % 16 == r);
                assert(p == 16 * (p / 16) + r);
                if p / 16 >= 1 {
                    assert(!bit(x, r));
                }
                if p / 16 >= 2 {
                    assert(!bit(x, 16 + r));
                }
                if p / 16 == 0 {
                    if m != 1 {
                        assert(bit(x, 16 + r));
                    } else {
                        assert(bit(x, 32 + r));
                    }
                } else {
                    assert(bit(x, 32 + r));
                }
            } else {
                let (s, lo, hi) = choose|s: int, lo: int, hi: int| is_run_of(x, s, lo, hi);
                assert(p / 16 == s);
                assert((p + 16) / 16 == s + 1);
                assert((p + 32) / 16 == s + 2);
                assert(!bit(x, p + 16));
                assert(!bit(x, p + 32));
            }
        }
        if up1 || up2 {
            MeldKind::Group
        } else {
            MeldKind::Run
        }
    }

    /// The cards of this meld
    pub fn cards(self) -> (h: Hand)
        ensures
            h.bits() == self.bits(),
    {
        self.0
    }

    /// The number of cards in this meld, from 3 to 13
    pub fn len(self) -> (n: usize)
        ensures
            n == count(self.bits()),
            n >= 3,
            n <= 13,
    {
        proof {
            use_type_invariant(&self);
            lemma_meld_count(self.bits());
            lemma_meld_count_upper(self.bits());
        }
        self.0.len()
    }

    /// The suit of a run, or `None` for a set
    pub fn suit(self) -> (r: Option<Suit>)
        ensures
            self.is_run() ==> (r matches Some(suit) && exists|lo: int, hi: int|
                is_run_of(self.bits(), suit.idx(), lo, hi)),
            !self.is_run() ==> r.is_none(),
    {
        match self.kind() {
            MeldKind::Group => None,
            MeldKind::Run => {
                let x = self.0.to_bits();
                proof {
                    lemma_meld_count(x);
                }
                let p = lowest_bit(x);
                let suit = Suit::from_index((p / 16) as usize);
                proof {
                    let (s, lo, hi) = choose|s: int, lo: int, hi: int| is_run_of(x, s, lo, hi);
                    assert(p / 16 == s);
                    assert(is_run_of(x, suit.idx(), lo, hi));
                }
                Some(suit)
            },
        }
    }

    /// The rank of a set, or `None` for a run
    pub fn rank(self) -> (r: Option<Rank>)
        ensures
            is_set_bits(self.bits()) ==> (r matches Some(rank) && exists|m: int|
                is_set_of(self.bits(), rank.value(), m)),
            !is_set_bits(self.bits()) ==> r.is_none(),
    {
        match self.kind() {
            MeldKind::Run => None,
            MeldKind::Group => {
                let x = self.0.to_bits();
                proof {
                    lemma_meld_count(x);
                }
                let p = lowest_bit(x);
                proof {
                    let (r, m) = choose|r: int, m: int| is_set_of(x, r, m);
                    assert(p % 16 == r);
                }
                let rank = Rank::new((p % 16) as u8);
                proof {
                    let (r, m) = choose|r: int, m: int| is_set_of(x, r, m);
                    assert(is_set_of(x, rank.value(), m));
                }
                Some(rank)
            },
        }
    }

    /// The lowest rank of a run, or `None` for a set
    pub fn low(self) -> (r: Option<Rank>)
        ensures
            self.is_run() ==> (r matches Some(low) && exists|s: int, hi: int|
                is_run_of(self.bits(), s, low.value(), hi)),
            !self.is_run() ==> r.is_none(),
    {
        match self.kind() {
            MeldKind::Group => None,
            MeldKind::Run => {
                let x = self.0.to_bits();
                proof {
                    lemma_meld_count(x);
                }
                let p = lowest_bit(x);
                proof {
                    let (s, lo, hi) = choose|s: int, lo: int, hi: int| is_run_of(x, s, lo, hi);
                    assert(bit(x, 16 * s + lo));
                    assert(p == 16 * s + lo);
                }
                let low = Rank::new((p % 16) as u8);
                Some(low)
            },
        }
    }

    /// The highest rank of a run, or `None` for a set
    pub fn high(self) -> (r: Option<Rank>)
        ensures
            self.is_run() ==> (r matches Some(high) && exists|s: int, lo: int|
                is_run_of(self.bits(), s, lo, high.value())),
            !self.is_run() ==> r.is_none(),
    {
        match self.kind() {
            MeldKind::Group => None,
            MeldKind::Run => {
                let x = self.0.to_bits();
                proof {
                    lemma_meld_count(x);
                }
                let p = lowest_bit(x);
                let q = highest_in_lane(x, p / 16);
                proof {
                    let (s, lo, hi) = choose|s: int, lo: int, hi: int| is_run_of(x, s, lo, hi);
                    assert(p / 16 == s);
                    assert(bit(x, 16 * s + hi));
                    if q < hi {
                        assert(!bit(x, 16 * s + hi));
                    }
                    if q > hi {
                        assert(bit(x, 16 * s + q));
                    }
                    assert(q == hi);
                }
                let high = Rank::new(q as u8);
                Some(high)
            },
        }
    }

    /// The meld extended by a card, or `None` if the card does not fit
    ///
    /// This is the layoff primitive: a card extends a 3-card set of its rank
    /// or prolongs a run of its suit at either end.  Chained layoffs work by
    /// extending the returned meld again.
    pub fn extended(self, card: Card) -> (r: Option<Meld>)
        ensures
            bit(self.bits(), card.pos()) ==> r.is_none(),
            !bit(self.bits(), card.pos()) && is_meld_bits(self.bits() | (1u64 << card.pos() as u64))
                ==> (r matches Some(m) && m.bits() == self.bits() | (1u64 << card.pos() as u64)),
            !bit(self.bits(), card.pos()) && !is_meld_bits(self.bits() | (1u64
                << card.pos() as u64)) ==> r.is_none(),
    {
        proof {
            use_type_invariant(&self);
            lemma_meld_count(self.bits());
            lemma_meld_valid(self.bits());
        }
        if self.0.contains(card) {
            return None;
        }
        let mut cards = self.0;
        cards.insert(card);
        proof {
            let y = cards.bits();
            let x = self.bits();
            assert(subset(x, y));
            lemma_below_monotone(x, y, 64);
            let q = card.pos();
            assert(valid_pos(q));
            assert(subset(y, ALL_BITS));
        }
        match Meld::try_from_cards(cards) {
            Ok(m) => Some(m),
            Err(_) => None,
        }
    }
}

/// Pushing keeps every element a sequence contains.
proof fn lemma_push_keeps(t: Seq<u64>, x: u64, y: u64)
    requires
        t.contains(y),
    ensures
        t.push(x).contains(y),
{
    let i = choose|i: int| 0 <= i < t.len() && t[i] == y;
    assert(t.push(x)[i] == y);
}

/// Pushing adds the pushed element.
proof fn lemma_push_has(t: Seq<u64>, x: u64)
    ensures
        t.push(x).contains(x),
{
    assert(t.push(x)[t.len() as int] == x);
}

/// All 329 possible melds as card bitsets: the 264 runs first, then the 65
/// sets
fn build_melds() -> (t: Vec<u64>)
    ensures
        forall|i: int| 0 <= i < t@.len() ==> is_meld_bits(#[trigger] t@[i]),
        forall|x: u64| is_meld_bits(x) ==> #[trigger] t@.contains(x),
        forall|i: int, j: int|
            0 <= i < j < t@.len() && is_set_bits(#[trigger] t@[i]) ==> is_set_bits(#[trigger] t@[j]),
{
    broadcast use vstd::seq_lib::lemma_seq_contains_after_push;

    let mut t: Vec<u64> = Vec::new();
    let mut s: u64 = 0;
    while s < 4
        invariant
            s <= 4,
            forall|i: int| 0 <= i < t@.len() ==> is_meld_bits(#[trigger] t@[i]),
            forall|i: int| 0 <= i < t@.len() ==> is_run_bits(#[trigger] t@[i]),
            forall|s2: int, lo: int, hi: int|
                0 <= s2 < s && 1 <= lo && lo + 2 <= hi <= 13 ==> t@.contains(
                    #[trigger] run_mask(s2, lo, hi),
                ),
        decreases 4 - s,
    {
        let mut lo: u64 = 1;
        while lo <= 11
            invariant
                s < 4,
                1 <= lo <= 12,
                forall|i: int| 0 <= i < t@.len() ==> is_meld_bits(#[trigger] t@[i]),
                forall|i: int| 0 <= i < t@.len() ==> is_run_bits(#[trigger] t@[i]),
                forall|s2: int, l: int, hi: int|
                    (0 <= s2 < s || (s2 == s && l < lo)) && 1 <= l && l + 2 <= hi <= 13
                        ==> t@.contains(#[trigger] run_mask(s2, l, hi)),
            decreases 12 - lo,
        {
            let mut hi: u64 = lo + 2;
            while hi <= 13
                invariant
                    s < 4,
                    1 <= lo <= 11,
                    lo + 2 <= hi <= 14,
                    forall|i: int| 0 <= i < t@.len() ==> is_meld_bits(#[trigger] t@[i]),
                    forall|i: int| 0 <= i < t@.len() ==> is_run_bits(#[trigger] t@[i]),
                    forall|s2: int, l: int, h: int|
                        ((0 <= s2 < s || (s2 == s && l < lo)) || (s2 == s && l == lo && h < hi))
                            && 1 <= l && l + 2 <= h <= 13 ==> t@.contains(
                            #[trigger] run_mask(s2, l, h),
                        ),
                decreases 14 - hi,
            {
                let x = run_exec(s, lo, hi);
                proof {
                    lemma_run_mask(s as int, lo as int, hi as int);
                }
                let ghost prev = t@;
                t.push(x);
                proof {
                    lemma_push_has(prev, x);
                    assert forall|s2: int, l: int, h: int|
                        ((0 <= s2 < s || (s2 == s && l < lo)) || (s2 == s && l == lo && h < hi
                            + 1)) && 1 <= l && l + 2 <= h <= 13 implies t@.contains(
                        #[trigger] run_mask(s2, l, h),
                    ) by {
                        if !(s2 == s && l == lo && h == hi) {
                            lemma_push_keeps(prev, x, run_mask(s2, l, h));
                        }
                    }
                }
                hi += 1;
            }
            lo += 1;
        }
        s += 1;
    }
    let ghost nr = t@.len();
    let mut r: u64 = 1;
    while r <= 13
        invariant
            1 <= r <= 14,
            nr <= t@.len(),
            forall|i: int| 0 <= i < nr ==> is_run_bits(#[trigger] t@[i]),
            forall|i: int| nr <= i < t@.len() ==> is_set_bits(#[trigger] t@[i]),
            forall|i: int| 0 <= i < t@.len() ==> is_meld_bits(#[trigger] t@[i]),
            forall|s2: int, lo: int, hi: int|
                0 <= s2 < 4 && 1 <= lo && lo + 2 <= hi <= 13 ==> t@.contains(
                    #[trigger] run_mask(s2, lo, hi),
                ),
            forall|r2: int, m: int| 1 <= r2 < r && -1 <= m < 4 ==> t@.contains(
                #[trigger] set_mask(r2, m),
            ),
        decreases 14 - r,
    {
        let col = column_exec(r);
        proof {
            lemma_set_mask(r as int, -1);
        }
        let ghost prev = t@;
        t.push(col);
        proof {
            lemma_push_has(prev, col);
            assert forall|s2: int, lo: int, hi: int|
                0 <= s2 < 4 && 1 <= lo && lo + 2 <= hi <= 13 implies t@.contains(
                #[trigger] run_mask(s2, lo, hi),
            ) by {
                lemma_push_keeps(prev, col, run_mask(s2, lo, hi));
            }
            assert forall|r2: int, m2: int|
                (1 <= r2 < r && -1 <= m2 < 4) || (r2 == r && -1 <= m2 < 0) implies t@.contains(
                #[trigger] set_mask(r2, m2),
            ) by {
                if r2 < r {
                    lemma_push_keeps(prev, col, set_mask(r2, m2));
                }
            }
        }
        let mut m: u64 = 0;
        while m < 4
            invariant
                1 <= r <= 13,
                m <= 4,
                col == rank_column(r as int),
                nr <= t@.len(),
                forall|i: int| 0 <= i < nr ==> is_run_bits(#[trigger] t@[i]),
                forall|i: int| nr <= i < t@.len() ==> is_set_bits(#[trigger] t@[i]),
                forall|i: int| 0 <= i < t@.len() ==> is_meld_bits(#[trigger] t@[i]),
                forall|s2: int, lo: int, hi: int|
                    0 <= s2 < 4 && 1 <= lo && lo + 2 <= hi <= 13 ==> t@.contains(
                        #[trigger] run_mask(s2, lo, hi),
                    ),
                forall|r2: int, m2: int|
                    (1 <= r2 < r && -1 <= m2 < 4) || (r2 == r && -1 <= m2 < m) ==> t@.contains(
                        #[trigger] set_mask(r2, m2),
                    ),
            decreases 4 - m,
        {
            let x = col & !(0xFFFFu64 << (16 * m));
            proof {
                lemma_set_mask(r as int, m as int);
            }
            let ghost prev = t@;
            t.push(x);
            proof {
                lemma_push_has(prev, x);
                assert forall|s2: int, lo: int, hi: int|
                    0 <= s2 < 4 && 1 <= lo && lo + 2 <= hi <= 13 implies t@.contains(
                    #[trigger] run_mask(s2, lo, hi),
                ) by {
                    lemma_push_keeps(prev, x, run_mask(s2, lo, hi));
                }
                assert forall|r2: int, m2: int|
                    (1 <= r2 < r && -1 <= m2 < 4) || (r2 == r && -1 <= m2 < m + 1)
                        implies t@.contains(#[trigger] set_mask(r2, m2)) by {
                    if r2 < r || m2 < m {
                        lemma_push_keeps(prev, x, set_mask(r2, m2));
                    }
                }
            }
            m += 1;
        }
        r += 1;
    }
    proof {
        assert forall|i: int, j: int|
            0 <= i < j < t@.len() && is_set_bits(#[trigger] t@[i]) implies is_set_bits(
            #[trigger] t@[j],
        ) by {
            if i < nr {
                lemma_set_not_run(t@[i]);
            }
        }
        assert forall|x: u64| is_meld_bits(x) implies #[trigger] t@.contains(x) by {
            if is_set_bits(x) {
                let (r2, m2) = choose|r2: int, m2: int| is_set_of(x, r2, m2);
                lemma_set_unique(x, r2, m2);
            } else {
                let (s2, lo, hi) = choose|s2: int, lo: int, hi: int| is_run_of(x, s2, lo, hi);
                lemma_run_unique(x, s2, lo, hi);
            }
        }
    }
    t
}

/// The table of all possible melds the solver searches: the runs first,
/// then the sets (no run follows a set)
pub fn meld_table() -> (v: Vec<Meld>)
    ensures
        forall|i: int| 0 <= i < v@.len() ==> is_meld_bits(#[trigger] v@[i].bits()),
        forall|m: Meld| is_meld_bits(m.bits()) ==> #[trigger] v@.contains(m),
        forall|i: int, j: int|
            0 <= i < j < v@.len() && is_set_bits(#[trigger] v@[i].bits()) ==> is_set_bits(
                #[trigger] v@[j].bits(),
            ),
{
    let t = build_melds();
    let mut v: Vec<Meld> = Vec::new();
    let mut i: usize = 0;
    while i < t.len()
        invariant
            i <= t@.len(),
            v@.len() == i,
            forall|k: int| 0 <= k < t@.len() ==> is_meld_bits(#[trigger] t@[k]),
            forall|k: int| 0 <= k < i ==> #[trigger] v@[k].bits() == t@[k],
        decreases t@.len() - i,
    {
        v.push(Meld(Hand::from_bits_retain(t[i])));
        i += 1;
    }
    proof {
        assert forall|i: int, j: int|
            0 <= i < j < v@.len() && is_set_bits(#[trigger] v@[i].bits()) implies is_set_bits(
            #[trigger] v@[j].bits(),
        ) by {
            assert(v@[i].bits() == t@[i]);
            assert(v@[j].bits() == t@[j]);
        }
        assert forall|m: Meld| is_meld_bits(m.bits()) implies #[trigger] v@.contains(m) by {
            let x = m.bits();
            assert(t@.contains(x));
            let k = choose|k: int| 0 <= k < t@.len() && t@[k] == x;
            assert(v@[k].bits() == x);
            crate::hand::lemma_hand_eq(v@[k].0, m.0);
            assert(v@[k] == m);
        }
    }
    v
}

/// The melds of the table that lie within `hand`, in table order
fn applicable_melds(hand: u64, table: &Vec<u64>) -> (v: Vec<u64>)
    requires
        forall|i: int| 0 <= i < table@.len() ==> is_meld_bits(#[trigger] table@[i]),
        forall|x: u64| is_meld_bits(x) ==> #[trigger] table@.contains(x),
    ensures
        forall|i: int| 0 <= i < v@.len() ==> is_meld_bits(#[trigger] v@[i]) && subset(v@[i], hand),
        forall|x: u64| is_meld_bits(x) && subset(x, hand) ==> #[trigger] v@.contains(x),
{
    broadcast use vstd::seq_lib::lemma_seq_contains_after_push;

    let mut v: Vec<u64> = Vec::new();
    let mut i: usize = 0;
    while i < table.len()
        invariant
            i <= table@.len(),
            forall|k: int| 0 <= k < table@.len() ==> is_meld_bits(#[trigger] table@[k]),
            forall|k: int| 0 <= k < v@.len() ==> is_meld_bits(#[trigger] v@[k]) && subset(
                v@[k],
                hand,
            ),
            forall|k: int| 0 <= k < i && subset(table@[k], hand) ==> v@.contains(
                #[trigger] table@[k],
            ),
        decreases table@.len() - i,
    {
        let m = table[i];
        let ghost prev = v@;
        if m & hand == m {
            proof {
                assert forall|p: int| #[trigger] bit(m, p) implies bit(hand, p) by {
                    assert(bit(m & hand, p));
                }
            }
            v.push(m);
            proof {
                lemma_push_has(prev, m);
                assert forall|k: int| 0 <= k < i && subset(table@[k], hand) implies v@.contains(
                    #[trigger] table@[k],
                ) by {
                    lemma_push_keeps(prev, m, table@[k]);
                }
            }
        } else {
            proof {
                if subset(m, hand) {
                    assert forall|p: int| 0 <= p < 64 implies #[trigger] bit(m & hand, p) == bit(
                        m,
                        p,
                    ) by {}
                    lemma_bits_ext(m & hand, m);
                }
            }
        }
        i += 1;
    }
    proof {
        assert forall|x: u64| is_meld_bits(x) && subset(x, hand) implies #[trigger] v@.contains(
            x,
        ) by {
            assert(table@.contains(x));
            let k = choose|k: int| 0 <= k < table@.len() && table@[k] == x;
            assert(v@.contains(table@[k]));
        }
    }
    v
}

/// The union of a sequence of card sets.
pub open spec fn union_of(ms: Seq<u64>) -> u64
    decreases ms.len(),
{
    if ms.len() == 0 {
        0
    } else {
        union_of(ms.drop_last()) | ms.last()
    }
}

/// Whether `ms` arranges part of the card set `h` into disjoint melds.
pub open spec fn is_arrangement(h: u64, ms: Seq<u64>) -> bool {
    &&& forall|i: int| 0 <= i < ms.len() ==> is_meld_bits(#[trigger] ms[i]) && subset(ms[i], h)
    &&& forall|i: int, j: int| 0 <= i < j < ms.len() ==> disjoint(#[trigger] ms[i], #[trigger] ms[j])
}

/// The cards of `h` left unmelded by `ms`.
pub open spec fn leftover(h: u64, ms: Seq<u64>) -> u64 {
    h & !union_of(ms)
}

/// Whether `d` is the least deadwood over all arrangements of `h`: some
/// arrangement leaves exactly `d`, and none leaves less.
pub open spec fn is_min_deadwood(h: u64, d: int) -> bool {
    &&& exists|ms: Seq<u64>| #[trigger] is_arrangement(h, ms) && d == pips(leftover(h, ms))
    &&& forall|ms: Seq<u64>| #[trigger] is_arrangement(h, ms) ==> d <= pips(leftover(h, ms))
}

/// The least deadwood of a card set over all its arrangements.
pub open spec fn min_deadwood(h: u64) -> int {
    choose|d: int| is_min_deadwood(h, d)
}

/// The least deadwood is unique: any minimum is [`min_deadwood`].
pub proof fn lemma_min_deadwood_unique(h: u64, d: int)
    requires
        is_min_deadwood(h, d),
    ensures
        min_deadwood(h) == d,
{
    let e = min_deadwood(h);
    assert(is_min_deadwood(h, e));
    let ms = choose|ms: Seq<u64>| #[trigger] is_arrangement(h, ms) && d == pips(leftover(h, ms));
    let ns = choose|ns: Seq<u64>| #[trigger] is_arrangement(h, ns) && e == pips(leftover(h, ns));
    assert(e <= pips(leftover(h, ms)));
    assert(d <= pips(leftover(h, ns)));
}

/// Some arrangement leaves the least deadwood: below any achievable
/// deadwood `k` there is a least one.
proof fn lemma_min_below(h: u64, k: nat)
    requires
        exists|ms: Seq<u64>| #[trigger] is_arrangement(h, ms) && pips(leftover(h, ms)) == k,
    ensures
        exists|d: int| is_min_deadwood(h, d),
    decreases k,
{
    if forall|ms: Seq<u64>| #[trigger] is_arrangement(h, ms) ==> k <= pips(leftover(h, ms)) {
        assert(is_min_deadwood(h, k as int));
    } else {
        let ms = choose|ms: Seq<u64>| #[trigger] is_arrangement(h, ms) && !(k <= pips(leftover(h, ms)));
        lemma_min_below(h, pips(leftover(h, ms)));
    }
}

/// Every card set has a least deadwood, and [`min_deadwood`] is it.
pub proof fn lemma_min_deadwood_exists(h: u64)
    ensures
        is_min_deadwood(h, min_deadwood(h)),
{
    let empty = Seq::<u64>::empty();
    assert(is_arrangement(h, empty));
    assert(leftover(h, empty) == h) by {
        assert forall|p: int| 0 <= p < 64 implies #[trigger] bit(leftover(h, empty), p) == bit(h, p) by {}
        lemma_bits_ext(leftover(h, empty), h);
    }
    lemma_min_below(h, pips(h));
}

/// The least deadwood never exceeds the pips of the whole card set: leaving
/// every card unmelded is an arrangement.
pub proof fn lemma_deadwood_at_most_pips(h: u64)
    ensures
        min_deadwood(h) <= pips(h),
{
    lemma_min_deadwood_exists(h);
    let empty = Seq::<u64>::empty();
    assert(is_arrangement(h, empty));
    assert forall|p: int| 0 <= p < 64 implies #[trigger] bit(leftover(h, empty), p) == bit(h, p) by {}
    lemma_bits_ext(leftover(h, empty), h);
}

/// Adding a card raises the least deadwood by at most the card's value: the
/// best arrangement of the smaller set still arranges the larger one.
pub proof fn lemma_deadwood_add_card(h: u64, p: int)
    requires
        0 <= p < 64,
        !bit(h, p),
    ensures
        min_deadwood(h | (1u64 << (p as u64))) <= min_deadwood(h) + pos_value(p),
{
    let one = 1u64 << (p as u64);
    let h2 = h | one;
    lemma_min_deadwood_exists(h);
    lemma_min_deadwood_exists(h2);
    let ms = choose|ms: Seq<u64>| #[trigger] is_arrangement(h, ms) && min_deadwood(h) == pips(
        leftover(h, ms),
    );
    assert(is_arrangement(h2, ms)) by {
        assert forall|i: int| 0 <= i < ms.len() implies is_meld_bits(#[trigger] ms[i]) && subset(
            ms[i],
            h2,
        ) by {
            assert(subset(ms[i], h));
        }
    }
    let l = leftover(h, ms);
    let l2 = leftover(h2, ms);
    lemma_union_bit(ms, p);
    assert(!bit(union_of(ms), p)) by {
        if bit(union_of(ms), p) {
            let i = choose|i: int| 0 <= i < ms.len() && #[trigger] bit(ms[i], p);
            assert(subset(ms[i], h));
        }
    }
    assert forall|q: int| 0 <= q < 64 implies #[trigger] bit(l2 & one, q) == bit(one, q) by {}
    lemma_bits_ext(l2 & one, one);
    assert forall|q: int| 0 <= q < 64 implies #[trigger] bit(l2 & !one, q) == bit(l, q) by {}
    lemma_bits_ext(l2 & !one, l);
    lemma_pips_split(l2, one, 64);
    lemma_single_pips(p);
}

/// An arrangement splits its hand: the melded cards and the deadwood cards
/// are disjoint and together make the hand.
pub proof fn lemma_arrangement_splits(h: u64, ms: Seq<u64>)
    requires
        is_arrangement(h, ms),
    ensures
        union_of(ms) | leftover(h, ms) == h,
        union_of(ms) & leftover(h, ms) == 0,
{
    lemma_arrangement_count(h, ms);
    assert forall|q: int| 0 <= q < 64 implies #[trigger] bit(union_of(ms) | leftover(h, ms), q)
        == bit(h, q) by {}
    lemma_bits_ext(union_of(ms) | leftover(h, ms), h);
    assert forall|q: int| 0 <= q < 64 implies #[trigger] bit(union_of(ms) & leftover(h, ms), q)
        == bit(0u64, q) by {}
    lemma_bits_ext(union_of(ms) & leftover(h, ms), 0u64);
}

/// A card set whose cards lie among three positions has at most three.
proof fn lemma_count_at_most_three(x: u64, a: int, b: int, c: int)
    requires
        0 <= a < 64,
        0 <= b < 64,
        0 <= c < 64,
        forall|p: int| #[trigger] bit(x, p) ==> p == a || p == b || p == c,
    ensures
        count(x) <= 3,
{
    let sa = 1u64 << (a as u64);
    let sb = 1u64 << (b as u64);
    let sc = 1u64 << (c as u64);
    let y = sa | sb | sc;
    crate::bits::lemma_count_single(a);
    crate::bits::lemma_count_single(b);
    crate::bits::lemma_count_single(c);
    crate::bits::lemma_count_union_inter(sa, sb);
    crate::bits::lemma_count_union_inter(sa | sb, sc);
    assert(subset(x, y));
    lemma_below_monotone(x, y, 64);
}

/// The union of melds of at most three cards each has at most three cards
/// per meld.
proof fn lemma_union_count_bound(ms: Seq<u64>)
    requires
        forall|i: int| 0 <= i < ms.len() ==> count(#[trigger] ms[i]) <= 3,
    ensures
        count(union_of(ms)) <= 3 * ms.len(),
    decreases ms.len(),
{
    if ms.len() > 0 {
        lemma_union_count_bound(ms.drop_last());
        crate::bits::lemma_count_union_inter(union_of(ms.drop_last()), ms.last());
    } else {
        lemma_zero_count(64);
    }
}

/// A meld of four or more cards stays a meld after shedding one of its
/// cards: any card of a four-card set, or the low end of a long run.
pub proof fn lemma_meld_sheds(x: u64) -> (p: int)
    requires
        is_meld_bits(x),
        count(x) >= 4,
    ensures
        bit(x, p),
        is_meld_bits(x & !(1u64 << (p as u64))),
{
    if is_set_bits(x) {
        let (r, m) = choose|r: int, m: int| is_set_of(x, r, m);
        if m >= 0 {
            let others = if m == 0 {
                (16 + r, 32 + r, 48 + r)
            } else if m == 1 {
                (r, 32 + r, 48 + r)
            } else if m == 2 {
                (r, 16 + r, 48 + r)
            } else {
                (r, 16 + r, 32 + r)
            };
            lemma_count_at_most_three(x, others.0, others.1, others.2);
        }
        let y = x & !(1u64 << (r as u64));
        assert(bit(x, r));
        assert(is_set_of(y, r, 0));
        r
    } else {
        let (s, lo, hi) = choose|s: int, lo: int, hi: int| is_run_of(x, s, lo, hi);
        if hi == lo + 2 {
            lemma_count_at_most_three(x, 16 * s + lo, 16 * s + lo + 1, 16 * s + lo + 2);
        }
        let p = 16 * s + lo;
        let y = x & !(1u64 << (p as u64));
        assert(bit(x, p));
        assert(is_run_of(y, s, lo + 1, hi));
        p
    }
}

/// A card set of positive pips has a card; a set of valid cards with no
/// pips is empty.
proof fn lemma_no_pips_empty(y: u64)
    requires
        subset(y, ALL_BITS),
        pips(y) == 0,
    ensures
        y == 0,
{
    if y != 0 {
        let p = crate::bits::lemma_some_bit(y);
        let one = 1u64 << (p as u64);
        lemma_pips_split(y, one, 64);
        assert forall|q: int| 0 <= q < 64 implies #[trigger] bit(y & one, q) == bit(one, q) by {}
        lemma_bits_ext(y & one, one);
        lemma_single_pips(p);
        assert(bit(ALL_BITS, p));
    }
}

/// Big gin is never a trap: an eleven-card hand of valid cards with no
/// deadwood can shed some card and still have no deadwood, so plain gin
/// stays open when the rules disable big gin.
pub proof fn lemma_big_gin_sheds(h: u64) -> (p: int)
    requires
        subset(h, ALL_BITS),
        count(h) == 11,
        min_deadwood(h) == 0,
    ensures
        bit(h, p),
        min_deadwood(h & !(1u64 << (p as u64))) == 0,
{
    lemma_min_deadwood_exists(h);
    let ms = choose|ms: Seq<u64>| #[trigger] is_arrangement(h, ms) && 0 == pips(leftover(h, ms));
    lemma_arrangement_splits(h, ms);
    let l = leftover(h, ms);
    assert(subset(l, ALL_BITS));
    lemma_no_pips_empty(l);
    let u = union_of(ms);
    assert(u | 0u64 == u) by (bit_vector);
    assert(u == h);
    lemma_arrangement_len(h, ms);
    if forall|i: int| 0 <= i < ms.len() ==> count(#[trigger] ms[i]) <= 3 {
        lemma_union_count_bound(ms);
    }
    let i = choose|i: int| 0 <= i < ms.len() && !(count(#[trigger] ms[i]) <= 3);
    let x = ms[i];
    let p = lemma_meld_sheds(x);
    let one = 1u64 << (p as u64);
    let h2 = h & !one;
    let ms2 = ms.update(i, x & !one);
    assert(is_arrangement(h2, ms2)) by {
        assert forall|j: int| 0 <= j < ms2.len() implies is_meld_bits(#[trigger] ms2[j]) && subset(
            ms2[j],
            h2,
        ) by {
            if j != i {
                assert(ms2[j] == ms[j]);
                assert(disjoint(ms[j], x) || disjoint(x, ms[j])) by {
                    if j < i {
                        assert(disjoint(ms[j], ms[i]));
                    } else {
                        assert(disjoint(ms[i], ms[j]));
                    }
                }
            }
        }
        assert forall|a: int, b: int| 0 <= a < b < ms2.len() implies disjoint(
            #[trigger] ms2[a],
            #[trigger] ms2[b],
        ) by {
            assert(disjoint(ms[a], ms[b]));
        }
    }
    assert(leftover(h2, ms2) == 0) by {
        assert forall|q: int| 0 <= q < 64 implies #[trigger] bit(leftover(h2, ms2), q) == bit(
            0u64,
            q,
        ) by {
            if bit(h2, q) {
                lemma_union_bit(ms, q);
                lemma_union_bit(ms2, q);
                let j = choose|j: int| 0 <= j < ms.len() && #[trigger] bit(ms[j], q);
                assert(bit(ms2[j], q));
            }
        }
        lemma_bits_ext(leftover(h2, ms2), 0u64);
    }
    lemma_min_deadwood_exists(h2);
    assert(pips(0u64) == 0) by {
        lemma_no_value_pips(0u64, 64);
    }
    p
}

/// A card is in a union exactly when it is in one of the sets.
pub proof fn lemma_union_bit(ms: Seq<u64>, p: int)
    ensures
        bit(union_of(ms), p) <==> exists|i: int| 0 <= i < ms.len() && #[trigger] bit(ms[i], p),
    decreases ms.len(),
{
    if ms.len() > 0 {
        lemma_union_bit(ms.drop_last(), p);
        if bit(union_of(ms), p) {
            if bit(union_of(ms.drop_last()), p) {
                let i = choose|i: int| 0 <= i < ms.drop_last().len() && #[trigger] bit(
                    ms.drop_last()[i],
                    p,
                );
                assert(bit(ms[i], p));
            } else {
                assert(bit(ms[ms.len() - 1], p));
            }
        }
        if exists|i: int| 0 <= i < ms.len() && #[trigger] bit(ms[i], p) {
            let i = choose|i: int| 0 <= i < ms.len() && #[trigger] bit(ms[i], p);
            if i < ms.len() - 1 {
                assert(bit(ms.drop_last()[i], p));
            }
        }
    }
}

/// The union with one more set.
pub proof fn lemma_union_push(ms: Seq<u64>, m: u64)
    ensures
        union_of(ms.push(m)) == union_of(ms) | m,
{
    assert(ms.push(m).drop_last() =~= ms);
}

/// A single card is worth its value.
pub proof fn lemma_single_pips(p: int)
    requires
        0 <= p < 64,
    ensures
        pips(1u64 << (p as u64)) == pos_value(p),
{
    lemma_single_pips_below(p, 64);
}

proof fn lemma_single_pips_below(p: int, n: int)
    requires
        0 <= p < 64,
    ensures
        pips_below(1u64 << (p as u64), n) == if p < n {
            pos_value(p)
        } else {
            0
        },
    decreases n,
{
    if n > 0 {
        lemma_single_pips_below(p, n - 1);
    }
}

/// Taking out a meld of an arrangement leaves an arrangement of the rest of
/// the hand with the same leftover.
pub proof fn lemma_remove_meld(h: u64, ms: Seq<u64>, j: int)
    requires
        is_arrangement(h, ms),
        0 <= j < ms.len(),
    ensures
        is_arrangement(h & !ms[j], ms.remove(j)),
        leftover(h & !ms[j], ms.remove(j)) == leftover(h, ms),
{
    let m = ms[j];
    let rest = ms.remove(j);
    assert forall|i: int| 0 <= i < rest.len() implies is_meld_bits(#[trigger] rest[i]) && subset(
        rest[i],
        h & !m,
    ) by {
        let k = if i < j {
            i
        } else {
            i + 1
        };
        assert(rest[i] == ms[k]);
        if k < j {
            assert(disjoint(ms[k], ms[j]));
        } else {
            assert(disjoint(ms[j], ms[k]));
        }
    }
    assert forall|a: int, b: int| 0 <= a < b < rest.len() implies disjoint(
        #[trigger] rest[a],
        #[trigger] rest[b],
    ) by {
        let ka = if a < j {
            a
        } else {
            a + 1
        };
        let kb = if b < j {
            b
        } else {
            b + 1
        };
        assert(rest[a] == ms[ka]);
        assert(rest[b] == ms[kb]);
        assert(disjoint(ms[ka], ms[kb]));
    }
    assert forall|p: int| 0 <= p < 64 implies #[trigger] bit(leftover(h & !m, rest), p) == bit(
        leftover(h, ms),
        p,
    ) by {
        lemma_union_bit(rest, p);
        lemma_union_bit(ms, p);
        if bit(union_of(ms), p) && !bit(m, p) {
            let i = choose|i: int| 0 <= i < ms.len() && #[trigger] bit(ms[i], p);
            let k = if i < j {
                i
            } else {
                i - 1
            };
            assert(rest[k] == ms[i]);
        }
        if bit(union_of(rest), p) {
            let i = choose|i: int| 0 <= i < rest.len() && #[trigger] bit(rest[i], p);
            let k = if i < j {
                i
            } else {
                i + 1
            };
            assert(rest[i] == ms[k]);
        }
    }
    lemma_bits_ext(leftover(h & !m, rest), leftover(h, ms));
}

/// An arrangement avoiding the card at `p` arranges the hand without that
/// card, whose value then counts on top of the leftover.
pub proof fn lemma_skip_card(h: u64, ms: Seq<u64>, p: int)
    requires
        is_arrangement(h, ms),
        0 <= p < 64,
        bit(h, p),
        forall|i: int| 0 <= i < ms.len() ==> !#[trigger] bit(ms[i], p),
    ensures
        is_arrangement(h & !(1u64 << (p as u64)), ms),
        pips(leftover(h, ms)) == pos_value(p) + pips(
            leftover(h & !(1u64 << (p as u64)), ms),
        ),
{
    let c = 1u64 << (p as u64);
    let l = leftover(h, ms);
    assert forall|i: int| 0 <= i < ms.len() implies is_meld_bits(#[trigger] ms[i]) && subset(
        ms[i],
        h & !c,
    ) by {}
    lemma_union_bit(ms, p);
    assert forall|q: int| 0 <= q < 64 implies #[trigger] bit(l & c, q) == bit(c, q) by {}
    lemma_bits_ext(l & c, c);
    assert forall|q: int| 0 <= q < 64 implies #[trigger] bit(l & !c, q) == bit(
        leftover(h & !c, ms),
        q,
    ) by {}
    lemma_bits_ext(l & !c, leftover(h & !c, ms));
    lemma_pips_split(l, c, 64);
    lemma_single_pips(p);
}

/// One for a set, zero for a run.
pub open spec fn set_weight(m: u64) -> nat {
    if is_set_bits(m) {
        1
    } else {
        0
    }
}

/// The number of sets among the melds `ms`.
pub open spec fn sets_in(ms: Seq<u64>) -> nat
    decreases ms.len(),
{
    if ms.len() == 0 {
        0
    } else {
        sets_in(ms.drop_last()) + set_weight(ms.last())
    }
}

/// The order in which the solver ranks arrangements of `h`: least deadwood
/// first, then fewest sets.  An arrangement has at most 21 melds, so the
/// number of sets never outweighs a point of deadwood.
pub open spec fn tie_key(h: u64, ms: Seq<u64>) -> int {
    (64 * pips(leftover(h, ms)) + sets_in(ms)) as int
}

proof fn lemma_sets_in_push(ms: Seq<u64>, m: u64)
    ensures
        sets_in(ms.push(m)) == sets_in(ms) + set_weight(m),
{
    assert(ms.push(m).drop_last() =~= ms);
}

proof fn lemma_sets_in_len(ms: Seq<u64>)
    ensures
        sets_in(ms) <= ms.len(),
    decreases ms.len(),
{
    if ms.len() > 0 {
        lemma_sets_in_len(ms.drop_last());
    }
}

proof fn lemma_sets_in_remove(ms: Seq<u64>, j: int)
    requires
        0 <= j < ms.len(),
    ensures
        sets_in(ms) == set_weight(ms[j]) + sets_in(ms.remove(j)),
    decreases ms.len(),
{
    if j == ms.len() - 1 {
        assert(ms.remove(j) =~= ms.drop_last());
    } else {
        lemma_sets_in_remove(ms.drop_last(), j);
        assert(ms.remove(j).drop_last() =~= ms.drop_last().remove(j));
        assert(ms.remove(j).last() == ms.last());
    }
}

/// An arrangement holds at most 21 melds, and at most 21 sets.
proof fn lemma_arrangement_short(h: u64, ms: Seq<u64>)
    requires
        is_arrangement(h, ms),
    ensures
        ms.len() <= 21,
        sets_in(ms) <= 21,
{
    lemma_arrangement_count(h, ms);
    crate::bits::lemma_count_le_64(union_of(ms));
    lemma_sets_in_len(ms);
}

/// Whether every arrangement of `h` that spreads the meld `m` ranks at least
/// `best - acc`.
pub open spec fn covered(best: int, acc: int, h: u64, m: u64) -> bool {
    forall|ms: Seq<u64>| #[trigger] is_arrangement(h & !m, ms) ==> best <= acc + set_weight(m)
        + tie_key(h & !m, ms)
}

proof fn lemma_covered_mono(b1: int, b2: int, acc: int, h: u64, m: u64)
    requires
        covered(b1, acc, h, m),
        b2 <= b1,
    ensures
        covered(b2, acc, h, m),
{
}

/// A word tests nonzero against a single bit exactly when it holds it.
proof fn lemma_test_bit(m: u64, p: int)
    requires
        0 <= p < 64,
    ensures
        (m & (1u64 << (p as u64)) != 0) == bit(m, p),
{
    let c = 1u64 << (p as u64);
    if bit(m, p) {
        assert(bit(m & c, p));
    } else {
        assert forall|q: int| 0 <= q < 64 implies #[trigger] bit(m & c, q) == bit(0u64, q) by {}
        lemma_bits_ext(m & c, 0u64);
    }
}

/// A word tests equal to its intersection with `h` exactly when it lies in
/// `h`.
pub proof fn lemma_test_subset(m: u64, h: u64)
    ensures
        (m & h == m) == subset(m, h),
{
    if m & h == m {
        assert forall|p: int| #[trigger] bit(m, p) implies bit(h, p) by {
            assert(bit(m & h, p));
        }
    }
    if subset(m, h) {
        assert forall|p: int| 0 <= p < 64 implies #[trigger] bit(m & h, p) == bit(m, p) by {}
        lemma_bits_ext(m & h, m);
    }
}

/// The deadwood value of the card at bit `p`.
fn pos_value_exec(p: u64) -> (v: u16)
    requires
        p < 64,
    ensures
        v == pos_value(p as int),
{
    let r = p % 16;
    if r < 1 || r > 13 {
        0
    } else if r > 10 {
        10
    } else {
        r as u16
    }
}

/// Branch and bound over "the lowest card is deadwood or in one of its
/// melds", the exhaustive search over disjoint meld packings
///
/// `orig` is split into the cards still to decide (`hand`), the melds
/// chosen so far, and the cards already counted as deadwood (`dead`, worth
/// `acc`).  The best arrangement found so far is kept with its deadwood.
fn search(
    Ghost(orig): Ghost<u64>,
    Ghost(dead): Ghost<u64>,
    hand: u64,
    melds: &Vec<u64>,
    acc: u16,
    best: &mut u16,
    chosen: &mut Vec<u64>,
    best_chosen: &mut Vec<u64>,
)
    requires
        forall|i: int| 0 <= i < melds@.len() ==> is_meld_bits(#[trigger] melds@[i]) && subset(
            melds@[i],
            orig,
        ),
        forall|x: u64| is_meld_bits(x) && subset(x, orig) ==> #[trigger] melds@.contains(x),
        subset(orig, ALL_BITS),
        is_arrangement(orig, old(chosen)@),
        disjoint(hand, union_of(old(chosen)@)),
        disjoint(hand, dead),
        disjoint(dead, union_of(old(chosen)@)),
        orig == hand | union_of(old(chosen)@) | dead,
        acc == 64 * pips(dead) + sets_in(old(chosen)@),
        pips(orig) <= 640,
        is_arrangement(orig, old(best_chosen)@),
        *old(best) == tie_key(orig, old(best_chosen)@),
    ensures
        final(chosen)@ == old(chosen)@,
        is_arrangement(orig, final(best_chosen)@),
        *final(best) == tie_key(orig, final(best_chosen)@),
        *final(best) <= *old(best),
        forall|ms: Seq<u64>| #[trigger] is_arrangement(hand, ms) ==> *final(best) <= acc
            + tie_key(hand, ms),
    decreases hand,
{
    if acc >= *best {
        return;
    }
    if hand == 0 {
        proof {
            let u = union_of(chosen@);
            assert forall|q: int| 0 <= q < 64 implies #[trigger] bit(leftover(orig, chosen@), q)
                == bit(dead, q) by {}
            lemma_bits_ext(leftover(orig, chosen@), dead);
            assert forall|ms: Seq<u64>| #[trigger] is_arrangement(hand, ms) implies acc <= acc
                + tie_key(hand, ms) by {}
        }
        *best = acc;
        *best_chosen = chosen.clone();
        proof {
            assert(best_chosen@ =~= chosen@);
        }
        return;
    }
    let ghost chosen0 = chosen@;
    let ghost u = union_of(chosen0);
    let p = lowest_bit(hand);
    let c = 1u64 << p;
    proof {
        assert(bit(orig, p as int));
        assert(valid_pos(p as int));
    }
    let mut i: usize = 0;
    while i < melds.len()
        invariant
            forall|k: int| 0 <= k < melds@.len() ==> is_meld_bits(#[trigger] melds@[k]) && subset(
                melds@[k],
                orig,
            ),
            subset(orig, ALL_BITS),
            is_arrangement(orig, chosen0),
            disjoint(hand, u),
            disjoint(hand, dead),
            disjoint(dead, u),
            u == union_of(chosen0),
            orig == hand | u | dead,
            acc == 64 * pips(dead) + sets_in(chosen0),
            pips(orig) <= 640,
            forall|x: u64| is_meld_bits(x) && subset(x, orig) ==> #[trigger] melds@.contains(x),
            i <= melds@.len(),
            p < 64,
            c == 1u64 << p,
            bit(hand, p as int),
            hand != 0,
            chosen@ == chosen0,
            is_arrangement(orig, best_chosen@),
            *best == tie_key(orig, best_chosen@),
            *best <= *old(best),
            forall|k: int|
                0 <= k < i && bit(melds@[k], p as int) && subset(melds@[k], hand) ==> covered(
                    *best as int,
                    acc as int,
                    hand,
                    #[trigger] melds@[k],
                ),
        decreases melds@.len() - i,
    {
        let m = melds[i];
        proof {
            lemma_test_bit(m, p as int);
            lemma_test_subset(m, hand);
        }
        if m & c != 0 && m & hand == m {
            let ghost best0 = *best;
            proof {
                lemma_union_push(chosen0, m);
                assert forall|k: int| 0 <= k < chosen0.len() implies disjoint(
                    #[trigger] chosen0[k],
                    m,
                ) by {
                    assert forall|q: int| !(#[trigger] bit(chosen0[k], q) && bit(m, q)) by {
                        if bit(chosen0[k], q) {
                            lemma_union_bit(chosen0, q);
                        }
                    }
                }
                let pushed = chosen0.push(m);
                assert forall|a: int, b: int| 0 <= a < b < pushed.len() implies disjoint(
                    #[trigger] pushed[a],
                    #[trigger] pushed[b],
                ) by {
                    if b == chosen0.len() {
                        assert(pushed[a] == chosen0[a]);
                    } else {
                        assert(pushed[a] == chosen0[a]);
                        assert(pushed[b] == chosen0[b]);
                    }
                }
                assert(is_arrangement(orig, pushed));
                assert forall|q: int| 0 <= q < 64 implies #[trigger] bit(orig, q) == bit(
                    (hand & !m) | (u | m) | dead,
                    q,
                ) by {}
                lemma_bits_ext(orig, (hand & !m) | (u | m) | dead);
                lemma_remove_smaller(hand, m);
                lemma_sets_in_push(chosen0, m);
                lemma_arrangement_short(orig, pushed);
                lemma_below_monotone(dead, orig, 64);
            }
            let w: u16 = match Meld(Hand::from_bits_retain(m)).kind() {
                MeldKind::Group => 1,
                MeldKind::Run => 0,
            };
            chosen.push(m);
            search(Ghost(orig), Ghost(dead), hand & !m, melds, acc + w, best, chosen, best_chosen);
            chosen.pop();
            proof {
                assert(chosen@ =~= chosen0);
                assert forall|k: int|
                    0 <= k < i && bit(melds@[k], p as int) && subset(
                        melds@[k],
                        hand,
                    ) implies covered(*best as int, acc as int, hand, #[trigger] melds@[k]) by {
                    lemma_covered_mono(best0 as int, *best as int, acc as int, hand, melds@[k]);
                }
                assert(covered(*best as int, acc as int, hand, m));
            }
        }
        i += 1;
    }
    let v = pos_value_exec(p);
    let ghost dead2 = dead | c;
    proof {
        assert forall|q: int| 0 <= q < 64 implies #[trigger] bit(dead2 & c, q) == bit(c, q) by {}
        lemma_bits_ext(dead2 & c, c);
        assert forall|q: int| 0 <= q < 64 implies #[trigger] bit(dead2 & !c, q) == bit(dead, q) by {}
        lemma_bits_ext(dead2 & !c, dead);
        lemma_pips_split(dead2, c, 64);
        lemma_single_pips(p as int);
        assert(subset(dead2, orig));
        lemma_below_monotone(dead2, orig, 64);
        assert forall|q: int| 0 <= q < 64 implies #[trigger] bit(orig, q) == bit(
            (hand & !c) | u | dead2,
            q,
        ) by {}
        lemma_bits_ext(orig, (hand & !c) | u | dead2);
        lemma_remove_smaller(hand, c);
    }
    proof {
        lemma_arrangement_short(orig, chosen0);
    }
    let ghost best1 = *best;
    search(Ghost(orig), Ghost(dead2), hand & !c, melds, acc + 64 * v, best, chosen, best_chosen);
    proof {
        assert forall|ms: Seq<u64>| #[trigger] is_arrangement(hand, ms) implies *best <= acc
            + tie_key(hand, ms) by {
            if exists|j: int| 0 <= j < ms.len() && #[trigger] bit(ms[j], p as int) {
                let j = choose|j: int| 0 <= j < ms.len() && #[trigger] bit(ms[j], p as int);
                let m = ms[j];
                assert(subset(m, orig));
                assert(melds@.contains(m));
                let k = choose|k: int| 0 <= k < melds@.len() && melds@[k] == m;
                assert(covered(best1 as int, acc as int, hand, melds@[k]));
                lemma_remove_meld(hand, ms, j);
                lemma_sets_in_remove(ms, j);
                assert(is_arrangement(hand & !m, ms.remove(j)));
            } else {
                lemma_skip_card(hand, ms, p as int);
                assert(is_arrangement(hand & !c, ms));
            }
        }
    }
}

/// A card set within two positions has at most two cards.
proof fn lemma_count_two(y: u64, a: int, b: int)
    requires
        0 <= a < 64,
        0 <= b < 64,
        forall|p: int| #[trigger] bit(y, p) ==> p == a || p == b,
    ensures
        count(y) <= 2,
{
    let ca = 1u64 << (a as u64);
    let cb = 1u64 << (b as u64);
    lemma_count_split(y, ca, 64);
    let z = y & !ca;
    lemma_count_split(z, cb, 64);
    lemma_below_monotone(y & ca, ca, 64);
    lemma_below_monotone(z & cb, cb, 64);
    lemma_single_count(a);
    lemma_single_count(b);
    assert forall|q: int| 0 <= q < 64 implies #[trigger] bit(z & !cb, q) == bit(0u64, q) by {}
    lemma_bits_ext(z & !cb, 0u64);
    lemma_zero_count(64);
}

/// A single card counts one.
proof fn lemma_single_count(p: int)
    requires
        0 <= p < 64,
    ensures
        count(1u64 << (p as u64)) == 1,
{
    lemma_single_count_below(p, 64);
}

proof fn lemma_single_count_below(p: int, n: int)
    requires
        0 <= p < 64,
    ensures
        count_below(1u64 << (p as u64), n) == if p < n {
            1nat
        } else {
            0nat
        },
    decreases n,
{
    if n > 0 {
        lemma_single_count_below(p, n - 1);
    }
}

/// A card set of one rank missing two suits has at most two cards.
proof fn lemma_column_two_missing(y: u64, r: int, s1: int, s2: int)
    requires
        1 <= r <= 13,
        0 <= s1 < s2 < 4,
        forall|p: int| #[trigger] bit(y, p) ==> p % 16 == r,
        !bit(y, 16 * s1 + r),
        !bit(y, 16 * s2 + r),
    ensures
        count(y) <= 2,
{
    let (a, b) = if s1 == 0 && s2 == 1 {
        (32 + r, 48 + r)
    } else if s1 == 0 && s2 == 2 {
        (16 + r, 48 + r)
    } else if s1 == 0 && s2 == 3 {
        (16 + r, 32 + r)
    } else if s1 == 1 && s2 == 2 {
        (r, 48 + r)
    } else if s1 == 1 && s2 == 3 {
        (r, 32 + r)
    } else {
        (r, 16 + r)
    };
    assert forall|p: int| #[trigger] bit(y, p) implies p == a || p == b by {
        assert(p % 16 == r);
        assert(p == 16 * (p / 16) + r);
    }
    lemma_count_two(y, a, b);
}

/// At least three cards of one rank form a set.
proof fn lemma_column_set(h: u64, r: int)
    requires
        1 <= r <= 13,
        count(h & rank_column(r)) >= 3,
    ensures
        is_set_bits(h & rank_column(r)),
{
    let y = h & rank_column(r);
    lemma_rank_column(r);
    if !bit(y, r) && !bit(y, 16 + r) {
        lemma_column_two_missing(y, r, 0, 1);
    }
    if !bit(y, r) && !bit(y, 32 + r) {
        lemma_column_two_missing(y, r, 0, 2);
    }
    if !bit(y, r) && !bit(y, 48 + r) {
        lemma_column_two_missing(y, r, 0, 3);
    }
    if !bit(y, 16 + r) && !bit(y, 32 + r) {
        lemma_column_two_missing(y, r, 1, 2);
    }
    if !bit(y, 16 + r) && !bit(y, 48 + r) {
        lemma_column_two_missing(y, r, 1, 3);
    }
    if !bit(y, 32 + r) && !bit(y, 48 + r) {
        lemma_column_two_missing(y, r, 2, 3);
    }
    let m = if !bit(y, r) {
        0int
    } else if !bit(y, 16 + r) {
        1int
    } else if !bit(y, 32 + r) {
        2int
    } else if !bit(y, 48 + r) {
        3int
    } else {
        -1int
    };
    assert forall|p: int| 0 <= p < 64 implies (#[trigger] bit(y, p) <==> (p % 16 == r && p / 16
        != m)) by {
        if p % 16 == r {
            assert(p == 16 * (p / 16) + r);
        }
    }
    assert(is_set_of(y, r, m));
}

/// The sets of every rank up to `k` of which `h` holds at least three cards.
pub open spec fn full_sets(h: u64, k: int) -> Seq<u64>
    decreases k,
{
    if k <= 0 {
        seq![]
    } else if count(h & rank_column(k)) >= 3 {
        full_sets(h, k - 1).push(h & rank_column(k))
    } else {
        full_sets(h, k - 1)
    }
}

/// The full sets arrange the hand, and they meld exactly the cards of the
/// ranks held three or more times.
proof fn lemma_full_sets(h: u64, k: int)
    requires
        0 <= k <= 13,
    ensures
        is_arrangement(h, full_sets(h, k)),
        forall|i: int| 0 <= i < full_sets(h, k).len() ==> exists|r: int|
            1 <= r <= k && #[trigger] full_sets(h, k)[i] == h & rank_column(r),
        forall|p: int| 0 <= p < 64 ==> (#[trigger] bit(union_of(full_sets(h, k)), p) <==> (bit(
            h,
            p,
        ) && 1 <= p % 16 <= k && count(h & rank_column(p % 16)) >= 3)),
    decreases k,
{
    if k > 0 {
        lemma_full_sets(h, k - 1);
        lemma_rank_column(k);
        let prev = full_sets(h, k - 1);
        if count(h & rank_column(k)) >= 3 {
            let y = h & rank_column(k);
            lemma_column_set(h, k);
            lemma_union_push(prev, y);
            let cur = prev.push(y);
            assert forall|i: int| 0 <= i < prev.len() implies disjoint(#[trigger] prev[i], y) by {
                let r = choose|r: int| 1 <= r <= k - 1 && #[trigger] prev[i] == h & rank_column(r);
                lemma_rank_column(r);
            }
            assert forall|a: int, b: int| 0 <= a < b < cur.len() implies disjoint(
                #[trigger] cur[a],
                #[trigger] cur[b],
            ) by {
                assert(cur[a] == prev[a]);
                if b < prev.len() {
                    assert(cur[b] == prev[b]);
                }
            }
            assert forall|i: int| 0 <= i < cur.len() implies exists|r: int|
                1 <= r <= k && #[trigger] cur[i] == h & rank_column(r) by {
                if i < prev.len() {
                    assert(cur[i] == prev[i]);
                    let r = choose|r: int| 1 <= r <= k - 1 && #[trigger] prev[i] == h & rank_column(r);
                } else {
                    assert(cur[i] == h & rank_column(k));
                }
            }
            assert forall|i: int| 0 <= i < cur.len() implies is_meld_bits(#[trigger] cur[i])
                && subset(cur[i], h) by {
                if i < prev.len() {
                    assert(cur[i] == prev[i]);
                }
            }
        }
    }
}

/// The column masks of ranks `1..=k`.
pub open spec fn columns_upto(k: int) -> u64
    decreases k,
{
    if k <= 0 {
        0
    } else {
        columns_upto(k - 1) | rank_column(k)
    }
}

proof fn lemma_columns_upto(k: int)
    requires
        0 <= k <= 13,
    ensures
        forall|p: int| 0 <= p < 64 ==> (#[trigger] bit(columns_upto(k), p) <==> 1 <= p % 16 <= k),
    decreases k,
{
    if k > 0 {
        lemma_columns_upto(k - 1);
        lemma_rank_column(k);
        assert forall|p: int| 0 <= p < 64 implies (#[trigger] bit(columns_upto(k), p) <==> 1 <= p
            % 16 <= k) by {
            assert(columns_upto(k) == columns_upto(k - 1) | rank_column(k));
            assert(bit(columns_upto(k - 1), p) <==> 1 <= p % 16 <= k - 1);
            assert(bit(rank_column(k), p) <==> p % 16 == k);
        }
    } else {
        assert(columns_upto(k) == 0);
    }
}

/// The pip totals of the rank columns `1..=k` of `x`.
pub open spec fn column_pips(x: u64, k: int) -> int
    decreases k,
{
    if k <= 0 {
        0
    } else {
        column_pips(x, k - 1) + pips(x & rank_column(k))
    }
}

/// The sum of the deadwood values of ranks `1..=k`.
pub open spec fn value_sum(k: int) -> int
    decreases k,
{
    if k <= 0 {
        0
    } else {
        value_sum(k - 1) + crate::hand::rank_value(k)
    }
}

proof fn lemma_no_value_pips(y: u64, n: int)
    requires
        forall|p: int| #[trigger] bit(y, p) ==> pos_value(p) == 0,
    ensures
        pips_below(y, n) == 0,
    decreases n,
{
    if n > 0 {
        lemma_no_value_pips(y, n - 1);
    }
}

proof fn lemma_uniform_pips(y: u64, v: int, n: int)
    requires
        0 <= v,
        forall|p: int| #[trigger] bit(y, p) ==> pos_value(p) == v,
    ensures
        pips_below(y, n) == v * count_below(y, n),
    decreases n,
{
    if n > 0 {
        lemma_uniform_pips(y, v, n - 1);
        let c = count_below(y, n - 1);
        assert(v * (c + 1) == v * c + v) by (nonlinear_arith);
        if bit(y, n - 1) {
            assert(pos_value(n - 1) == v);
            assert(count_below(y, n) == c + 1);
        } else {
            assert(count_below(y, n) == c);
        }
    } else {
        assert(v * 0 == 0) by (nonlinear_arith);
    }
}

proof fn lemma_column_decomposition(x: u64, k: int)
    requires
        0 <= k <= 13,
    ensures
        pips(x) == column_pips(x, k) + pips(x & !columns_upto(k)),
    decreases k,
{
    lemma_columns_upto(k);
    if k == 0 {
        assert forall|q: int| 0 <= q < 64 implies #[trigger] bit(x & !columns_upto(0), q) == bit(
            x,
            q,
        ) by {}
        lemma_bits_ext(x & !columns_upto(0), x);
    } else {
        lemma_column_decomposition(x, k - 1);
        lemma_columns_upto(k - 1);
        lemma_rank_column(k);
        let rest = x & !columns_upto(k - 1);
        lemma_pips_split(rest, rank_column(k), 64);
        assert forall|q: int| 0 <= q < 64 implies #[trigger] bit(rest & rank_column(k), q) == bit(
            x & rank_column(k),
            q,
        ) by {}
        lemma_bits_ext(rest & rank_column(k), x & rank_column(k));
        assert forall|q: int| 0 <= q < 64 implies #[trigger] bit(rest & !rank_column(k), q)
            == bit(x & !columns_upto(k), q) by {}
        lemma_bits_ext(rest & !rank_column(k), x & !columns_upto(k));
    }
}

proof fn lemma_column_pips_bound(x: u64, k: int)
    requires
        0 <= k <= 13,
        forall|r: int| 1 <= r <= 13 ==> count(#[trigger] (x & rank_column(r))) <= 2,
    ensures
        column_pips(x, k) <= 2 * value_sum(k),
    decreases k,
{
    if k > 0 {
        lemma_column_pips_bound(x, k - 1);
        lemma_rank_column(k);
        let y = x & rank_column(k);
        let v = crate::hand::rank_value(k);
        lemma_uniform_pips(y, v, 64);
        let c = count(y);
        assert(c <= 2);
        assert(v * c <= 2 * v) by (nonlinear_arith)
            requires
                0 <= v,
                c <= 2,
        ;
    }
}

/// A card set with at most two cards of each rank is worth at most 170.
proof fn lemma_two_per_rank_bound(x: u64)
    requires
        forall|r: int| 1 <= r <= 13 ==> count(#[trigger] (x & rank_column(r))) <= 2,
    ensures
        pips(x) <= 170,
{
    lemma_column_decomposition(x, 13);
    lemma_columns_upto(13);
    lemma_no_value_pips(x & !columns_upto(13), 64);
    lemma_column_pips_bound(x, 13);
    assert(value_sum(13) == 85) by {
        reveal_with_fuel(value_sum, 14);
    }
}

/// Every card set has an arrangement leaving at most 170 points: meld each
/// rank held three or more times as a set, and at most two cards of each
/// rank remain.
pub proof fn lemma_deadwood_at_most_170(h: u64)
    ensures
        is_arrangement(h, full_sets(h, 13)),
        pips(leftover(h, full_sets(h, 13))) <= 170,
{
    lemma_full_sets(h, 13);
    let l = leftover(h, full_sets(h, 13));
    assert forall|r: int| 1 <= r <= 13 implies count(#[trigger] (l & rank_column(r))) <= 2 by {
        lemma_rank_column(r);
        if count(h & rank_column(r)) >= 3 {
            assert forall|q: int| 0 <= q < 64 implies #[trigger] bit(l & rank_column(r), q) == bit(
                0u64,
                q,
            ) by {}
            lemma_bits_ext(l & rank_column(r), 0u64);
            lemma_zero_count(64);
        } else {
            assert(subset(l & rank_column(r), h & rank_column(r)));
            lemma_below_monotone(l & rank_column(r), h & rank_column(r), 64);
        }
    }
    lemma_two_per_rank_bound(l);
}

/// Bits outside the deck are worth nothing.
pub proof fn lemma_pips_truncate(x: u64)
    ensures
        pips(x) == pips(x & ALL_BITS),
{
    lemma_pips_split(x, ALL_BITS, 64);
    lemma_no_value_pips(x & !ALL_BITS, 64);
}

/// Arrangements and their leftovers ignore bits outside the deck.
pub proof fn lemma_arrangement_truncate(h: u64, ms: Seq<u64>)
    ensures
        is_arrangement(h, ms) <==> is_arrangement(h & ALL_BITS, ms),
        pips(leftover(h, ms)) == pips(leftover(h & ALL_BITS, ms)),
{
    assert forall|i: int| 0 <= i < ms.len() && is_meld_bits(#[trigger] ms[i]) implies (subset(
        ms[i],
        h,
    ) <==> subset(ms[i], h & ALL_BITS)) by {
        lemma_meld_valid(ms[i]);
    }
    lemma_pips_truncate(leftover(h, ms));
    assert forall|q: int| 0 <= q < 64 implies #[trigger] bit(leftover(h, ms) & ALL_BITS, q) == bit(
        leftover(h & ALL_BITS, ms),
        q,
    ) by {}
    lemma_bits_ext(leftover(h, ms) & ALL_BITS, leftover(h & ALL_BITS, ms));
}

/// The least deadwood ignores bits outside the deck.
pub proof fn lemma_min_deadwood_truncate(h: u64, d: int)
    requires
        is_min_deadwood(h & ALL_BITS, d),
    ensures
        is_min_deadwood(h, d),
{
    let ms = choose|ms: Seq<u64>| #[trigger] is_arrangement(h & ALL_BITS, ms) && d == pips(
        leftover(h & ALL_BITS, ms),
    );
    lemma_arrangement_truncate(h, ms);
    assert(is_arrangement(h, ms));
    assert forall|ms2: Seq<u64>| #[trigger] is_arrangement(h, ms2) implies d <= pips(
        leftover(h, ms2),
    ) by {
        lemma_arrangement_truncate(h, ms2);
    }
}

/// Disjoint melds in a hand hold at least three cards each.
pub proof fn lemma_arrangement_count(h: u64, ms: Seq<u64>)
    requires
        is_arrangement(h, ms),
    ensures
        count(union_of(ms)) >= 3 * ms.len(),
        subset(union_of(ms), h),
    decreases ms.len(),
{
    if ms.len() > 0 {
        let prev = ms.drop_last();
        let l = ms.last();
        assert(is_arrangement(h, prev)) by {
            assert forall|a: int, b: int| 0 <= a < b < prev.len() implies disjoint(
                #[trigger] prev[a],
                #[trigger] prev[b],
            ) by {
                assert(prev[a] == ms[a]);
                assert(prev[b] == ms[b]);
            }
        }
        lemma_arrangement_count(h, prev);
        let u = union_of(prev);
        assert(disjoint(u, l)) by {
            assert forall|q: int| !(#[trigger] bit(u, q) && bit(l, q)) by {
                lemma_union_bit(prev, q);
                if bit(u, q) {
                    let i = choose|i: int| 0 <= i < prev.len() && #[trigger] bit(prev[i], q);
                    assert(prev[i] == ms[i]);
                    assert(disjoint(ms[i], ms[ms.len() - 1]));
                }
            }
        }
        lemma_count_split(u | l, l, 64);
        assert forall|q: int| 0 <= q < 64 implies #[trigger] bit((u | l) & l, q) == bit(l, q) by {}
        lemma_bits_ext((u | l) & l, l);
        assert forall|q: int| 0 <= q < 64 implies #[trigger] bit((u | l) & !l, q) == bit(u, q) by {}
        lemma_bits_ext((u | l) & !l, u);
        lemma_meld_count(l);
    } else {
        lemma_zero_count(64);
    }
}

/// An arrangement of at most 11 cards has at most three melds.
pub proof fn lemma_arrangement_len(h: u64, ms: Seq<u64>)
    requires
        is_arrangement(h, ms),
        count(h) <= 11,
    ensures
        ms.len() <= 3,
{
    lemma_arrangement_count(h, ms);
    lemma_below_monotone(union_of(ms), h, 64);
}

/// The total deadwood value of a card set, melded or not
///
/// Cards outside the 52-card deck (possible only via
/// [`Hand::from_bits_retain`]) are ignored.
pub fn pip_sum(hand: Hand) -> (total: u16)
    ensures
        total == pips(hand.bits()),
{
    let x = hand.to_bits();
    let mut p: u64 = 0;
    let mut total: u16 = 0;
    while p < 64
        invariant
            p <= 64,
            total == pips_below(x, p as int),
            pips_below(x, p as int) <= 10 * count_below(x, p as int),
            count_below(x, p as int) <= p,
        decreases 64 - p,
    {
        if (x >> p) & 1 == 1 {
            total = total + pos_value_exec(p);
        }
        p += 1;
    }
    total
}

/// The minimum deadwood value of a card set over all meld arrangements
///
/// Cards outside the 52-card deck (possible only via
/// [`Hand::from_bits_retain`]) are ignored.  Any number of cards is
/// accepted.  The minimum never exceeds 170: melding every rank held three
/// or more times as a set leaves at most two cards of each rank.
pub fn deadwood(hand: Hand) -> (d: u8)
    ensures
        is_min_deadwood(hand.bits(), d as int),
        d == min_deadwood(hand.bits()),
{
    let (d, _) = solve(hand);
    proof {
        lemma_min_deadwood_unique(hand.bits(), d as int);
    }
    d
}

/// Run the solver on the valid cards of `hand`: the least deadwood and an
/// arrangement achieving it.
fn solve(hand: Hand) -> (r: (u8, Vec<u64>))
    ensures
        is_min_deadwood(hand.bits(), r.0 as int),
        is_arrangement(hand.bits() & ALL_BITS, r.1@),
        r.0 == pips(leftover(hand.bits() & ALL_BITS, r.1@)),
        forall|ms: Seq<u64>|
            #[trigger] is_arrangement(hand.bits() & ALL_BITS, ms) && pips(
                leftover(hand.bits() & ALL_BITS, ms),
            ) == r.0 ==> sets_in(r.1@) <= sets_in(ms),
{
    let bits = hand.to_bits() & 0x3FFE_3FFE_3FFE_3FFE;
    let table = build_melds();
    let melds = applicable_melds(bits, &table);
    let total = pip_sum(Hand::from_bits_retain(bits));
    let mut chosen: Vec<u64> = Vec::new();
    let mut best_chosen: Vec<u64> = Vec::new();
    proof {
        assert(subset(bits, ALL_BITS));
        assert forall|q: int| 0 <= q < 64 implies #[trigger] bit(leftover(bits, best_chosen@), q)
            == bit(bits, q) by {}
        lemma_bits_ext(leftover(bits, best_chosen@), bits);
        crate::bits::lemma_pips_bounded(bits, 64);
        lemma_count_below_mono(bits, 64, 64);
        assert(count(bits) <= 64) by {
            lemma_count_le(bits, 64);
        }
        assert forall|q: int| 0 <= q < 64 implies #[trigger] bit(bits, q) == bit(
            bits | union_of(chosen@) | 0u64,
            q,
        ) by {}
        lemma_bits_ext(bits, bits | union_of(chosen@) | 0u64);
        lemma_no_value_pips(0u64, 64);
        assert(sets_in(best_chosen@) == 0);
        assert(sets_in(chosen@) == 0);
    }
    let mut best: u16 = 64 * total;
    search(
        Ghost(bits),
        Ghost(0u64),
        bits,
        &melds,
        0,
        &mut best,
        &mut chosen,
        &mut best_chosen,
    );
    let ghost d: int = pips(leftover(bits, best_chosen@)) as int;
    proof {
        lemma_arrangement_short(bits, best_chosen@);
        assert forall|ms: Seq<u64>| #[trigger] is_arrangement(bits, ms) implies d <= pips(
            leftover(bits, ms),
        ) && (pips(leftover(bits, ms)) == d ==> sets_in(best_chosen@) <= sets_in(ms)) by {
            assert(best <= tie_key(bits, ms));
            assert(best == 64 * d + sets_in(best_chosen@));
            assert(tie_key(bits, ms) == 64 * pips(leftover(bits, ms)) + sets_in(ms));
            assert(64 * d <= 64 * pips(leftover(bits, ms)) + sets_in(ms));
            lemma_arrangement_short(bits, ms);
        }
        assert(is_min_deadwood(bits, d));
        lemma_deadwood_at_most_170(bits);
        assert(d <= 170);
        lemma_min_deadwood_truncate(hand.bits(), d);
    }
    ((best / 64) as u8, best_chosen)
}

/// There are at most `n` set bits below `n`.
proof fn lemma_count_le(x: u64, n: int)
    requires
        n >= 0,
    ensures
        count_below(x, n) <= n,
    decreases n,
{
    if n > 0 {
        lemma_count_le(x, n - 1);
    }
}

/// Error indicating an invalid arrangement of a hand into melds
#[derive(Debug, Clone, Copy, PartialEq, Eq, Structural, Hash)]
pub enum ArrangeError {
    /// An arrangement covers a game hand of at most 11 cards
    TooManyCards,
    /// At most 3 disjoint melds fit in 11 cards
    TooManyMelds,
    /// Two melds share a card
    OverlappingMelds,
    /// A meld contains a card outside the hand
    MeldNotInHand,
}

/// The card bits of a sequence of melds.
pub open spec fn meld_bits(ms: Seq<Meld>) -> Seq<u64> {
    ms.map_values(|m: Meld| m.bits())
}

/// The first problem, in order, with arranging `h` into the first `n` of
/// `ms`: a meld outside the hand, or a meld sharing a card with an earlier
/// one.
pub open spec fn arrange_error(h: u64, ms: Seq<u64>, n: int) -> Option<ArrangeError>
    decreases n,
{
    if n <= 0 {
        None
    } else {
        match arrange_error(h, ms, n - 1) {
            Some(e) => Some(e),
            None => if !subset(ms[n - 1], h) {
                Some(ArrangeError::MeldNotInHand)
            } else if !disjoint(ms[n - 1], union_of(ms.take(n - 1))) {
                Some(ArrangeError::OverlappingMelds)
            } else {
                None
            },
        }
    }
}

/// The melds of an array filled from the front, in order.
pub open spec fn filled(a: Seq<Option<Meld>>) -> Seq<u64> {
    if a.len() < 3 || a[0] is None {
        seq![]
    } else if a[1] is None {
        seq![a[0].unwrap().bits()]
    } else if a[2] is None {
        seq![a[0].unwrap().bits(), a[1].unwrap().bits()]
    } else {
        seq![a[0].unwrap().bits(), a[1].unwrap().bits(), a[2].unwrap().bits()]
    }
}

/// Whether the three slots hold melds from the front, without gaps.
pub open spec fn front_filled(a: Seq<Option<Meld>>) -> bool {
    &&& a.len() == 3
    &&& (a[0] is None ==> a[1] is None)
    &&& (a[1] is None ==> a[2] is None)
}

/// One arrangement of a hand into disjoint melds plus deadwood
///
/// This is what a knocker spreads on the table.  The arrangement fixes which
/// cards are melded — and therefore what the opponent may lay off — so a
/// knocker may legitimately choose a non-optimal arrangement.
#[derive(Debug, Clone, Copy, PartialEq, Eq, Hash)]
pub struct Melds {
    melds: [Option<Meld>; 3],
    hand: Hand,
}

impl Melds {
    /// An arrangement covers at most 11 cards with disjoint melds from the
    /// hand, filled from the front.
    #[verifier::type_invariant]
    closed spec fn inv(self) -> bool {
        &&& count(self.hand.bits()) <= 11
        &&& front_filled(self.melds@)
        &&& is_arrangement(self.hand.bits(), filled(self.melds@))
    }

    /// The card bits of the arranged hand
    pub closed spec fn hand_bits(self) -> u64 {
        self.hand.bits()
    }

    /// The card bits of the melds, in order
    pub closed spec fn melds_seq(self) -> Seq<u64> {
        filled(self.melds@)
    }

    /// The meld slots, filled from the front
    pub closed spec fn slots(self) -> Seq<Option<Meld>> {
        self.melds@
    }

    /// The deadwood value of this arrangement
    pub open spec fn value(self) -> int {
        pips(leftover(self.hand_bits(), self.melds_seq())) as int
    }

    /// What every arrangement satisfies: at most 11 cards, disjoint melds
    /// within the hand, filled from the front.
    pub open spec fn valid(self) -> bool {
        &&& count(self.hand_bits()) <= 11
        &&& front_filled(self.slots())
        &&& self.melds_seq() == filled(self.slots())
        &&& is_arrangement(self.hand_bits(), self.melds_seq())
        &&& self.melds_seq().len() <= 3
    }

    /// Every arrangement is valid.
    pub fn check_valid(&self)
        ensures
            self.valid(),
    {
        proof {
            use_type_invariant(self);
            lemma_arrangement_len(self.hand.bits(), filled(self.melds@));
        }
    }

    /// Arrange a hand into the given melds
    ///
    /// Fails on hands over 11 cards, then on more than 3 melds, then on the
    /// first meld, in order, that leaves the hand or overlaps an earlier one.
    pub fn try_new(hand: Hand, melds: &[Meld]) -> (r: Result<Melds, ArrangeError>)
        ensures
            count(hand.bits()) > 11 ==> r == Err::<Melds, ArrangeError>(ArrangeError::TooManyCards),
            count(hand.bits()) <= 11 && melds@.len() > 3 ==> r == Err::<Melds, ArrangeError>(
                ArrangeError::TooManyMelds,
            ),
            count(hand.bits()) <= 11 && melds@.len() <= 3 ==> match arrange_error(
                hand.bits(),
                meld_bits(melds@),
                melds@.len() as int,
            ) {
                Some(e) => r == Err::<Melds, ArrangeError>(e),
                None => r matches Ok(m) && m.hand_bits() == hand.bits() && m.melds_seq()
                    == meld_bits(melds@),
            },
    {
        if hand.len() > 11 {
            return Err(ArrangeError::TooManyCards);
        }
        if melds.len() > 3 {
            return Err(ArrangeError::TooManyMelds);
        }
        let ghost ms = meld_bits(melds@);
        let n = melds.len();
        let mut union = Hand::EMPTY();
        let mut slots: [Option<Meld>; 3] = [None, None, None];
        let mut i: usize = 0;
        while i < n
            invariant
                n == melds@.len(),
                n <= 3,
                i <= n,
                count(hand.bits()) <= 11,
                ms == meld_bits(melds@),
                arrange_error(hand.bits(), ms, i as int) is None,
                union.bits() == union_of(ms.take(i as int)),
                is_arrangement(hand.bits(), ms.take(i as int)),
                front_filled(slots@),
                filled(slots@) == ms.take(i as int),
                forall|k: int| i <= k < 3 ==> slots@[k] is None,
            decreases n - i,
        {
            let meld = melds[i];
            meld.lemma_valid();
            let cards = meld.cards();
            let cb = cards.to_bits();
            proof {
                lemma_test_subset(cb, hand.bits());
                assert(ms[i as int] == cb);
            }
            if cb & hand.to_bits() != cb {
                proof {
                    assert(arrange_error(hand.bits(), ms, i + 1) == Some(
                        ArrangeError::MeldNotInHand,
                    ));
                    lemma_arrange_error_sticks(hand.bits(), ms, i as int + 1, n as int);
                }
                return Err(ArrangeError::MeldNotInHand);
            }
            let shared = union.to_bits() & cb;
            proof {
                if (shared == 0) != disjoint(cb, union.bits()) {
                    if shared == 0 {
                        assert forall|q: int| !(#[trigger] bit(cb, q) && bit(union.bits(), q)) by {
                            assert(!bit(shared, q));
                        }
                    } else {
                        assert forall|q: int| 0 <= q < 64 implies #[trigger] bit(shared, q) == bit(
                            0u64,
                            q,
                        ) by {}
                        lemma_bits_ext(shared, 0u64);
                    }
                }
            }
            if shared != 0 {
                proof {
                    assert(arrange_error(hand.bits(), ms, i + 1) == Some(
                        ArrangeError::OverlappingMelds,
                    ));
                    lemma_arrange_error_sticks(hand.bits(), ms, i as int + 1, n as int);
                }
                return Err(ArrangeError::OverlappingMelds);
            }
            proof {
                let prev = ms.take(i as int);
                assert(ms.take(i + 1) =~= prev.push(ms[i as int]));
                lemma_union_push(prev, ms[i as int]);
                let cur = prev.push(ms[i as int]);
                assert forall|a: int, b: int| 0 <= a < b < cur.len() implies disjoint(
                    #[trigger] cur[a],
                    #[trigger] cur[b],
                ) by {
                    assert(cur[a] == prev[a]);
                    if b < prev.len() {
                        assert(cur[b] == prev[b]);
                    } else {
                        lemma_union_bit(prev, 0);
                        assert forall|q: int| !(#[trigger] bit(cur[a], q) && bit(cur[b], q)) by {
                            lemma_union_bit(prev, q);
                        }
                    }
                }
                assert(arrange_error(hand.bits(), ms, i + 1) is None);
            }
            union = union | cards;
            if i == 0 {
                slots = [Some(meld), None, None];
            } else if i == 1 {
                slots = [slots[0], Some(meld), None];
            } else {
                slots = [slots[0], slots[1], Some(meld)];
            }
            i += 1;
        }
        proof {
            assert(ms.take(n as int) =~= ms);
        }
        Ok(Melds { melds: slots, hand })
    }

    /// The melds of this arrangement, in order
    pub fn iter(self) -> (v: Vec<Meld>)
        ensures
            meld_bits(v@) == self.melds_seq(),
    {
        proof {
            use_type_invariant(&self);
        }
        let mut v: Vec<Meld> = Vec::new();
        if let Some(m) = self.melds[0] {
            v.push(m);
            if let Some(m) = self.melds[1] {
                v.push(m);
                if let Some(m) = self.melds[2] {
                    v.push(m);
                }
            }
        }
        proof {
            assert(meld_bits(v@) =~= filled(self.melds@));
        }
        v
    }

    /// The arranged hand
    pub fn hand(self) -> (h: Hand)
        ensures
            h.bits() == self.hand_bits(),
    {
        self.hand
    }

    /// The union of the melds
    pub fn melded(self) -> (h: Hand)
        ensures
            h.bits() == union_of(self.melds_seq()),
    {
        let v = self.iter();
        let mut acc = Hand::EMPTY();
        let mut i: usize = 0;
        while i < v.len()
            invariant
                i <= v@.len(),
                meld_bits(v@) == self.melds_seq(),
                acc.bits() == union_of(meld_bits(v@).take(i as int)),
            decreases v@.len() - i,
        {
            proof {
                let ms = meld_bits(v@);
                assert(ms.take(i + 1) =~= ms.take(i as int).push(ms[i as int]));
                lemma_union_push(ms.take(i as int), ms[i as int]);
            }
            acc = acc | v[i].cards();
            i += 1;
        }
        proof {
            assert(meld_bits(v@).take(v@.len() as int) =~= meld_bits(v@));
        }
        acc
    }

    /// The unmelded cards
    pub fn deadwood_cards(self) -> (h: Hand)
        ensures
            h.bits() == leftover(self.hand_bits(), self.melds_seq()),
    {
        self.hand - self.melded()
    }

    /// The deadwood value of the unmelded cards
    pub fn deadwood(self) -> (d: u8)
        ensures
            d == self.value(),
    {
        proof {
            use_type_invariant(&self);
        }
        let cards = self.deadwood_cards();
        let total = pip_sum(cards);
        proof {
            let x = cards.bits();
            assert(subset(x, self.hand.bits()));
            lemma_below_monotone(x, self.hand.bits(), 64);
            crate::bits::lemma_pips_bounded(x, 64);
        }
        total as u8
    }

    /// The meld slots, for the spread of a knock
    pub(crate) fn into_array(self) -> (a: [Option<Meld>; 3])
        ensures
            a@ == self.slots(),
            front_filled(a@),
            filled(a@) == self.melds_seq(),
    {
        proof {
            use_type_invariant(&self);
        }
        self.melds
    }
}

impl From<Meld> for Hand {
    fn from(meld: Meld) -> (h: Hand) {
        let h = meld.cards();
        proof {
            crate::hand::lemma_hand_bits(meld.bits());
            crate::hand::lemma_hand_eq(Hand::from_bits_spec(meld.bits()), h);
        }
        h
    }
}

impl vstd::std_specs::convert::FromSpecImpl<Meld> for Hand {
    open spec fn obeys_from_spec() -> bool {
        true
    }

    open spec fn from_spec(meld: Meld) -> Hand {
        Hand::from_bits_spec(meld.bits())
    }
}

impl TryFrom<Hand> for Meld {
    type Error = InvalidMeld;

    fn try_from(cards: Hand) -> Result<Meld, InvalidMeld> {
        let r = Meld::try_from_cards(cards);
        proof {
            if let Ok(m) = r {
                crate::hand::lemma_hand_bits(cards.bits());
                crate::hand::lemma_hand_eq(Hand::from_bits_spec(cards.bits()), m.0);
            }
        }
        r
    }
}

impl vstd::std_specs::convert::TryFromSpecImpl<Hand> for Meld {
    open spec fn obeys_try_from_spec() -> bool {
        true
    }

    open spec fn try_from_spec(cards: Hand) -> Result<Meld, InvalidMeld> {
        match crate::notation::meld_error(cards.bits()) {
            None => Ok(Meld::from_bits_spec(cards.bits())),
            Some(e) => Err(e),
        }
    }
}

/// An arrangement error, once found, stays the first error.
proof fn lemma_arrange_error_sticks(h: u64, ms: Seq<u64>, i: int, n: int)
    requires
        0 <= i <= n,
        arrange_error(h, ms, i) is Some,
    ensures
        arrange_error(h, ms, n) == arrange_error(h, ms, i),
    decreases n - i,
{
    if i < n {
        lemma_arrange_error_sticks(h, ms, i, n - 1);
    }
}


/// A best arrangement of a hand: disjoint melds minimizing deadwood
///
/// Ties between optimal arrangements favor runs over sets: among the
/// arrangements of least deadwood, the one returned spreads the fewest
/// sets.  Which of several such arrangements wins is otherwise unspecified.
/// Cards outside the 52-card deck are ignored.  The hand must have at most
/// 11 cards, for which an arrangement of at most three melds suffices.
pub fn best_melds(hand: Hand) -> (m: Melds)
    requires
        count(hand.bits() & ALL_BITS) <= 11,
    ensures
        m.hand_bits() == hand.bits() & ALL_BITS,
        is_min_deadwood(hand.bits(), m.value()),
        m.value() == min_deadwood(hand.bits()),
        forall|ms: Seq<u64>|
            #[trigger] is_arrangement(m.hand_bits(), ms) && pips(leftover(m.hand_bits(), ms))
                == m.value() ==> sets_in(m.melds_seq()) <= sets_in(ms),
{
    let (d, chosen) = solve(hand);
    let bits = hand.to_bits() & 0x3FFE_3FFE_3FFE_3FFE;
    proof {
        lemma_arrangement_len(bits, chosen@);
    }
    let n = chosen.len();
    let m0 = if n > 0 {
        Some(Meld(Hand::from_bits_retain(chosen[0])))
    } else {
        None
    };
    let m1 = if n > 1 {
        Some(Meld(Hand::from_bits_retain(chosen[1])))
    } else {
        None
    };
    let m2 = if n > 2 {
        Some(Meld(Hand::from_bits_retain(chosen[2])))
    } else {
        None
    };
    let slots = [m0, m1, m2];
    proof {
        assert(filled(slots@) =~= chosen@);
        lemma_min_deadwood_unique(hand.bits(), d as int);
    }
    Melds { melds: slots, hand: Hand::from_bits_retain(bits) }
}

/// Melds with the same cards are the same meld.
pub proof fn lemma_meld_eq(a: Meld, b: Meld)
    requires
        a.bits() == b.bits(),
    ensures
        a == b,
{
    crate::hand::lemma_hand_eq(a.0, b.0);
}

/// A strictly growing sequence with gaps of at least `g` climbs `g` per step.
proof fn lemma_gaps(sq: Seq<int>, a: int, g: int, k: int)
    requires
        0 <= k < sq.len(),
        g >= 1,
        sq[0] >= a,
        forall|i: int| 0 <= i < sq.len() - 1 ==> #[trigger] sq[i + 1] >= sq[i] + g,
    ensures
        sq[k] >= a + g * k,
    decreases k,
{
    if k > 0 {
        lemma_gaps(sq, a, g, k - 1);
        let j = k - 1;
        assert(sq[j + 1] >= sq[j] + g);
        assert(a + g * j + g == a + g * k) by (nonlinear_arith)
            requires
                j == k - 1,
        ;
    } else {
        assert(g * k == 0) by (nonlinear_arith)
            requires
                k == 0,
        ;
    }
}

/// Every meld has at most 13 cards: a set at most four, a run at most the
/// 13 ranks of its suit.
pub proof fn lemma_meld_count_upper(x: u64)
    requires
        is_meld_bits(x),
    ensures
        count(x) <= 13,
{
    crate::bits::lemma_positions(x);
    let sq = crate::bits::positions(x);
    if sq.len() > 0 {
        let n = sq.len() - 1;
        assert(bit(x, sq[n]));
        if is_set_bits(x) {
            let (r, m) = choose|r: int, m: int| is_set_of(x, r, m);
            assert forall|i: int| 0 <= i < sq.len() - 1 implies #[trigger] sq[i + 1] >= sq[i] + 16 by {
                assert(bit(x, sq[i]));
                assert(bit(x, sq[i + 1]));
                assert(sq[i] < sq[i + 1]);
                assert(sq[i] % 16 == r && sq[i + 1] % 16 == r);
            }
            assert(bit(x, sq[0]));
            lemma_gaps(sq, 0, 16, n);
        } else {
            let (st, lo, hi) = choose|st: int, lo: int, hi: int| is_run_of(x, st, lo, hi);
            assert forall|i: int| 0 <= i < sq.len() - 1 implies #[trigger] sq[i + 1] >= sq[i] + 1 by {
                assert(sq[i] < sq[i + 1]);
            }
            assert(bit(x, sq[0]));
            assert(sq[0] / 16 == st && lo <= sq[0] % 16);
            assert(sq[n] / 16 == st && sq[n] % 16 <= hi);
            lemma_gaps(sq, 16 * st + lo, 1, n);
        }
    }
}

/// Laying a card onto a meld agrees with building a meld from the grown
/// cards: for a card the meld lacks, [`Meld::extended`] succeeds exactly
/// when [`Meld::try_from_cards`] accepts the meld's cards with the card (in
/// the deck, at least three, a meld), and both then give the meld of exactly
/// those cards.
pub proof fn lemma_extended_agrees(x: u64, c: crate::hand::Card)
    requires
        is_meld_bits(x),
    ensures
        ({
            let g = x | (1u64 << c.pos() as u64);
            (!bit(x, c.pos()) && is_meld_bits(g)) <==> (!bit(x, c.pos()) && subset(g, ALL_BITS)
                && count(g) >= 3 && is_meld_bits(g))
        }),
{
    let g = x | (1u64 << c.pos() as u64);
    crate::hand::lemma_card(c);
    if is_meld_bits(g) {
        lemma_meld_valid(g);
        lemma_meld_count(g);
    }
}

/// A meld's cards make the same meld again: they lie in the deck and number
/// at least three, so [`Meld::try_from_cards`] accepts them, and any meld
/// with those cards is this one.  So is the hand [`Meld::cards`] gives the
/// hand that `Hand::from` gives.
pub proof fn lemma_meld_cards_roundtrip(m: Meld, e: Meld)
    requires
        is_meld_bits(m.bits()),
        e.bits() == m.bits(),
    ensures
        subset(m.bits(), ALL_BITS),
        3 <= count(m.bits()) <= 13,
        e == m,
        Hand::from_bits_spec(m.bits()).bits() == m.bits(),
{
    lemma_meld_valid(m.bits());
    lemma_meld_count(m.bits());
    lemma_meld_count_upper(m.bits());
    lemma_meld_eq(m, e);
    crate::hand::lemma_hand_bits(m.bits());
}

/// The least deadwood of any card set lies in `0..=170`, so it fits a byte.
pub proof fn lemma_min_deadwood_bounds(h: u64)
    ensures
        0 <= min_deadwood(h) <= 170,
{
    lemma_min_deadwood_exists(h);
    lemma_deadwood_at_most_170(h);
    let ms = choose|ms: Seq<u64>| #[trigger] is_arrangement(h, ms) && min_deadwood(h) == pips(
        leftover(h, ms),
    );
    assert(min_deadwood(h) <= pips(leftover(h, full_sets(h, 13))));
}

} // verus!
