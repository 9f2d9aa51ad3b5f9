//! Bit-level facts about the `u64` card layout shared by hands and melds.
//!
//! A card set is a `u64` whose bit `16 × suit + rank` marks the card.  The
//! spec functions here name single bits, count cards, and total their pip
//! values; the lemmas connect the bitwise operators to those names.

use vstd::prelude::*;
use vstd::std_specs::bits::{u64_trailing_zeros, axiom_u64_trailing_zeros};

verus! {

/// The bits of the 52 valid cards: ranks `1..=13` in each 16-bit suit lane.
pub const ALL_BITS: u64 = 0x3FFE_3FFE_3FFE_3FFEu64;

/// Whether bit `p` of `x` is set.
pub open spec fn bit(x: u64, p: int) -> bool {
    0 <= p < 64 && (x >> (p as u64)) & 1u64 == 1u64
}

/// Whether `p` is the bit of one of the 52 cards.
pub open spec fn valid_pos(p: int) -> bool {
    0 <= p < 64 && 1 <= p % 16 <= 13
}

/// The deadwood value of the card at bit `p`: its rank, with tens and court
/// cards counting 10; bits that are no card count nothing.
pub open spec fn pos_value(p: int) -> int {
    if !valid_pos(p) {
        0
    } else if p % 16 > 10 {
        10
    } else {
        p % 16
    }
}

/// Whether every set bit of `a` is set in `b`.
pub open spec fn subset(a: u64, b: u64) -> bool {
    forall|p: int| #[trigger] bit(a, p) ==> bit(b, p)
}

/// Whether `a` and `b` share no set bit.
pub open spec fn disjoint(a: u64, b: u64) -> bool {
    forall|p: int| !(#[trigger] bit(a, p) && bit(b, p))
}

/// The number of set bits of `x` below position `n`.
pub open spec fn count_below(x: u64, n: int) -> nat
    decreases n,
{
    if n <= 0 {
        0
    } else {
        count_below(x, n - 1) + if bit(x, n - 1) {
            1nat
        } else {
            0nat
        }
    }
}

/// The number of set bits of `x`.
pub open spec fn count(x: u64) -> nat {
    count_below(x, 64)
}

/// The total value of the cards of `x` below position `n`.
pub open spec fn pips_below(x: u64, n: int) -> nat
    decreases n,
{
    if n <= 0 {
        0
    } else {
        pips_below(x, n - 1) + if bit(x, n - 1) {
            pos_value(n - 1) as nat
        } else {
            0nat
        }
    }
}

/// The total deadwood value of the cards of `x`; bits that are no card
/// count nothing.
pub open spec fn pips(x: u64) -> nat {
    pips_below(x, 64)
}

proof fn bv_and(a: u64, b: u64, p: u64)
    by (bit_vector)
    requires
        p < 64,
    ensures
        ((a & b) >> p) & 1u64 == 1u64 <==> (((a >> p) & 1u64 == 1u64) && ((b >> p) & 1u64
            == 1u64)),
{
}

proof fn bv_or(a: u64, b: u64, p: u64)
    by (bit_vector)
    requires
        p < 64,
    ensures
        ((a | b) >> p) & 1u64 == 1u64 <==> (((a >> p) & 1u64 == 1u64) || ((b >> p) & 1u64
            == 1u64)),
{
}

proof fn bv_xor(a: u64, b: u64, p: u64)
    by (bit_vector)
    requires
        p < 64,
    ensures
        ((a ^ b) >> p) & 1u64 == 1u64 <==> (((a >> p) & 1u64 == 1u64) != ((b >> p) & 1u64
            == 1u64)),
{
}

proof fn bv_not(a: u64, p: u64)
    by (bit_vector)
    requires
        p < 64,
    ensures
        ((!a) >> p) & 1u64 == 1u64 <==> !((a >> p) & 1u64 == 1u64),
{
}

proof fn bv_single(q: u64, p: u64)
    by (bit_vector)
    requires
        p < 64,
        q < 64,
    ensures
        ((1u64 << q) >> p) & 1u64 == 1u64 <==> p == q,
{
}

proof fn bv_all(p: u64)
    by (bit_vector)
    requires
        p < 64,
    ensures
        (0x3FFE_3FFE_3FFE_3FFEu64 >> p) & 1u64 == 1u64 <==> (1 <= p % 16 && p % 16 <= 13),
{
}

proof fn bv_nonzero(a: u64, b: u64, d: u64)
    by (bit_vector)
    requires
        a != b,
        d == a ^ b,
    ensures
        d != 0,
{
}

proof fn bv_remove_smaller(h: u64, m: u64)
    by (bit_vector)
    requires
        m & h == m,
        m != 0,
    ensures
        h & !m < h,
{
}

/// Bit `p` of `a & b` is set exactly when it is set in both.
pub broadcast proof fn lemma_bit_and(a: u64, b: u64, p: int)
    ensures
        #[trigger] bit(a & b, p) == (bit(a, p) && bit(b, p)),
{
    if 0 <= p < 64 {
        bv_and(a, b, p as u64);
    }
}

/// Bit `p` of `a | b` is set exactly when it is set in either.
pub broadcast proof fn lemma_bit_or(a: u64, b: u64, p: int)
    ensures
        #[trigger] bit(a | b, p) == (bit(a, p) || bit(b, p)),
{
    if 0 <= p < 64 {
        bv_or(a, b, p as u64);
    }
}

/// Bit `p` of `a ^ b` is set exactly when it is set in one of them.
pub broadcast proof fn lemma_bit_xor(a: u64, b: u64, p: int)
    ensures
        #[trigger] bit(a ^ b, p) == (bit(a, p) != bit(b, p)),
{
    if 0 <= p < 64 {
        bv_xor(a, b, p as u64);
    }
}

/// Bit `p` of `!a` is set exactly when it is clear in `a`.
pub broadcast proof fn lemma_bit_not(a: u64, p: int)
    ensures
        #[trigger] bit(!a, p) == (0 <= p < 64 && !bit(a, p)),
{
    if 0 <= p < 64 {
        bv_not(a, p as u64);
    }
}

/// `1 << q` has exactly bit `q` set.
pub broadcast proof fn lemma_bit_single(q: u64, p: int)
    requires
        q < 64,
    ensures
        #[trigger] bit(1u64 << q, p) == (p == q),
{
    if 0 <= p < 64 {
        bv_single(q, p as u64);
    }
}

/// The bits of [`ALL_BITS`] are exactly the card positions.
pub broadcast proof fn lemma_bit_all(p: int)
    ensures
        #[trigger] bit(ALL_BITS, p) == valid_pos(p),
{
    if 0 <= p < 64 {
        bv_all(p as u64);
    }
}

/// No bit of zero is set.
pub broadcast proof fn lemma_bit_zero(p: int)
    ensures
        !#[trigger] bit(0u64, p),
{
    if 0 <= p < 64 {
        let q = p as u64;
        assert((0u64 >> q) & 1u64 == 0u64) by (bit_vector);
    }
}

pub broadcast group group_bit_ops {
    lemma_bit_and,
    lemma_bit_or,
    lemma_bit_xor,
    lemma_bit_not,
    lemma_bit_single,
    lemma_bit_all,
    lemma_bit_zero,
}

/// Two words with the same bits are equal.
pub proof fn lemma_bits_ext(a: u64, b: u64)
    requires
        forall|p: int| 0 <= p < 64 ==> #[trigger] bit(a, p) == bit(b, p),
    ensures
        a == b,
{
    if a != b {
        let d = a ^ b;
        bv_nonzero(a, b, d);
        axiom_u64_trailing_zeros(d);
        let t = u64_trailing_zeros(d) as int;
        lemma_bit_xor(a, b, t);
        assert(bit(d, t));
        assert(bit(a, t) == bit(b, t));
    }
}

/// Some set bit of a nonzero word.
pub proof fn lemma_some_bit(x: u64) -> (p: int)
    requires
        x != 0,
    ensures
        bit(x, p),
{
    lemma_lowest_bit(x);
    u64_trailing_zeros(x) as int
}

/// Two words are disjoint exactly when their intersection is zero.
pub proof fn lemma_test_disjoint(a: u64, b: u64)
    ensures
        (a & b == 0) == disjoint(a, b),
{
    broadcast use group_bit_ops;

    if a & b == 0 {
        assert forall|p: int| !(#[trigger] bit(a, p) && bit(b, p)) by {
            assert(!bit(a & b, p));
        }
    } else {
        let p = lemma_some_bit(a & b);
        assert(bit(a, p) && bit(b, p));
    }
}

/// Removing a present card decreases the count by one.
pub proof fn lemma_count_remove(x: u64, p: int)
    requires
        0 <= p < 64,
        bit(x, p),
    ensures
        count(x & !(1u64 << (p as u64))) == count(x) - 1,
{
    broadcast use group_bit_ops;

    let y = x & !(1u64 << (p as u64));
    lemma_count_insert(y, p);
    assert forall|q: int| 0 <= q < 64 implies #[trigger] bit(y | (1u64 << (p as u64)), q) == bit(
        x,
        q,
    ) by {}
    lemma_bits_ext(y | (1u64 << (p as u64)), x);
}

/// A word has at most 64 set bits.
pub proof fn lemma_count_le_64(x: u64)
    ensures
        count(x) <= 64,
{
    lemma_count_bound(x, 64);
}

proof fn lemma_count_bound(x: u64, n: int)
    requires
        n >= 0,
    ensures
        count_below(x, n) <= n,
    decreases n,
{
    if n > 0 {
        lemma_count_bound(x, n - 1);
    }
}

/// The empty word counts nothing.
pub proof fn lemma_count_zero()
    ensures
        count(0u64) == 0,
{
    lemma_count_zero_below(64);
}

proof fn lemma_count_zero_below(n: int)
    requires
        n >= 0,
    ensures
        count_below(0u64, n) == 0,
    decreases n,
{
    broadcast use group_bit_ops;

    if n > 0 {
        lemma_count_zero_below(n - 1);
    }
}

/// Counting a union and an intersection counts each set once.
pub proof fn lemma_count_union_inter(a: u64, b: u64)
    ensures
        count(a | b) + count(a & b) == count(a) + count(b),
{
    broadcast use group_bit_ops;

    let only_b = b & !a;
    assert forall|p: int| !(#[trigger] bit(a, p) && bit(only_b, p)) by {}
    lemma_count_disjoint_union(a, only_b);
    assert forall|p: int| 0 <= p < 64 implies #[trigger] bit(a | only_b, p) == bit(a | b, p) by {}
    lemma_bits_ext(a | only_b, a | b);
    let both = a & b;
    assert forall|p: int| !(#[trigger] bit(both, p) && bit(only_b, p)) by {}
    lemma_count_disjoint_union(both, only_b);
    assert forall|p: int| 0 <= p < 64 implies #[trigger] bit(both | only_b, p) == bit(b, p) by {}
    lemma_bits_ext(both | only_b, b);
}

/// The symmetric difference is the union without the intersection.
pub proof fn lemma_xor_is_union_minus_common(a: u64, b: u64)
    ensures
        a ^ b == (a | b) & !(a & b),
{
    assert(a ^ b == (a | b) & !(a & b)) by (bit_vector);
}

/// Removing a nonempty subset makes the word smaller.
pub proof fn lemma_remove_smaller(h: u64, m: u64)
    requires
        subset(m, h),
        m != 0,
    ensures
        h & !m < h,
{
    broadcast use group_bit_ops;

    lemma_bits_ext(m & h, m);
    bv_remove_smaller(h, m);
}

/// The lowest set bit of a nonzero word.
pub proof fn lemma_lowest_bit(x: u64)
    requires
        x != 0,
    ensures
        0 <= u64_trailing_zeros(x) < 64,
        bit(x, u64_trailing_zeros(x) as int),
        forall|p: int| 0 <= p < u64_trailing_zeros(x) ==> !#[trigger] bit(x, p),
{
    axiom_u64_trailing_zeros(x);
    assert forall|p: int| 0 <= p < u64_trailing_zeros(x) implies !#[trigger] bit(x, p) by {
        let q = p as u64;
        assert((x >> q) & 1u64 == 0u64);
    }
}

/// Counting splits over a mask: the bits inside plus the bits outside.
pub proof fn lemma_count_split(x: u64, m: u64, n: int)
    ensures
        count_below(x, n) == count_below(x & m, n) + count_below(x & !m, n),
    decreases n,
{
    broadcast use group_bit_ops;

    if n > 0 {
        lemma_count_split(x, m, n - 1);
    }
}

/// Pip totals split over a mask: the cards inside plus the cards outside.
pub proof fn lemma_pips_split(x: u64, m: u64, n: int)
    ensures
        pips_below(x, n) == pips_below(x & m, n) + pips_below(x & !m, n),
    decreases n,
{
    broadcast use group_bit_ops;

    if n > 0 {
        lemma_pips_split(x, m, n - 1);
    }
}

/// Counts and pip totals depend only on the bits below the bound.
pub proof fn lemma_below_congruent(x: u64, y: u64, n: int)
    requires
        forall|p: int| 0 <= p < n ==> #[trigger] bit(x, p) == bit(y, p),
    ensures
        count_below(x, n) == count_below(y, n),
        pips_below(x, n) == pips_below(y, n),
    decreases n,
{
    if n > 0 {
        lemma_below_congruent(x, y, n - 1);
    }
}

/// Counts and pip totals of a subset are no larger.
pub proof fn lemma_below_monotone(x: u64, y: u64, n: int)
    requires
        subset(x, y),
    ensures
        count_below(x, n) <= count_below(y, n),
        pips_below(x, n) <= pips_below(y, n),
    decreases n,
{
    if n > 0 {
        lemma_below_monotone(x, y, n - 1);
    }
}

/// Each card is worth at most 10.
pub proof fn lemma_pips_bounded(x: u64, n: int)
    ensures
        pips_below(x, n) <= 10 * count_below(x, n),
    decreases n,
{
    if n > 0 {
        lemma_pips_bounded(x, n - 1);
    }
}


/// The bits of the 13 valid ranks within one suit lane.
pub const LANE_BITS: u16 = 0x3FFEu16;

/// Whether bit `p` of the 16-bit lane `x` is set.
pub open spec fn bit16(x: u16, p: int) -> bool {
    0 <= p < 16 && (x >> (p as u16)) & 1u16 == 1u16
}

/// Whether `p` is the bit of one of the 13 ranks.
pub open spec fn valid_rank(p: int) -> bool {
    1 <= p <= 13
}

/// The number of set bits of the lane `x` below position `n`.
pub open spec fn count16_below(x: u16, n: int) -> nat
    decreases n,
{
    if n <= 0 {
        0
    } else {
        count16_below(x, n - 1) + if bit16(x, n - 1) {
            1nat
        } else {
            0nat
        }
    }
}

proof fn bv16_and(a: u16, b: u16, p: u16)
    by (bit_vector)
    requires
        p < 16,
    ensures
        ((a & b) >> p) & 1u16 == 1u16 <==> (((a >> p) & 1u16 == 1u16) && ((b >> p) & 1u16
            == 1u16)),
{
}

proof fn bv16_or(a: u16, b: u16, p: u16)
    by (bit_vector)
    requires
        p < 16,
    ensures
        ((a | b) >> p) & 1u16 == 1u16 <==> (((a >> p) & 1u16 == 1u16) || ((b >> p) & 1u16
            == 1u16)),
{
}

proof fn bv16_xor(a: u16, b: u16, p: u16)
    by (bit_vector)
    requires
        p < 16,
    ensures
        ((a ^ b) >> p) & 1u16 == 1u16 <==> (((a >> p) & 1u16 == 1u16) != ((b >> p) & 1u16
            == 1u16)),
{
}

proof fn bv16_not(a: u16, p: u16)
    by (bit_vector)
    requires
        p < 16,
    ensures
        ((!a) >> p) & 1u16 == 1u16 <==> !((a >> p) & 1u16 == 1u16),
{
}

proof fn bv16_single(q: u16, p: u16)
    by (bit_vector)
    requires
        p < 16,
        q < 16,
    ensures
        ((1u16 << q) >> p) & 1u16 == 1u16 <==> p == q,
{
}

proof fn bv16_lane(p: u16)
    by (bit_vector)
    requires
        p < 16,
    ensures
        (0x3FFEu16 >> p) & 1u16 == 1u16 <==> (1 <= p && p <= 13),
{
}

proof fn bv16_nonzero(a: u16, b: u16, d: u16)
    by (bit_vector)
    requires
        a != b,
        d == a ^ b,
    ensures
        d != 0,
{
}

proof fn bv_lane_get(x: u64, k: u64, r: u64)
    by (bit_vector)
    requires
        k <= 48,
        r < 16,
    ensures
        ((((x >> k) as u16) >> (r as u16)) & 1u16 == 1u16) <==> ((x >> (k + r)) & 1u64 == 1u64),
{
}

proof fn bv_lane_put(h: u16, k: u64, p: u64)
    by (bit_vector)
    requires
        k <= 48,
        p < 64,
    ensures
        ((((h as u64) << k) >> p) & 1u64 == 1u64) <==> (k <= p && p < k + 16 && ((h >> ((p
            - k) as u16)) & 1u16 == 1u16)),
{
}

/// Bit `p` of `a & b` is set exactly when it is set in both.
pub broadcast proof fn lemma_bit16_and(a: u16, b: u16, p: int)
    ensures
        #[trigger] bit16(a & b, p) == (bit16(a, p) && bit16(b, p)),
{
    if 0 <= p < 16 {
        bv16_and(a, b, p as u16);
    }
}

/// Bit `p` of `a | b` is set exactly when it is set in either.
pub broadcast proof fn lemma_bit16_or(a: u16, b: u16, p: int)
    ensures
        #[trigger] bit16(a | b, p) == (bit16(a, p) || bit16(b, p)),
{
    if 0 <= p < 16 {
        bv16_or(a, b, p as u16);
    }
}

/// Bit `p` of `a ^ b` is set exactly when it is set in one of them.
pub broadcast proof fn lemma_bit16_xor(a: u16, b: u16, p: int)
    ensures
        #[trigger] bit16(a ^ b, p) == (bit16(a, p) != bit16(b, p)),
{
    if 0 <= p < 16 {
        bv16_xor(a, b, p as u16);
    }
}

/// Bit `p` of `!a` is set exactly when it is clear in `a`.
pub broadcast proof fn lemma_bit16_not(a: u16, p: int)
    ensures
        #[trigger] bit16(!a, p) == (0 <= p < 16 && !bit16(a, p)),
{
    if 0 <= p < 16 {
        bv16_not(a, p as u16);
    }
}

/// `1 << q` has exactly bit `q` set.
pub broadcast proof fn lemma_bit16_single(q: u16, p: int)
    requires
        q < 16,
    ensures
        #[trigger] bit16(1u16 << q, p) == (p == q),
{
    if 0 <= p < 16 {
        bv16_single(q, p as u16);
    }
}

/// The bits of [`LANE_BITS`] are exactly the ranks.
pub broadcast proof fn lemma_bit16_lane(p: int)
    ensures
        #[trigger] bit16(LANE_BITS, p) == valid_rank(p),
{
    if 0 <= p < 16 {
        bv16_lane(p as u16);
    }
}

/// No bit of zero is set.
pub broadcast proof fn lemma_bit16_zero(p: int)
    ensures
        !#[trigger] bit16(0u16, p),
{
    if 0 <= p < 16 {
        let q = p as u16;
        assert((0u16 >> q) & 1u16 == 0u16) by (bit_vector);
    }
}

/// The lane of suit `s` within a card word.
pub open spec fn lane(x: u64, s: int) -> u16 {
    (x >> ((16 * s) as u64)) as u16
}

/// Bit `r` of the lane of suit `s` is the bit `16 × s + r` of the word.
pub broadcast proof fn lemma_lane_bit(x: u64, s: int, r: int)
    requires
        0 <= s < 4,
    ensures
        #[trigger] bit16(lane(x, s), r) == (0 <= r < 16 && bit(x, 16 * s + r)),
{
    if 0 <= r < 16 {
        bv_lane_get(x, (16 * s) as u64, r as u64);
    }
}

/// A lane shifted into suit `s` has the lane's bits at `16 × s + r`.
pub broadcast proof fn lemma_shifted_lane_bit(h: u16, s: int, p: int)
    requires
        0 <= s < 4,
    ensures
        #[trigger] bit((h as u64) << ((16 * s) as u64), p) == (16 * s <= p < 16 * s + 16
            && bit16(h, p - 16 * s)),
{
    if 0 <= p < 64 {
        bv_lane_put(h, (16 * s) as u64, p as u64);
    }
}

pub broadcast group group_bit16_ops {
    lemma_bit16_and,
    lemma_bit16_or,
    lemma_bit16_xor,
    lemma_bit16_not,
    lemma_bit16_single,
    lemma_bit16_lane,
    lemma_bit16_zero,
}

/// Two lanes with the same bits are equal.
pub proof fn lemma_bits16_ext(a: u16, b: u16)
    requires
        forall|p: int| 0 <= p < 16 ==> #[trigger] bit16(a, p) == bit16(b, p),
    ensures
        a == b,
{
    if a != b {
        let d = a ^ b;
        bv16_nonzero(a, b, d);
        let t = lowest16(d);
        lemma_bit16_xor(a, b, t);
        assert(bit16(a, t) == bit16(b, t));
    }
}

/// The position of some set bit of a nonzero lane.
proof fn lowest16(d: u16) -> (t: int)
    requires
        d != 0,
    ensures
        0 <= t < 16,
        bit16(d, t),
{
    let w = d as u64;
    assert(w != 0) by (bit_vector)
        requires
            d != 0,
            w == d as u64,
    ;
    axiom_u64_trailing_zeros(w);
    let t = u64_trailing_zeros(w) as u64;
    assert(t < 16 && (d >> (t as u16)) & 1u16 == 1u16) by (bit_vector)
        requires
            w == d as u64,
            t < 64,
            (w >> t) & 1u64 == 1u64,
    ;
    t as int
}

/// The deck has 52 cards.
pub proof fn lemma_count_all()
    ensures
        count(ALL_BITS) == 52,
{
    lemma_count_all_lanes(4);
}

proof fn lemma_count_all_lanes(k: int)
    requires
        0 <= k <= 4,
    ensures
        count_below(ALL_BITS, 16 * k) == 13 * k,
    decreases k,
{
    if k > 0 {
        lemma_count_all_lanes(k - 1);
        let b = 16 * (k - 1);
        assert forall|j: int| 0 <= j < 16 implies #[trigger] bit(ALL_BITS, b + j) == (1 <= j
            <= 13) by {
            lemma_bit_all(b + j);
        }
        reveal_with_fuel(count_below, 17);
        assert(count_below(ALL_BITS, b + 16) == count_below(ALL_BITS, b) + 13) by {
            assert(bit(ALL_BITS, b + 0) == false);
            assert(bit(ALL_BITS, b + 1));
            assert(bit(ALL_BITS, b + 2));
            assert(bit(ALL_BITS, b + 3));
            assert(bit(ALL_BITS, b + 4));
            assert(bit(ALL_BITS, b + 5));
            assert(bit(ALL_BITS, b + 6));
            assert(bit(ALL_BITS, b + 7));
            assert(bit(ALL_BITS, b + 8));
            assert(bit(ALL_BITS, b + 9));
            assert(bit(ALL_BITS, b + 10));
            assert(bit(ALL_BITS, b + 11));
            assert(bit(ALL_BITS, b + 12));
            assert(bit(ALL_BITS, b + 13));
            assert(!bit(ALL_BITS, b + 14));
            assert(!bit(ALL_BITS, b + 15));
        }
    }
}

/// Disjoint card sets count additively.
pub proof fn lemma_count_disjoint_union(x: u64, y: u64)
    requires
        disjoint(x, y),
    ensures
        count(x | y) == count(x) + count(y),
{
    broadcast use group_bit_ops;

    lemma_count_split(x | y, y, 64);
    assert forall|p: int| 0 <= p < 64 implies #[trigger] bit((x | y) & y, p) == bit(y, p) by {}
    lemma_bits_ext((x | y) & y, y);
    assert forall|p: int| 0 <= p < 64 implies #[trigger] bit((x | y) & !y, p) == bit(x, p) by {}
    lemma_bits_ext((x | y) & !y, x);
}

/// A single card counts one.
pub proof fn lemma_count_single(p: int)
    requires
        0 <= p < 64,
    ensures
        count(1u64 << (p as u64)) == 1,
{
    lemma_count_single_below(p, 64);
}

proof fn lemma_count_single_below(p: int, n: int)
    requires
        0 <= p < 64,
    ensures
        count_below(1u64 << (p as u64), n) == if p < n {
            1nat
        } else {
            0nat
        },
    decreases n,
{
    broadcast use group_bit_ops;

    if n > 0 {
        lemma_count_single_below(p, n - 1);
    }
}

/// Adding a new card increases the count by one.
pub proof fn lemma_count_insert(x: u64, p: int)
    requires
        0 <= p < 64,
        !bit(x, p),
    ensures
        count(x | (1u64 << (p as u64))) == count(x) + 1,
{
    broadcast use group_bit_ops;

    lemma_count_disjoint_union(x, 1u64 << (p as u64));
    lemma_count_single(p);
}

/// A proper subset has a smaller count.
pub proof fn lemma_count_strict(x: u64, y: u64)
    requires
        subset(x, y),
        x != y,
    ensures
        count(x) < count(y),
{
    broadcast use group_bit_ops;

    if forall|p: int| 0 <= p < 64 ==> #[trigger] bit(x, p) == bit(y, p) {
        lemma_bits_ext(x, y);
    }
    let p = choose|p: int| 0 <= p < 64 && #[trigger] bit(x, p) != bit(y, p);
    lemma_count_split(y, x, 64);
    assert forall|q: int| 0 <= q < 64 implies #[trigger] bit(y & x, q) == bit(x, q) by {}
    lemma_bits_ext(y & x, x);
    assert(bit(y & !x, p));
    lemma_count_positive(y & !x, p, 64);
}

proof fn lemma_count_positive(x: u64, p: int, n: int)
    requires
        0 <= p < n,
        bit(x, p),
    ensures
        count_below(x, n) >= 1,
    decreases n,
{
    if n - 1 > p {
        lemma_count_positive(x, p, n - 1);
    }
}


/// The set positions of `x` below `n`, in ascending order.
pub open spec fn positions_below(x: u64, n: int) -> Seq<int>
    decreases n,
{
    if n <= 0 {
        Seq::empty()
    } else if bit(x, n - 1) {
        positions_below(x, n - 1).push(n - 1)
    } else {
        positions_below(x, n - 1)
    }
}

/// The set positions of `x`, in ascending order.
pub open spec fn positions(x: u64) -> Seq<int> {
    positions_below(x, 64)
}

/// The positions below `n` are exactly the set bits below `n`, each once,
/// in strictly ascending order, as many as the count.
pub proof fn lemma_positions_below(x: u64, n: int)
    requires
        0 <= n,
    ensures
        positions_below(x, n).len() == count_below(x, n),
        forall|i: int, j: int|
            0 <= i < j < positions_below(x, n).len() ==> positions_below(x, n)[i]
                < positions_below(x, n)[j],
        forall|i: int|
            0 <= i < positions_below(x, n).len() ==> 0 <= #[trigger] positions_below(x, n)[i]
                < n && bit(x, positions_below(x, n)[i]),
        forall|p: int| 0 <= p < n && #[trigger] bit(x, p) ==> positions_below(x, n).contains(p),
    decreases n,
{
    if n > 0 {
        lemma_positions_below(x, n - 1);
        let s = positions_below(x, n - 1);
        if bit(x, n - 1) {
            assert(positions_below(x, n) == s.push(n - 1));
            assert forall|p: int| 0 <= p < n && #[trigger] bit(x, p) implies positions_below(
                x,
                n,
            ).contains(p) by {
                if p < n - 1 {
                    let k = choose|k: int| 0 <= k < s.len() && s[k] == p;
                    assert(positions_below(x, n)[k] == p);
                } else {
                    assert(positions_below(x, n)[s.len() as int] == p);
                }
            }
        }
    }
}

/// The set positions of `x` are exactly its set bits, each once, in strictly
/// ascending order, as many as its count.
pub proof fn lemma_positions(x: u64)
    ensures
        positions(x).len() == count(x),
        forall|i: int, j: int| 0 <= i < j < positions(x).len() ==> positions(x)[i] < positions(x)[j],
        forall|i: int| 0 <= i < positions(x).len() ==> #[trigger] bit(x, positions(x)[i]),
        forall|p: int| #[trigger] bit(x, p) ==> positions(x).contains(p),
{
    lemma_positions_below(x, 64);
}

/// Positions agree below `n` where the bits agree below `n`.
proof fn lemma_positions_congruent(x: u64, y: u64, n: int)
    requires
        forall|p: int| 0 <= p < n ==> #[trigger] bit(x, p) == bit(y, p),
    ensures
        positions_below(x, n) == positions_below(y, n),
    decreases n,
{
    if n > 0 {
        lemma_positions_congruent(x, y, n - 1);
    }
}

/// Removing the lowest set bit `p` removes the first position.
pub proof fn lemma_positions_drop_lowest(x: u64, p: int)
    requires
        bit(x, p),
        forall|q: int| 0 <= q < p ==> !#[trigger] bit(x, q),
    ensures
        positions(x) == seq![p] + positions(x & !(1u64 << (p as u64))),
{
    broadcast use group_bit_ops;

    let y = x & !(1u64 << (p as u64));
    lemma_drop_lowest_below(x, y, p, 64);
}

proof fn lemma_drop_lowest_below(x: u64, y: u64, p: int, n: int)
    requires
        0 <= p < 64,
        bit(x, p),
        forall|q: int| 0 <= q < p ==> !#[trigger] bit(x, q),
        forall|q: int| #[trigger] bit(y, q) == (bit(x, q) && q != p),
        p < n,
    ensures
        positions_below(x, n) == seq![p] + positions_below(y, n),
    decreases n,
{
    if n == p + 1 {
        assert forall|q: int| 0 <= q < p implies #[trigger] bit(x, q) == bit(0u64, q) by {
            broadcast use group_bit_ops;
        }
        lemma_positions_congruent(x, 0u64, p);
        assert forall|q: int| 0 <= q < p + 1 implies #[trigger] bit(y, q) == bit(0u64, q) by {
            broadcast use group_bit_ops;
        }
        lemma_positions_congruent(y, 0u64, p + 1);
        lemma_positions_zero(p);
        lemma_positions_zero(p + 1);
        assert(positions_below(x, n) =~= seq![p] + positions_below(y, n));
    } else {
        lemma_drop_lowest_below(x, y, p, n - 1);
        assert(positions_below(x, n) =~= seq![p] + positions_below(y, n));
    }
}

proof fn lemma_positions_zero(n: int)
    ensures
        positions_below(0u64, n) == Seq::<int>::empty(),
    decreases n,
{
    broadcast use group_bit_ops;

    if n > 0 {
        lemma_positions_zero(n - 1);
    }
}

/// Removing the highest set bit `p` removes the last position.
pub proof fn lemma_positions_drop_highest(x: u64, p: int)
    requires
        bit(x, p),
        forall|q: int| p < q < 64 ==> !#[trigger] bit(x, q),
    ensures
        positions(x) == positions(x & !(1u64 << (p as u64))).push(p),
{
    broadcast use group_bit_ops;

    let y = x & !(1u64 << (p as u64));
    lemma_drop_highest_below(x, y, p, 64);
}

proof fn lemma_drop_highest_below(x: u64, y: u64, p: int, n: int)
    requires
        0 <= p < 64,
        p < n <= 64,
        bit(x, p),
        forall|q: int| p < q < 64 ==> !#[trigger] bit(x, q),
        forall|q: int| #[trigger] bit(y, q) == (bit(x, q) && q != p),
    ensures
        positions_below(x, n) == positions_below(y, n).push(p),
    decreases n,
{
    if n == p + 1 {
        lemma_positions_congruent(x, y, p);
    } else {
        lemma_drop_highest_below(x, y, p, n - 1);
    }
}


/// The set positions of the lane `x` below `n`, in ascending order.
pub open spec fn positions16_below(x: u16, n: int) -> Seq<int>
    decreases n,
{
    if n <= 0 {
        Seq::empty()
    } else if bit16(x, n - 1) {
        positions16_below(x, n - 1).push(n - 1)
    } else {
        positions16_below(x, n - 1)
    }
}

/// The set positions of the lane `x`, in ascending order.
pub open spec fn positions16(x: u16) -> Seq<int> {
    positions16_below(x, 16)
}

/// The positions below `n` of a lane are exactly its set bits below `n`,
/// each once, in strictly ascending order, as many as the count.
pub proof fn lemma_positions16_below(x: u16, n: int)
    requires
        0 <= n,
    ensures
        positions16_below(x, n).len() == count16_below(x, n),
        forall|i: int, j: int|
            0 <= i < j < positions16_below(x, n).len() ==> positions16_below(x, n)[i]
                < positions16_below(x, n)[j],
        forall|i: int|
            0 <= i < positions16_below(x, n).len() ==> 0 <= #[trigger] positions16_below(x, n)[i]
                < n && bit16(x, positions16_below(x, n)[i]),
        forall|p: int|
            0 <= p < n && #[trigger] bit16(x, p) ==> positions16_below(x, n).contains(p),
    decreases n,
{
    if n > 0 {
        lemma_positions16_below(x, n - 1);
        let s = positions16_below(x, n - 1);
        if bit16(x, n - 1) {
            assert(positions16_below(x, n) == s.push(n - 1));
            assert forall|p: int| 0 <= p < n && #[trigger] bit16(x, p) implies positions16_below(
                x,
                n,
            ).contains(p) by {
                if p < n - 1 {
                    let k = choose|k: int| 0 <= k < s.len() && s[k] == p;
                    assert(positions16_below(x, n)[k] == p);
                } else {
                    assert(positions16_below(x, n)[s.len() as int] == p);
                }
            }
        }
    }
}

/// The set positions of a lane are exactly its set bits, each once, in
/// strictly ascending order, as many as its count.
pub proof fn lemma_positions16(x: u16)
    ensures
        positions16(x).len() == count16_below(x, 16),
        forall|i: int, j: int|
            0 <= i < j < positions16(x).len() ==> positions16(x)[i] < positions16(x)[j],
        forall|i: int| 0 <= i < positions16(x).len() ==> #[trigger] bit16(x, positions16(x)[i]),
        forall|p: int| #[trigger] bit16(x, p) ==> positions16(x).contains(p),
{
    lemma_positions16_below(x, 16);
}

proof fn lemma_positions16_congruent(x: u16, y: u16, n: int)
    requires
        forall|p: int| 0 <= p < n ==> #[trigger] bit16(x, p) == bit16(y, p),
    ensures
        positions16_below(x, n) == positions16_below(y, n),
    decreases n,
{
    if n > 0 {
        lemma_positions16_congruent(x, y, n - 1);
    }
}

/// An empty lane has no set positions.
pub proof fn lemma_positions16_zero(n: int)
    ensures
        positions16_below(0u16, n) == Seq::<int>::empty(),
    decreases n,
{
    broadcast use group_bit16_ops;

    if n > 0 {
        lemma_positions16_zero(n - 1);
    }
}

/// Removing the lowest set bit `p` of a lane removes its first position.
pub proof fn lemma_positions16_drop_lowest(x: u16, p: int)
    requires
        bit16(x, p),
        forall|q: int| 0 <= q < p ==> !#[trigger] bit16(x, q),
    ensures
        positions16(x) == seq![p] + positions16(x & !(1u16 << (p as u16))),
{
    broadcast use group_bit16_ops;

    let y = x & !(1u16 << (p as u16));
    lemma_drop_lowest16_below(x, y, p, 16);
}

proof fn lemma_drop_lowest16_below(x: u16, y: u16, p: int, n: int)
    requires
        0 <= p < 16,
        bit16(x, p),
        forall|q: int| 0 <= q < p ==> !#[trigger] bit16(x, q),
        forall|q: int| #[trigger] bit16(y, q) == (bit16(x, q) && q != p),
        p < n,
    ensures
        positions16_below(x, n) == seq![p] + positions16_below(y, n),
    decreases n,
{
    if n == p + 1 {
        assert forall|q: int| 0 <= q < p implies #[trigger] bit16(x, q) == bit16(0u16, q) by {
            broadcast use group_bit16_ops;
        }
        lemma_positions16_congruent(x, 0u16, p);
        assert forall|q: int| 0 <= q < p + 1 implies #[trigger] bit16(y, q) == bit16(0u16, q) by {
            broadcast use group_bit16_ops;
        }
        lemma_positions16_congruent(y, 0u16, p + 1);
        lemma_positions16_zero(p);
        lemma_positions16_zero(p + 1);
        assert(positions16_below(x, n) =~= seq![p] + positions16_below(y, n));
    } else {
        lemma_drop_lowest16_below(x, y, p, n - 1);
        assert(positions16_below(x, n) =~= seq![p] + positions16_below(y, n));
    }
}

/// Removing the highest set bit `p` of a lane removes its last position.
pub proof fn lemma_positions16_drop_highest(x: u16, p: int)
    requires
        bit16(x, p),
        forall|q: int| p < q < 16 ==> !#[trigger] bit16(x, q),
    ensures
        positions16(x) == positions16(x & !(1u16 << (p as u16))).push(p),
{
    broadcast use group_bit16_ops;

    let y = x & !(1u16 << (p as u16));
    lemma_drop_highest16_below(x, y, p, 16);
}

proof fn lemma_drop_highest16_below(x: u16, y: u16, p: int, n: int)
    requires
        0 <= p < 16,
        p < n <= 16,
        bit16(x, p),
        forall|q: int| p < q < 16 ==> !#[trigger] bit16(x, q),
        forall|q: int| #[trigger] bit16(y, q) == (bit16(x, q) && q != p),
    ensures
        positions16_below(x, n) == positions16_below(y, n).push(p),
    decreases n,
{
    if n == p + 1 {
        lemma_positions16_congruent(x, y, p);
    } else {
        lemma_drop_highest16_below(x, y, p, n - 1);
    }
}

} // verus!
