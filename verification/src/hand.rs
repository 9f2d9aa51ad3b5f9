//! Card primitives: ranks, cards, holdings, and hands.
//!
//! [`Rank`] is a byte in `1..=13` with the ace LOW (A/J/Q/K as 1/11/12/13),
//! the ordering of gin rummy.  [`Card`] pairs a [`Rank`] with a [`Suit`].
//! [`Holding`] is a 13-bit bitset of ranks within one suit, and [`Hand`] is
//! a card set packed into a `u64` with a documented layout: the card of
//! suit `s` and rank `r` is bit `16 × s + r`.
//!
//! Iteration yields cards in ascending suit order (clubs first) and
//! ascending rank order within each suit.

use crate::bits::{
    bit, bit16, count, count16_below, count_below, group_bit16_ops, group_bit_ops, lane,
    lemma_bits16_ext, lemma_bits_ext, lemma_lane_bit, lemma_positions, lemma_positions_drop_highest,
    lemma_positions_drop_lowest, lemma_positions16, lemma_positions16_drop_highest,
    lemma_positions16_drop_lowest, lemma_positions16_zero, lemma_shifted_lane_bit, positions, positions16,
    subset, valid_pos,
    valid_rank, ALL_BITS, LANE_BITS,
};
use crate::Suit;
use vstd::prelude::*;
use vstd::std_specs::ops::{BitAndSpec, BitOrSpec, BitXorSpec, NotSpec, SubSpec};

pub use crate::notation::{ParseCardError, ParseHandError, ParseHoldingError, ParseRankError};

verus! {

broadcast use group_bit_ops, group_bit16_ops;

/// Error indicating an invalid rank
///
/// The rank of a card must be in `1..=13`, where A, J, Q, K are denoted as 1,
/// 11, 12, 13 respectively.
#[derive(Debug, Clone, Copy, PartialEq, Eq, Structural, PartialOrd, Ord, Hash)]
pub struct InvalidRank(pub u8);

/// The rank of a card, from ace (1) to king (13)
///
/// The ace is LOW in gin rummy: A-2-3 is a run, Q-K-A is not, and the
/// derived ordering reflects that (`Rank::A < Rank::Two`).
#[derive(Debug, Clone, Copy, PartialEq, Eq, Structural, PartialOrd, Ord, Hash)]
pub enum Rank {
    /// Ace, the lowest rank
    A,
    /// Two
    Two,
    /// Three
    Three,
    /// Four
    Four,
    /// Five
    Five,
    /// Six
    Six,
    /// Seven
    Seven,
    /// Eight
    Eight,
    /// Nine
    Nine,
    /// Ten
    T,
    /// Jack
    J,
    /// Queen
    Q,
    /// King, the highest rank
    K,
}

/// The display letter of a rank number.
pub open spec fn rank_letter(r: int) -> char {
    if r == 1 {
        'A'
    } else if r == 10 {
        'T'
    } else if r == 11 {
        'J'
    } else if r == 12 {
        'Q'
    } else if r == 13 {
        'K'
    } else {
        (r + '0' as int) as char
    }
}

/// The deadwood value of a rank number: tens and court cards count 10.
pub open spec fn rank_value(r: int) -> int {
    if r > 10 {
        10
    } else {
        r
    }
}

/// The rank with a number in `1..=13`.
pub open spec fn rank_of(r: int) -> Rank {
    if r <= 1 {
        Rank::A
    } else if r == 2 {
        Rank::Two
    } else if r == 3 {
        Rank::Three
    } else if r == 4 {
        Rank::Four
    } else if r == 5 {
        Rank::Five
    } else if r == 6 {
        Rank::Six
    } else if r == 7 {
        Rank::Seven
    } else if r == 8 {
        Rank::Eight
    } else if r == 9 {
        Rank::Nine
    } else if r == 10 {
        Rank::T
    } else if r == 11 {
        Rank::J
    } else if r == 12 {
        Rank::Q
    } else {
        Rank::K
    }
}

impl Rank {
    /// The rank number, `1..=13`
    pub open spec fn value(self) -> int {
        match self {
            Rank::A => 1,
            Rank::Two => 2,
            Rank::Three => 3,
            Rank::Four => 4,
            Rank::Five => 5,
            Rank::Six => 6,
            Rank::Seven => 7,
            Rank::Eight => 8,
            Rank::Nine => 9,
            Rank::T => 10,
            Rank::J => 11,
            Rank::Q => 12,
            Rank::K => 13,
        }
    }

    /// Create a rank from a number in `1..=13`
    pub fn new(rank: u8) -> (r: Rank)
        requires
            1 <= rank <= 13,
        ensures
            r.value() == rank,
            r == rank_of(rank as int),
    {
        if rank == 1 {
            Rank::A
        } else if rank == 2 {
            Rank::Two
        } else if rank == 3 {
            Rank::Three
        } else if rank == 4 {
            Rank::Four
        } else if rank == 5 {
            Rank::Five
        } else if rank == 6 {
            Rank::Six
        } else if rank == 7 {
            Rank::Seven
        } else if rank == 8 {
            Rank::Eight
        } else if rank == 9 {
            Rank::Nine
        } else if rank == 10 {
            Rank::T
        } else if rank == 11 {
            Rank::J
        } else if rank == 12 {
            Rank::Q
        } else {
            Rank::K
        }
    }

    /// Try to create a rank from a number
    pub fn try_new(rank: u8) -> (r: Result<Rank, InvalidRank>)
        ensures
            1 <= rank <= 13 ==> r == Ok::<Rank, InvalidRank>(rank_of(rank as int)),
            !(1 <= rank <= 13) ==> r == Err::<Rank, InvalidRank>(InvalidRank(rank)),
    {
        if 1 <= rank && rank <= 13 {
            Ok(Rank::new(rank))
        } else {
            Err(InvalidRank(rank))
        }
    }

    /// Get the rank as a number, `1..=13`
    pub fn get(self) -> (r: u8)
        ensures
            r == self.value(),
            1 <= r <= 13,
    {
        match self {
            Rank::A => 1,
            Rank::Two => 2,
            Rank::Three => 3,
            Rank::Four => 4,
            Rank::Five => 5,
            Rank::Six => 6,
            Rank::Seven => 7,
            Rank::Eight => 8,
            Rank::Nine => 9,
            Rank::T => 10,
            Rank::J => 11,
            Rank::Q => 12,
            Rank::K => 13,
        }
    }

    /// Display character for this rank
    pub fn letter(self) -> (c: char)
        ensures
            c == rank_letter(self.value()),
    {
        match self {
            Rank::A => 'A',
            Rank::Two => '2',
            Rank::Three => '3',
            Rank::Four => '4',
            Rank::Five => '5',
            Rank::Six => '6',
            Rank::Seven => '7',
            Rank::Eight => '8',
            Rank::Nine => '9',
            Rank::T => 'T',
            Rank::J => 'J',
            Rank::Q => 'Q',
            Rank::K => 'K',
        }
    }

    /// The deadwood value of this rank: aces count 1, spot cards their pip
    /// value, and tens and court cards 10
    pub fn deadwood(self) -> (d: u8)
        ensures
            d == rank_value(self.value()),
    {
        let r = self.get();
        if r > 10 {
            10
        } else {
            r
        }
    }
}

impl From<Rank> for u8 {
    fn from(rank: Rank) -> (r: u8) {
        rank.get()
    }
}

impl vstd::std_specs::convert::FromSpecImpl<Rank> for u8 {
    open spec fn obeys_from_spec() -> bool {
        true
    }

    open spec fn from_spec(rank: Rank) -> u8 {
        rank.value() as u8
    }
}

impl TryFrom<u8> for Rank {
    type Error = InvalidRank;

    fn try_from(rank: u8) -> Result<Rank, InvalidRank> {
        Rank::try_new(rank)
    }
}

impl vstd::std_specs::convert::TryFromSpecImpl<u8> for Rank {
    open spec fn obeys_try_from_spec() -> bool {
        true
    }

    open spec fn try_from_spec(rank: u8) -> Result<Rank, InvalidRank> {
        if 1 <= rank <= 13 {
            Ok(rank_of(rank as int))
        } else {
            Err(InvalidRank(rank))
        }
    }
}

/// Every rank is the rank of its number.
pub broadcast proof fn lemma_rank_of_value(r: Rank)
    ensures
        #[trigger] rank_of(r.value()) == r,
        1 <= r.value() <= 13,
{
}

/// The rank of a number in `1..=13` has that number.
pub broadcast proof fn lemma_value_of_rank(r: int)
    requires
        1 <= r <= 13,
    ensures
        #[trigger] rank_of(r).value() == r,
{
}

/// A playing card
#[derive(Debug, Clone, Copy, PartialEq, Eq, Structural, Hash)]
pub struct Card {
    /// The suit of the card
    pub suit: Suit,
    /// The rank of the card
    pub rank: Rank,
}

impl Card {
    /// The bit of this card in the card-set layout: `16 × suit + rank`
    pub open spec fn pos(self) -> int {
        16 * self.suit.idx() + self.rank.value()
    }

    /// Whether the card's rank is in `1..=13`, as every constructed rank is
    pub open spec fn valid(self) -> bool {
        1 <= self.rank.value() <= 13
    }

    /// The bit of this card in the card-set layout
    pub fn position(self) -> (p: u64)
        ensures
            p == self.pos(),
            valid_pos(p as int),
            self.valid(),
    {
        16 * (self.suit.index() as u64) + (self.rank.get() as u64)
    }

    /// The card at a bit of the card-set layout
    pub fn from_position(p: u64) -> (c: Card)
        requires
            valid_pos(p as int),
        ensures
            c.pos() == p,
            c.valid(),
    {
        let suit = Suit::from_index((p / 16) as usize);
        let rank = Rank::new((p % 16) as u8);
        Card { suit, rank }
    }
}

/// Two valid cards at the same position are the same card.
pub proof fn lemma_pos_injective(a: Card, b: Card)
    requires
        a.valid(),
        b.valid(),
        a.pos() == b.pos(),
    ensures
        a == b,
{
    assert(a.suit.idx() == b.suit.idx());
    assert(a.rank.value() == b.rank.value());
    lemma_rank_of_value(a.rank);
    lemma_rank_of_value(b.rank);
}

/// The card at a valid position.
pub closed spec fn card_at(p: int) -> Card {
    Card {
        suit: if p / 16 == 0 {
            Suit::Clubs
        } else if p / 16 == 1 {
            Suit::Diamonds
        } else if p / 16 == 2 {
            Suit::Hearts
        } else {
            Suit::Spades
        },
        rank: rank_of(p % 16),
    }
}

/// The card at a valid position has that position.
pub broadcast proof fn lemma_card_at(p: int)
    requires
        valid_pos(p),
    ensures
        #[trigger] card_at(p).pos() == p,
        card_at(p).valid(),
{
}

/// Every card is valid, at a card position, and the card at its position.
pub proof fn lemma_card(c: Card)
    ensures
        c.valid(),
        valid_pos(c.pos()),
        card_at(c.pos()) == c,
{
    lemma_rank_of_value(c.rank);
    assert(valid_pos(c.pos()));
    lemma_card_at(c.pos());
    lemma_pos_injective(card_at(c.pos()), c);
}

/// A set of cards of the same suit
#[derive(Debug, Clone, Copy, PartialEq, Eq, Structural, Hash)]
pub struct Holding(u16);

impl Holding {
    /// The empty set
    #[allow(non_snake_case)]
    pub fn EMPTY() -> (h: Holding)
        ensures
            h.bits16() == 0,
    {
        Holding(0)
    }

    /// The set containing all possible ranks (1..=13)
    #[allow(non_snake_case)]
    pub fn ALL() -> (h: Holding)
        ensures
            h.bits16() == LANE_BITS,
    {
        Holding(0x3FFE)
    }

    /// The bitset of ranks: bit `r` marks rank `r`
    pub closed spec fn bits16(self) -> u16 {
        self.0
    }

    /// Whether rank number `r` is in the holding
    pub open spec fn has(self, r: int) -> bool {
        bit16(self.bits16(), r)
    }

    /// The number of cards in the holding, counting invalid ranks too
    pub fn len(self) -> (n: usize)
        ensures
            n == count16_below(self.bits16(), 16),
    {
        let x = self.0;
        let mut i: u16 = 0;
        let mut n: usize = 0;
        while i < 16
            invariant
                i <= 16,
                n == count16_below(x, i as int),
                n <= i,
            decreases 16 - i,
        {
            if (x >> i) & 1 == 1 {
                n += 1;
            }
            i += 1;
        }
        n
    }

    /// Whether the holding is empty
    pub fn is_empty(self) -> (b: bool)
        ensures
            b == (self.bits16() == 0),
    {
        self.0 == 0
    }

    /// Whether the holding contains a rank
    pub fn contains(self, rank: Rank) -> (b: bool)
        ensures
            b == self.has(rank.value()),
    {
        let r = rank.get() as u16;
        (self.0 >> r) & 1 == 1
    }

    /// Insert a rank into the holding, returning whether it was newly inserted
    pub fn insert(&mut self, rank: Rank) -> (inserted: bool)
        ensures
            final(self).bits16() == old(self).bits16() | (1u16 << rank.value() as u16),
            inserted == !old(self).has(rank.value()),
    {
        let r = rank.get() as u16;
        let inserted = (self.0 >> r) & 1 != 1;
        self.0 = self.0 | (1u16 << r);
        inserted
    }

    /// Remove a rank from the holding, returning whether it was present
    pub fn remove(&mut self, rank: Rank) -> (removed: bool)
        ensures
            final(self).bits16() == old(self).bits16() & !(1u16 << rank.value() as u16),
            removed == old(self).has(rank.value()),
    {
        let r = rank.get() as u16;
        let removed = (self.0 >> r) & 1 == 1;
        self.0 = self.0 & !(1u16 << r);
        removed
    }

    /// Toggle a rank in the holding, returning whether it is now present
    pub fn toggle(&mut self, rank: Rank) -> (present: bool)
        ensures
            final(self).bits16() == old(self).bits16() ^ (1u16 << rank.value() as u16),
            present == !old(self).has(rank.value()),
    {
        let r = rank.get() as u16;
        let present = (self.0 >> r) & 1 != 1;
        self.0 = self.0 ^ (1u16 << r);
        proof {
            let q = rank.value();
            assert(bit16(self.0, q) == !bit16(old(self).0, q));
        }
        present
    }

    /// Conditionally insert/remove a rank from the holding
    pub fn set(&mut self, rank: Rank, condition: bool)
        ensures
            condition ==> final(self).bits16() == old(self).bits16() | (1u16
                << rank.value() as u16),
            !condition ==> final(self).bits16() == old(self).bits16() & !(1u16
                << rank.value() as u16),
    {
        if condition {
            self.insert(rank);
        } else {
            self.remove(rank);
        }
    }

    /// Iterate over the ranks in the holding, in ascending order
    ///
    /// Bits outside [`Holding::ALL`] are skipped.
    pub fn iter(self) -> (it: HoldingIter)
        ensures
            it.rest() == self.bits16() & LANE_BITS,
            it.remaining() == positions16(self.bits16() & LANE_BITS),
    {
        let rest = self.0 & 0x3FFE;
        proof {
            assert forall|p: int| 0 <= p < 16 implies #[trigger] bit16(rest & LANE_BITS, p)
                == bit16(rest, p) by {}
            lemma_bits16_ext(rest & LANE_BITS, rest);
        }
        HoldingIter { rest }
    }

    /// The ranks in the holding, in ascending order
    pub fn ranks(self) -> (v: Vec<Rank>)
        ensures
            forall|i: int| 0 <= i < v@.len() ==> #[trigger] self.has(v@[i].value()),
            forall|i: int, j: int| 0 <= i < j < v@.len() ==> v@[i].value() < v@[j].value(),
            forall|r: int| valid_rank(r) && #[trigger] self.has(r) ==> exists|i: int|
                0 <= i < v@.len() && v@[i].value() == r,
    {
        let mut v: Vec<Rank> = Vec::new();
        let mut r: u8 = 1;
        while r <= 13
            invariant
                1 <= r <= 14,
                forall|i: int| 0 <= i < v@.len() ==> #[trigger] self.has(v@[i].value()),
                forall|i: int| 0 <= i < v@.len() ==> #[trigger] v@[i].value() < r,
                forall|i: int, j: int| 0 <= i < j < v@.len() ==> v@[i].value() < v@[j].value(),
                forall|q: int| 1 <= q < r && #[trigger] self.has(q) ==> exists|i: int|
                    0 <= i < v@.len() && v@[i].value() == q,
            decreases 14 - r,
        {
            let rank = Rank::new(r);
            let ghost prev = v@;
            if self.contains(rank) {
                v.push(rank);
                assert(v@[v@.len() - 1].value() == r);
            }
            assert forall|q: int| 1 <= q < r + 1 && #[trigger] self.has(q) implies exists|i: int|
                0 <= i < v@.len() && v@[i].value() == q by {
                if q < r {
                    let i = choose|i: int| 0 <= i < prev.len() && prev[i].value() == q;
                    assert(v@[i] == prev[i]);
                } else {
                    assert(v@[v@.len() - 1].value() == q);
                }
            }
            r += 1;
        }
        v
    }

    /// As a bitset of ranks
    pub fn to_bits(self) -> (b: u16)
        ensures
            b == self.bits16(),
    {
        self.0
    }

    /// Create a holding from a bitset of ranks, retaining invalid ranks
    pub fn from_bits_retain(bits: u16) -> (h: Holding)
        ensures
            h.bits16() == bits,
    {
        Holding(bits)
    }

    /// Whether the holding contains an invalid rank
    pub fn contains_unknown_bits(self) -> (b: bool)
        ensures
            b == (self.bits16() & LANE_BITS != self.bits16()),
    {
        self.0 & 0x3FFE != self.0
    }

    /// Create a holding from a bitset of ranks, checking for invalid ranks
    pub fn from_bits(bits: u16) -> (h: Option<Holding>)
        ensures
            bits & LANE_BITS == bits ==> h == Some(Holding::from_bits_spec(bits)),
            bits & LANE_BITS != bits ==> h.is_none(),
    {
        if bits & 0x3FFE == bits {
            Some(Holding(bits))
        } else {
            None
        }
    }

    /// The holding with exactly the given bits
    pub closed spec fn from_bits_spec(bits: u16) -> Holding {
        Holding(bits)
    }

    /// The holding with the given bits has those bits.
    pub broadcast proof fn lemma_from_bits_spec(bits: u16)
        ensures
            #[trigger] Holding::from_bits_spec(bits).bits16() == bits,
    {
    }

    /// Create a holding from a bitset of ranks, removing invalid ranks
    pub fn from_bits_truncate(bits: u16) -> (h: Holding)
        ensures
            h.bits16() == bits & LANE_BITS,
    {
        Holding(bits & 0x3FFE)
    }

    /// Create a holding containing a single rank
    pub fn from_rank(rank: Rank) -> (h: Holding)
        ensures
            h.bits16() == 1u16 << rank.value() as u16,
    {
        Holding(1u16 << rank.get() as u16)
    }

    /// The ranks in both holdings
    pub fn intersection(self, rhs: Holding) -> (h: Holding)
        ensures
            h.bits16() == self.bits16() & rhs.bits16(),
    {
        Holding(self.0 & rhs.0)
    }

    /// The ranks in either holding
    pub fn union(self, rhs: Holding) -> (h: Holding)
        ensures
            h.bits16() == self.bits16() | rhs.bits16(),
    {
        Holding(self.0 | rhs.0)
    }

    /// The ranks in exactly one of the holdings
    pub fn symmetric_difference(self, rhs: Holding) -> (h: Holding)
        ensures
            h.bits16() == self.bits16() ^ rhs.bits16(),
    {
        Holding(self.0 ^ rhs.0)
    }

    /// The valid ranks not in the holding
    pub fn complement(self) -> (h: Holding)
        ensures
            h.bits16() == !self.bits16() & LANE_BITS,
    {
        Holding(!self.0 & 0x3FFE)
    }

    /// The ranks in `self` but not in `rhs`
    pub fn difference(self, rhs: Holding) -> (h: Holding)
        ensures
            h.bits16() == self.bits16() & !rhs.bits16(),
    {
        Holding(self.0 & !rhs.0)
    }
}

impl Default for Holding {
    fn default() -> (h: Holding)
        ensures
            h.bits16() == 0,
    {
        Holding(0)
    }
}

impl core::ops::BitAnd for Holding {
    type Output = Holding;

    fn bitand(self, rhs: Holding) -> Holding {
        self.intersection(rhs)
    }
}

impl vstd::std_specs::ops::BitAndSpecImpl for Holding {
    open spec fn obeys_bitand_spec() -> bool {
        true
    }

    open spec fn bitand_req(self, rhs: Holding) -> bool {
        true
    }

    open spec fn bitand_spec(self, rhs: Holding) -> Holding {
        Holding::from_bits_spec(self.bits16() & rhs.bits16())
    }
}

impl core::ops::BitOr for Holding {
    type Output = Holding;

    fn bitor(self, rhs: Holding) -> Holding {
        self.union(rhs)
    }
}

impl vstd::std_specs::ops::BitOrSpecImpl for Holding {
    open spec fn obeys_bitor_spec() -> bool {
        true
    }

    open spec fn bitor_req(self, rhs: Holding) -> bool {
        true
    }

    open spec fn bitor_spec(self, rhs: Holding) -> Holding {
        Holding::from_bits_spec(self.bits16() | rhs.bits16())
    }
}

impl core::ops::BitXor for Holding {
    type Output = Holding;

    fn bitxor(self, rhs: Holding) -> Holding {
        self.symmetric_difference(rhs)
    }
}

impl vstd::std_specs::ops::BitXorSpecImpl for Holding {
    open spec fn obeys_bitxor_spec() -> bool {
        true
    }

    open spec fn bitxor_req(self, rhs: Holding) -> bool {
        true
    }

    open spec fn bitxor_spec(self, rhs: Holding) -> Holding {
        Holding::from_bits_spec(self.bits16() ^ rhs.bits16())
    }
}

impl core::ops::Not for Holding {
    type Output = Holding;

    fn not(self) -> Holding {
        self.complement()
    }
}

impl vstd::std_specs::ops::NotSpecImpl for Holding {
    open spec fn obeys_not_spec() -> bool {
        true
    }

    open spec fn not_req(self) -> bool {
        true
    }

    open spec fn not_spec(self) -> Holding {
        Holding::from_bits_spec(!self.bits16() & LANE_BITS)
    }
}

impl core::ops::Sub for Holding {
    type Output = Holding;

    fn sub(self, rhs: Holding) -> Holding {
        self.difference(rhs)
    }
}

impl vstd::std_specs::ops::SubSpecImpl for Holding {
    open spec fn obeys_sub_spec() -> bool {
        true
    }

    open spec fn sub_req(self, rhs: Holding) -> bool {
        true
    }

    open spec fn sub_spec(self, rhs: Holding) -> Holding {
        Holding::from_bits_spec(self.bits16() & !rhs.bits16())
    }
}

impl core::ops::BitAndAssign for Holding {
    fn bitand_assign(&mut self, rhs: Holding)
        ensures
            final(self).bits16() == old(self).bits16() & rhs.bits16(),
    {
        self.0 = self.0 & rhs.0;
    }
}

impl core::ops::BitOrAssign for Holding {
    fn bitor_assign(&mut self, rhs: Holding)
        ensures
            final(self).bits16() == old(self).bits16() | rhs.bits16(),
    {
        self.0 = self.0 | rhs.0;
    }
}

impl core::ops::BitXorAssign for Holding {
    fn bitxor_assign(&mut self, rhs: Holding)
        ensures
            final(self).bits16() == old(self).bits16() ^ rhs.bits16(),
    {
        self.0 = self.0 ^ rhs.0;
    }
}

impl core::ops::SubAssign for Holding {
    fn sub_assign(&mut self, rhs: Holding)
        ensures
            final(self).bits16() == old(self).bits16() & !rhs.bits16(),
    {
        self.0 = self.0 & !rhs.0;
    }
}

/// Iterator over the ranks in a [`Holding`], yielding [`Rank`]s in ascending
/// order from the front and descending order from the back
#[derive(Debug, PartialEq, Eq, Structural)]
pub struct HoldingIter {
    rest: u16,
}

impl HoldingIter {
    /// The remaining ranks hold valid ranks only.
    #[verifier::type_invariant]
    closed spec fn inv(self) -> bool {
        self.rest & LANE_BITS == self.rest
    }

    /// The bitset of ranks not yet yielded
    pub closed spec fn rest(self) -> u16 {
        self.rest
    }

    /// The ranks not yet yielded, as numbers, in the order `next` yields
    /// them: ascending
    pub open spec fn remaining(self) -> Seq<int> {
        positions16(self.rest())
    }

    /// Yield the lowest remaining rank
    pub fn next(&mut self) -> (r: Option<Rank>)
        ensures
            old(self).rest() == 0 ==> r.is_none() && final(self).rest() == 0,
            old(self).rest() != 0 ==> (r matches Some(rank) && bit16(old(self).rest(), rank.value())
                && (forall|q: int| 0 <= q < rank.value() ==> !bit16(old(self).rest(), q))
                && final(self).rest() == old(self).rest() & !(1u16 << rank.value() as u16)),
            r is None ==> old(self).remaining().len() == 0,
            r matches Some(rank) ==> old(self).remaining() == seq![rank.value()]
                + final(self).remaining(),
    {
        proof {
            use_type_invariant(&*self);
        }
        if self.rest == 0 {
            proof {
                lemma_positions16_zero(16);
            }
            return None;
        }
        let x = self.rest;
        let mut r: u16 = 0;
        while r < 16 && (x >> r) & 1 != 1
            invariant
                x != 0,
                r <= 16,
                forall|q: int| 0 <= q < r ==> !bit16(x, q),
            decreases 16 - r,
        {
            r += 1;
        }
        if r >= 16 {
            proof {
                lemma_bits16_ext(x, 0u16);
            }
            return None;
        }
        proof {
            assert(bit16(x, r as int));
            assert(bit16(LANE_BITS, r as int)) by {
                assert(bit16(x & LANE_BITS, r as int));
            }
        }
        let rest = x & !(1u16 << r);
        proof {
            assert forall|p: int| 0 <= p < 16 implies #[trigger] bit16(rest & LANE_BITS, p)
                == bit16(rest, p) by {
                assert(bit16(x & LANE_BITS, p) == bit16(x, p));
            }
            lemma_bits16_ext(rest & LANE_BITS, rest);
        }
        proof {
            lemma_positions16_drop_lowest(x, r as int);
        }
        self.rest = rest;
        Some(Rank::new(r as u8))
    }

    /// Yield the highest remaining rank
    pub fn next_back(&mut self) -> (r: Option<Rank>)
        ensures
            old(self).rest() == 0 ==> r.is_none() && final(self).rest() == 0,
            old(self).rest() != 0 ==> (r matches Some(rank) && bit16(old(self).rest(), rank.value())
                && (forall|q: int| rank.value() < q < 16 ==> !bit16(old(self).rest(), q))
                && final(self).rest() == old(self).rest() & !(1u16 << rank.value() as u16)),
            r is None ==> old(self).remaining().len() == 0,
            r matches Some(rank) ==> old(self).remaining() == final(self).remaining().push(
                rank.value(),
            ),
    {
        proof {
            use_type_invariant(&*self);
        }
        if self.rest == 0 {
            proof {
                lemma_positions16_zero(16);
            }
            return None;
        }
        let x = self.rest;
        let mut r: u16 = 16;
        while r > 0 && (x >> (r - 1)) & 1 != 1
            invariant
                x != 0,
                r <= 16,
                forall|q: int| r <= q < 16 ==> !bit16(x, q),
            decreases r,
        {
            r -= 1;
        }
        if r == 0 {
            proof {
                lemma_bits16_ext(x, 0u16);
            }
            return None;
        }
        let r = r - 1;
        proof {
            assert(bit16(x, r as int));
            assert(bit16(LANE_BITS, r as int)) by {
                assert(bit16(x & LANE_BITS, r as int));
            }
        }
        let rest = x & !(1u16 << r);
        proof {
            assert forall|p: int| 0 <= p < 16 implies #[trigger] bit16(rest & LANE_BITS, p)
                == bit16(rest, p) by {
                assert(bit16(x & LANE_BITS, p) == bit16(x, p));
            }
            lemma_bits16_ext(rest & LANE_BITS, rest);
        }
        proof {
            lemma_positions16_drop_highest(x, r as int);
        }
        self.rest = rest;
        Some(Rank::new(r as u8))
    }

    /// The number of ranks not yet yielded
    pub fn len(&self) -> (n: usize)
        ensures
            n == count16_below(self.rest(), 16),
            n == self.remaining().len(),
    {
        proof {
            lemma_positions16(self.rest);
        }
        Holding(self.rest).len()
    }
}

impl Clone for HoldingIter {
    fn clone(&self) -> (it: HoldingIter)
        ensures
            it.rest() == self.rest(),
    {
        proof {
            use_type_invariant(self);
        }
        HoldingIter { rest: self.rest }
    }
}


/// A set of playing cards
///
/// Despite the name, this type is a general card set: it also represents
/// melds, deadwood, and the union of several hands throughout this crate.
/// The card of suit `s` and rank `r` is bit `16 × s + r` of
/// [`Hand::to_bits`], a stable layout.
#[derive(Debug, Clone, Copy, PartialEq, Eq, Structural, Hash)]
pub struct Hand(u64);

impl Hand {
    /// The bitset of cards: bit `16 × suit + rank` marks a card
    pub closed spec fn bits(self) -> u64 {
        self.0
    }

    /// The hand with exactly the given bits
    pub closed spec fn from_bits_spec(bits: u64) -> Hand {
        Hand(bits)
    }

    /// Whether the hand holds a card
    pub open spec fn has(self, c: Card) -> bool {
        bit(self.bits(), c.pos())
    }

    /// The empty hand
    #[allow(non_snake_case)]
    pub fn EMPTY() -> (h: Hand)
        ensures
            h.bits() == 0,
    {
        Hand(0)
    }

    /// The hand containing all 52 cards
    #[allow(non_snake_case)]
    pub fn ALL() -> (h: Hand)
        ensures
            h.bits() == ALL_BITS,
    {
        Hand(0x3FFE_3FFE_3FFE_3FFE)
    }

    /// As a bitset of cards
    ///
    /// The card of suit `s` and rank `r` is bit `16 × s + r`, i.e. each suit
    /// owns a 16-bit lane in ascending suit order and a lane is the
    /// [`Holding::to_bits`] of that suit.  This layout is a stable API
    /// contract of this crate.
    pub fn to_bits(self) -> (b: u64)
        ensures
            b == self.bits(),
    {
        self.0
    }

    /// Create a hand from a bitset of cards, retaining invalid cards
    pub fn from_bits_retain(bits: u64) -> (h: Hand)
        ensures
            h.bits() == bits,
    {
        Hand(bits)
    }

    /// Whether the hand contains an invalid card
    pub fn contains_unknown_bits(self) -> (b: bool)
        ensures
            b == !subset(self.bits(), ALL_BITS),
    {
        let x = self.0;
        let b = x & 0x3FFE_3FFE_3FFE_3FFE != x;
        proof {
            if !b {
                assert(subset(x, ALL_BITS)) by {
                    assert forall|p: int| #[trigger] bit(x, p) implies bit(ALL_BITS, p) by {
                        assert(bit(x & ALL_BITS, p));
                    }
                }
            } else if subset(x, ALL_BITS) {
                assert forall|p: int| 0 <= p < 64 implies #[trigger] bit(x & ALL_BITS, p)
                    == bit(x, p) by {}
                lemma_bits_ext(x & ALL_BITS, x);
            }
        }
        b
    }

    /// Create a hand from a bitset of cards, checking for invalid cards
    pub fn from_bits(bits: u64) -> (h: Option<Hand>)
        ensures
            subset(bits, ALL_BITS) ==> h == Some(Hand::from_bits_spec(bits)),
            !subset(bits, ALL_BITS) ==> h.is_none(),
    {
        if Hand(bits).contains_unknown_bits() {
            None
        } else {
            Some(Hand(bits))
        }
    }

    /// Create a hand from a bitset of cards, removing invalid cards
    pub fn from_bits_truncate(bits: u64) -> (h: Hand)
        ensures
            h.bits() == bits & ALL_BITS,
    {
        Hand(bits & 0x3FFE_3FFE_3FFE_3FFE)
    }

    /// Create a hand from four holdings in suit order (clubs, diamonds,
    /// hearts, spades)
    pub fn new(clubs: Holding, diamonds: Holding, hearts: Holding, spades: Holding) -> (h: Hand)
        ensures
            h.bits() == (clubs.bits16() as u64) | ((diamonds.bits16() as u64) << 16u64) | ((
            hearts.bits16() as u64) << 32u64) | ((spades.bits16() as u64) << 48u64),
            lane(h.bits(), 0) == clubs.bits16(),
            lane(h.bits(), 1) == diamonds.bits16(),
            lane(h.bits(), 2) == hearts.bits16(),
            lane(h.bits(), 3) == spades.bits16(),
    {
        let x = (clubs.0 as u64) | ((diamonds.0 as u64) << 16u64) | ((hearts.0 as u64) << 32u64)
            | ((spades.0 as u64) << 48u64);
        proof {
            let hs = seq![clubs.0, diamonds.0, hearts.0, spades.0];
            assert forall|s: int, r: int| 0 <= s < 4 && 0 <= r < 16 implies #[trigger] bit16(
                lane(x, s),
                r,
            ) == bit16(hs[s], r) by {
                lemma_lane_bit(x, s, r);
                lemma_shifted_lane_bit(clubs.0, 0, 16 * s + r);
                lemma_shifted_lane_bit(diamonds.0, 1, 16 * s + r);
                lemma_shifted_lane_bit(hearts.0, 2, 16 * s + r);
                lemma_shifted_lane_bit(spades.0, 3, 16 * s + r);
                let c = clubs.0 as u64;
                assert(c << 0u64 == c) by (bit_vector);
            }
            assert forall|s: int| 0 <= s < 4 implies #[trigger] lane(x, s) == hs[s] by {
                assert forall|r: int| 0 <= r < 16 implies #[trigger] bit16(lane(x, s), r)
                    == bit16(hs[s], r) by {}
                lemma_bits16_ext(lane(x, s), hs[s]);
            }
            assert(lane(x, 0) == clubs.0);
            assert(lane(x, 1) == diamonds.0);
            assert(lane(x, 2) == hearts.0);
            assert(lane(x, 3) == spades.0);
        }
        Hand(x)
    }

    /// The holding of one suit
    pub fn holding(self, suit: Suit) -> (h: Holding)
        ensures
            h.bits16() == lane(self.bits(), suit.idx()),
    {
        let k = 16 * (suit.index() as u64);
        Holding((self.0 >> k) as u16)
    }

    /// Replace the holding of one suit, keeping the other three
    pub fn set_holding(&mut self, suit: Suit, holding: Holding)
        ensures
            forall|s: int|
                0 <= s < 4 ==> #[trigger] lane(final(self).bits(), s) == if s == suit.idx() {
                    holding.bits16()
                } else {
                    lane(old(self).bits(), s)
                },
    {
        let pick = |s: Suit| -> (h: Holding)
            ensures
                h.bits16() == if s == suit {
                    holding.bits16()
                } else {
                    lane(self.bits(), s.idx())
                },
            {
                if s == suit {
                    holding
                } else {
                    self.holding(s)
                }
            };
        let clubs = pick(Suit::Clubs);
        let diamonds = pick(Suit::Diamonds);
        let hearts = pick(Suit::Hearts);
        let spades = pick(Suit::Spades);
        *self = Hand::new(clubs, diamonds, hearts, spades);
    }

    /// Create a hand containing a single card
    pub fn from_card(card: Card) -> (h: Hand)
        ensures
            h.bits() == 1u64 << card.pos() as u64,
    {
        Hand(1u64 << card.position())
    }

    /// The number of cards in the hand, counting invalid cards too
    pub fn len(self) -> (n: usize)
        ensures
            n == count(self.bits()),
    {
        let x = self.0;
        let mut i: u64 = 0;
        let mut n: usize = 0;
        while i < 64
            invariant
                i <= 64,
                n == count_below(x, i as int),
                n <= i,
            decreases 64 - i,
        {
            if (x >> i) & 1 == 1 {
                n += 1;
            }
            i += 1;
        }
        n
    }

    /// Whether the hand is empty
    pub fn is_empty(self) -> (b: bool)
        ensures
            b == (self.bits() == 0),
    {
        self.0 == 0
    }

    /// Whether the hand contains a card
    pub fn contains(self, card: Card) -> (b: bool)
        ensures
            b == self.has(card),
    {
        (self.0 >> card.position()) & 1 == 1
    }

    /// Insert a card into the hand, returning whether it was newly inserted
    pub fn insert(&mut self, card: Card) -> (inserted: bool)
        ensures
            final(self).bits() == old(self).bits() | (1u64 << card.pos() as u64),
            inserted == !old(self).has(card),
    {
        let p = card.position();
        let inserted = (self.0 >> p) & 1 != 1;
        self.0 = self.0 | (1u64 << p);
        inserted
    }

    /// Remove a card from the hand, returning whether it was present
    pub fn remove(&mut self, card: Card) -> (removed: bool)
        ensures
            final(self).bits() == old(self).bits() & !(1u64 << card.pos() as u64),
            removed == old(self).has(card),
    {
        let p = card.position();
        let removed = (self.0 >> p) & 1 == 1;
        self.0 = self.0 & !(1u64 << p);
        removed
    }

    /// Toggle a card in the hand, returning whether it is now present
    pub fn toggle(&mut self, card: Card) -> (present: bool)
        ensures
            final(self).bits() == old(self).bits() ^ (1u64 << card.pos() as u64),
            present == !old(self).has(card),
    {
        let p = card.position();
        let present = (self.0 >> p) & 1 != 1;
        self.0 = self.0 ^ (1u64 << p);
        proof {
            assert(bit(self.0, p as int) == !bit(old(self).0, p as int));
        }
        present
    }

    /// Conditionally insert/remove a card from the hand
    pub fn set(&mut self, card: Card, condition: bool)
        ensures
            condition ==> final(self).bits() == old(self).bits() | (1u64 << card.pos() as u64),
            !condition ==> final(self).bits() == old(self).bits() & !(1u64
                << card.pos() as u64),
    {
        if condition {
            self.insert(card);
        } else {
            self.remove(card);
        }
    }

    /// Iterate over the cards in the hand, in ascending suit order (clubs
    /// first) and ascending rank order within each suit
    ///
    /// Invalid cards are skipped.
    pub fn iter(self) -> (it: HandIter)
        ensures
            it.rest() == self.bits() & ALL_BITS,
            it.remaining() == positions(self.bits() & ALL_BITS),
    {
        let rest = self.0 & 0x3FFE_3FFE_3FFE_3FFE;
        proof {
            assert forall|p: int| 0 <= p < 64 implies #[trigger] bit(rest & ALL_BITS, p) == bit(
                rest,
                p,
            ) by {}
            lemma_bits_ext(rest & ALL_BITS, rest);
        }
        HandIter { rest }
    }

    /// The cards of the hand, in ascending suit order (clubs first) and
    /// ascending rank order within each suit
    pub fn cards(self) -> (v: Vec<Card>)
        ensures
            forall|i: int| #![trigger v@[i]] 0 <= i < v@.len() ==> v@[i].valid() && self.has(v@[i]),
            forall|i: int, j: int| 0 <= i < j < v@.len() ==> v@[i].pos() < v@[j].pos(),
            forall|c: Card| c.valid() && #[trigger] self.has(c) ==> v@.contains(c),
    {
        let x = self.0;
        let mut v: Vec<Card> = Vec::new();
        let mut p: u64 = 0;
        while p < 64
            invariant
                p <= 64,
                x == self.bits(),
                forall|i: int| #![trigger v@[i]] 0 <= i < v@.len() ==> v@[i].valid() && self.has(v@[i]),
                forall|i: int| 0 <= i < v@.len() ==> #[trigger] v@[i].pos() < p,
                forall|i: int, j: int| 0 <= i < j < v@.len() ==> v@[i].pos() < v@[j].pos(),
                forall|c: Card| c.valid() && #[trigger] self.has(c) && c.pos() < p ==> v@.contains(
                    c,
                ),
            decreases 64 - p,
        {
            let ghost prev = v@;
            if p % 16 != 0 && p % 16 <= 13 && (x >> p) & 1 == 1 {
                let c = Card::from_position(p);
                v.push(c);
                assert(v@[v@.len() - 1] == c);
            }
            assert forall|c: Card| c.valid() && #[trigger] self.has(c) && c.pos() < p + 1
                implies v@.contains(c) by {
                if c.pos() < p {
                    assert(prev.contains(c));
                    let i = choose|i: int| 0 <= i < prev.len() && prev[i] == c;
                    assert(v@[i] == c);
                } else {
                    let d = v@[v@.len() - 1];
                    lemma_pos_injective(c, d);
                    assert(v@[v@.len() - 1] == c);
                }
            }
            p += 1;
        }
        v
    }

    /// Collect cards into a hand
    pub fn from_cards(cards: &[Card]) -> (h: Hand)
        ensures
            forall|p: int| #[trigger] bit(h.bits(), p) <==> exists|i: int|
                0 <= i < cards@.len() && cards@[i].pos() == p,
    {
        let mut h: Hand = Hand(0);
        let mut i: usize = 0;
        while i < cards.len()
            invariant
                i <= cards@.len(),
                forall|p: int| #[trigger] bit(h.bits(), p) <==> exists|j: int|
                    0 <= j < i && cards@[j].pos() == p,
            decreases cards@.len() - i,
        {
            let c = cards[i];
            let ghost old_h = h;
            h.insert(c);
            proof {
                let q = c.pos();
                assert forall|p: int| #[trigger] bit(h.bits(), p) <==> exists|j: int|
                    0 <= j < i + 1 && cards@[j].pos() == p by {
                    if bit(h.bits(), p) {
                        if p != q {
                            assert(bit(old_h.bits(), p));
                        }
                    }
                    if exists|j: int| 0 <= j < i + 1 && cards@[j].pos() == p {
                        let j = choose|j: int| 0 <= j < i + 1 && cards@[j].pos() == p;
                        if j < i {
                            assert(bit(old_h.bits(), p));
                        }
                    }
                }
            }
            i += 1;
        }
        h
    }
}

impl Default for Hand {
    fn default() -> (h: Hand)
        ensures
            h.bits() == 0,
    {
        Hand(0)
    }
}

impl From<Card> for Hand {
    fn from(card: Card) -> Hand {
        Hand::from_card(card)
    }
}

impl vstd::std_specs::convert::FromSpecImpl<Card> for Hand {
    open spec fn obeys_from_spec() -> bool {
        true
    }

    open spec fn from_spec(card: Card) -> Hand {
        Hand::from_bits_spec(1u64 << card.pos() as u64)
    }
}

impl core::ops::BitAnd for Hand {
    type Output = Hand;

    fn bitand(self, rhs: Hand) -> Hand {
        Hand(self.0 & rhs.0)
    }
}

impl vstd::std_specs::ops::BitAndSpecImpl for Hand {
    open spec fn obeys_bitand_spec() -> bool {
        true
    }

    open spec fn bitand_req(self, rhs: Hand) -> bool {
        true
    }

    open spec fn bitand_spec(self, rhs: Hand) -> Hand {
        Hand::from_bits_spec(self.bits() & rhs.bits())
    }
}

impl core::ops::BitOr for Hand {
    type Output = Hand;

    fn bitor(self, rhs: Hand) -> Hand {
        Hand(self.0 | rhs.0)
    }
}

impl vstd::std_specs::ops::BitOrSpecImpl for Hand {
    open spec fn obeys_bitor_spec() -> bool {
        true
    }

    open spec fn bitor_req(self, rhs: Hand) -> bool {
        true
    }

    open spec fn bitor_spec(self, rhs: Hand) -> Hand {
        Hand::from_bits_spec(self.bits() | rhs.bits())
    }
}

impl core::ops::BitXor for Hand {
    type Output = Hand;

    fn bitxor(self, rhs: Hand) -> Hand {
        Hand(self.0 ^ rhs.0)
    }
}

impl vstd::std_specs::ops::BitXorSpecImpl for Hand {
    open spec fn obeys_bitxor_spec() -> bool {
        true
    }

    open spec fn bitxor_req(self, rhs: Hand) -> bool {
        true
    }

    open spec fn bitxor_spec(self, rhs: Hand) -> Hand {
        Hand::from_bits_spec(self.bits() ^ rhs.bits())
    }
}

impl core::ops::Not for Hand {
    type Output = Hand;

    fn not(self) -> Hand {
        Hand(!self.0 & 0x3FFE_3FFE_3FFE_3FFE)
    }
}

impl vstd::std_specs::ops::NotSpecImpl for Hand {
    open spec fn obeys_not_spec() -> bool {
        true
    }

    open spec fn not_req(self) -> bool {
        true
    }

    open spec fn not_spec(self) -> Hand {
        Hand::from_bits_spec(!self.bits() & ALL_BITS)
    }
}

impl core::ops::Sub for Hand {
    type Output = Hand;

    fn sub(self, rhs: Hand) -> Hand {
        Hand(self.0 & !rhs.0)
    }
}

impl vstd::std_specs::ops::SubSpecImpl for Hand {
    open spec fn obeys_sub_spec() -> bool {
        true
    }

    open spec fn sub_req(self, rhs: Hand) -> bool {
        true
    }

    open spec fn sub_spec(self, rhs: Hand) -> Hand {
        Hand::from_bits_spec(self.bits() & !rhs.bits())
    }
}

impl core::ops::BitAndAssign for Hand {
    fn bitand_assign(&mut self, rhs: Hand)
        ensures
            final(self).bits() == old(self).bits() & rhs.bits(),
    {
        self.0 = self.0 & rhs.0;
    }
}

impl core::ops::BitOrAssign for Hand {
    fn bitor_assign(&mut self, rhs: Hand)
        ensures
            final(self).bits() == old(self).bits() | rhs.bits(),
    {
        self.0 = self.0 | rhs.0;
    }
}

impl core::ops::BitXorAssign for Hand {
    fn bitxor_assign(&mut self, rhs: Hand)
        ensures
            final(self).bits() == old(self).bits() ^ rhs.bits(),
    {
        self.0 = self.0 ^ rhs.0;
    }
}

impl core::ops::SubAssign for Hand {
    fn sub_assign(&mut self, rhs: Hand)
        ensures
            final(self).bits() == old(self).bits() & !rhs.bits(),
    {
        self.0 = self.0 & !rhs.0;
    }
}

/// The hand with given bits has those bits.
pub broadcast proof fn lemma_hand_bits(bits: u64)
    ensures
        #[trigger] Hand::from_bits_spec(bits).bits() == bits,
{
}

/// Hands with the same bits are the same hand.
pub proof fn lemma_hand_eq(a: Hand, b: Hand)
    requires
        a.bits() == b.bits(),
    ensures
        a == b,
{
}

/// Iteration order: what a fresh iterator over a holding yields, by `next`
/// from the front (and reversed by `next_back` from the back), is each rank
/// of the holding exactly once, in strictly ascending order.
pub proof fn lemma_holding_iteration_order(h: Holding)
    ensures
        ({
            let s = positions16(h.bits16() & LANE_BITS);
            &&& s.len() == count16_below(h.bits16() & LANE_BITS, 16)
            &&& forall|i: int, j: int| 0 <= i < j < s.len() ==> s[i] < s[j]
            &&& forall|i: int|
                0 <= i < s.len() ==> valid_rank(#[trigger] s[i]) && bit16(h.bits16(), s[i])
            &&& forall|r: int| valid_rank(r) && #[trigger] bit16(h.bits16(), r) ==> s.contains(r)
        }),
{
    let x = h.bits16() & LANE_BITS;
    lemma_positions16(x);
    let s = positions16(x);
    assert forall|i: int| 0 <= i < s.len() implies valid_rank(#[trigger] s[i]) && bit16(
        h.bits16(),
        s[i],
    ) by {
        assert(bit16(x, s[i]));
        assert(bit16(LANE_BITS, s[i]));
    }
    assert forall|r: int| valid_rank(r) && #[trigger] bit16(h.bits16(), r) implies s.contains(r) by {
        assert(bit16(LANE_BITS, r));
        assert(bit16(x, r));
    }
}

/// Iteration order: what a fresh iterator over a hand yields, by `next`
/// from the front, is each card of the hand exactly once, in strictly
/// ascending suit-then-rank order.  So the number of cards yielded is the
/// hand's count, collecting them gives back the hand's deck cards, and
/// `next_back` yields the same cards in reverse, since each call takes the
/// last of [`HandIter::remaining`].
pub proof fn lemma_hand_iteration_order(h: Hand)
    ensures
        ({
            let s = positions(h.bits() & ALL_BITS);
            &&& s.len() == count(h.bits() & ALL_BITS)
            &&& s.no_duplicates()
            &&& forall|p: int| #[trigger] bit(h.bits() & ALL_BITS, p) <==> s.contains(p)
            &&& forall|i: int, j: int| 0 <= i < j < s.len() ==> s[i] < s[j]
            &&& forall|i: int|
                0 <= i < s.len() ==> valid_pos(#[trigger] s[i]) && bit(h.bits(), s[i])
            &&& forall|c: Card| c.valid() && #[trigger] h.has(c) ==> s.contains(c.pos())
        }),
        subset(h.bits(), ALL_BITS) ==> positions(h.bits() & ALL_BITS).len() == count(h.bits()),
{
    let x = h.bits() & ALL_BITS;
    lemma_positions(x);
    let s = positions(x);
    assert forall|i: int| 0 <= i < s.len() implies valid_pos(#[trigger] s[i]) && bit(h.bits(), s[i]) by {
        assert(bit(x, s[i]));
        assert(bit(ALL_BITS, s[i]));
    }
    assert forall|c: Card| c.valid() && #[trigger] h.has(c) implies s.contains(c.pos()) by {
        lemma_card(c);
        assert(bit(x, c.pos()));
    }
    if subset(h.bits(), ALL_BITS) {
        assert forall|p: int| 0 <= p < 64 implies #[trigger] bit(x, p) == bit(h.bits(), p) by {}
        lemma_bits_ext(x, h.bits());
    }
}

/// Set algebra of hands, as the operators compute it: for a hand of deck
/// cards, `a - b` is `a & !b`; the union and the intersection together
/// count as many cards as the two hands; and `a ^ b` is the union without
/// the common cards.
pub proof fn lemma_hand_set_algebra(a: Hand, b: Hand)
    ensures
        subset(a.bits(), ALL_BITS) ==> SubSpec::sub_spec(a, b) == BitAndSpec::bitand_spec(
            a,
            NotSpec::not_spec(b),
        ),
        count(BitOrSpec::bitor_spec(a, b).bits()) + count(BitAndSpec::bitand_spec(a, b).bits())
            == count(a.bits()) + count(b.bits()),
        BitXorSpec::bitxor_spec(a, b) == SubSpec::sub_spec(
            BitOrSpec::bitor_spec(a, b),
            BitAndSpec::bitand_spec(a, b),
        ),
{
    let (x, y) = (a.bits(), b.bits());
    if subset(x, ALL_BITS) {
        assert forall|p: int| 0 <= p < 64 implies #[trigger] bit(x & !y, p) == bit(
            x & (!y & ALL_BITS),
            p,
        ) by {}
        lemma_bits_ext(x & !y, x & (!y & ALL_BITS));
    }
    crate::bits::lemma_count_union_inter(x, y);
    crate::bits::lemma_xor_is_union_minus_common(x, y);
}

/// Iterator over the cards in a [`Hand`], yielding [`Card`]s in ascending
/// suit order (clubs first) and ascending rank order within each suit from
/// the front, and the reverse from the back
#[derive(Debug, PartialEq, Eq, Structural)]
pub struct HandIter {
    rest: u64,
}

impl HandIter {
    /// The remaining cards are valid cards only.
    #[verifier::type_invariant]
    closed spec fn inv(self) -> bool {
        self.rest & ALL_BITS == self.rest
    }

    /// The bitset of cards not yet yielded
    pub closed spec fn rest(self) -> u64 {
        self.rest
    }

    /// The positions of the cards not yet yielded, in the order `next`
    /// yields them: ascending suit, then ascending rank
    pub open spec fn remaining(self) -> Seq<int> {
        positions(self.rest())
    }

    /// Yield the lowest remaining card
    pub fn next(&mut self) -> (r: Option<Card>)
        ensures
            old(self).rest() == 0 ==> r.is_none() && final(self).rest() == 0,
            old(self).rest() != 0 ==> (r matches Some(c) && c.valid() && bit(old(self).rest(), c.pos())
                && (forall|q: int| 0 <= q < c.pos() ==> !bit(old(self).rest(), q))
                && final(self).rest() == old(self).rest() & !(1u64 << c.pos() as u64)),
            r is None ==> old(self).remaining().len() == 0,
            r matches Some(c) ==> old(self).remaining() == seq![c.pos()] + final(self).remaining(),
    {
        proof {
            use_type_invariant(&*self);
        }
        if self.rest == 0 {
            proof {
                lemma_positions(0u64);
                crate::bits::lemma_count_zero();
            }
            return None;
        }
        let x = self.rest;
        let mut p: u64 = 0;
        while p < 64 && (x >> p) & 1 != 1
            invariant
                x != 0,
                p <= 64,
                forall|q: int| 0 <= q < p ==> !bit(x, q),
            decreases 64 - p,
        {
            p += 1;
        }
        if p >= 64 {
            proof {
                lemma_bits_ext(x, 0u64);
            }
            return None;
        }
        proof {
            assert(bit(ALL_BITS, p as int)) by {
                assert(bit(x & ALL_BITS, p as int));
            }
        }
        let rest = x & !(1u64 << p);
        proof {
            assert forall|q: int| 0 <= q < 64 implies #[trigger] bit(rest & ALL_BITS, q) == bit(
                rest,
                q,
            ) by {
                assert(bit(x & ALL_BITS, q) == bit(x, q));
            }
            lemma_bits_ext(rest & ALL_BITS, rest);
        }
        proof {
            lemma_positions_drop_lowest(x, p as int);
        }
        self.rest = rest;
        Some(Card::from_position(p))
    }

    /// Yield the highest remaining card
    pub fn next_back(&mut self) -> (r: Option<Card>)
        ensures
            old(self).rest() == 0 ==> r.is_none() && final(self).rest() == 0,
            old(self).rest() != 0 ==> (r matches Some(c) && c.valid() && bit(old(self).rest(), c.pos())
                && (forall|q: int| c.pos() < q < 64 ==> !bit(old(self).rest(), q))
                && final(self).rest() == old(self).rest() & !(1u64 << c.pos() as u64)),
            r is None ==> old(self).remaining().len() == 0,
            r matches Some(c) ==> old(self).remaining() == final(self).remaining().push(c.pos()),
    {
        proof {
            use_type_invariant(&*self);
        }
        if self.rest == 0 {
            proof {
                lemma_positions(0u64);
                crate::bits::lemma_count_zero();
            }
            return None;
        }
        let x = self.rest;
        let mut p: u64 = 64;
        while p > 0 && (x >> (p - 1)) & 1 != 1
            invariant
                x != 0,
                p <= 64,
                forall|q: int| p <= q < 64 ==> !bit(x, q),
            decreases p,
        {
            p -= 1;
        }
        if p == 0 {
            proof {
                lemma_bits_ext(x, 0u64);
            }
            return None;
        }
        let p = p - 1;
        proof {
            assert(bit(ALL_BITS, p as int)) by {
                assert(bit(x & ALL_BITS, p as int));
            }
        }
        let rest = x & !(1u64 << p);
        proof {
            assert forall|q: int| 0 <= q < 64 implies #[trigger] bit(rest & ALL_BITS, q) == bit(
                rest,
                q,
            ) by {
                assert(bit(x & ALL_BITS, q) == bit(x, q));
            }
            lemma_bits_ext(rest & ALL_BITS, rest);
        }
        proof {
            lemma_positions_drop_highest(x, p as int);
        }
        self.rest = rest;
        Some(Card::from_position(p))
    }

    /// The number of cards not yet yielded
    pub fn len(&self) -> (n: usize)
        ensures
            n == count(self.rest()),
            n == self.remaining().len(),
    {
        proof {
            lemma_positions(self.rest);
        }
        Hand(self.rest).len()
    }
}

impl Clone for HandIter {
    fn clone(&self) -> (it: HandIter)
        ensures
            it.rest() == self.rest(),
    {
        proof {
            use_type_invariant(self);
        }
        HandIter { rest: self.rest }
    }
}

} // verus!
