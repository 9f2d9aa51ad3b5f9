//! Random card shuffling and dealing.
//!
//! [`Deck`] is a 52-card-bounded set backed by [`Hand`]; cards can be
//! inserted and drawn (uniformly at random) without materializing the full
//! card set.  [`Round::deal`](crate::round::Round::deal) and
//! [`Game::deal`](crate::game::Game::deal) build on it to start rounds from
//! a shuffled deck.

use crate::bits::{bit, count, count_below, group_bit_ops, subset, ALL_BITS};
use crate::hand::{Card, Hand};
use crate::meld::lowest_bit;
use rand::RngExt;
use vstd::prelude::*;
use vstd::string::StringSliceAdditionalSpecFns;

verus! {

broadcast use group_bit_ops, crate::hand::lemma_hand_bits;

/// The seedable generator of the `rand` crate, which draws every card
#[verifier::external_type_specification]
#[verifier::external_body]
pub struct ExStdRng(rand::rngs::StdRng);

/// An index below `bound`, from `rand`'s `RngExt::random_range` over
/// `..bound`, which panics on an empty range and otherwise returns a value
/// inside it; which value is up to the generator.
#[verifier::external_body]
fn random_below(rng: &mut rand::rngs::StdRng, bound: usize) -> (k: usize)
    requires
        bound > 0,
    ensures
        k < bound,
{
    rng.random_range(..bound)
}

/// With no set bit of `x` in `t..n`, the counts below `t` and below `n`
/// agree.
proof fn lemma_count_below_gap(x: u64, t: int, n: int)
    requires
        0 <= t <= n,
        forall|p: int| t <= p < n ==> !#[trigger] bit(x, p),
    ensures
        count_below(x, n) == count_below(x, t),
    decreases n - t,
{
    if n > t {
        lemma_count_below_gap(x, t, n - 1);
    }
}

/// The position of the `k`-th smallest set bit of `x`, counting from 0: a
/// set bit with exactly `k` set bits below it.
fn kth_lowest(x: u64, k: usize) -> (q: u64)
    requires
        k < count(x),
    ensures
        q < 64,
        bit(x, q as int),
        count_below(x, q as int) == k,
{
    let mut bits = x;
    let mut j: usize = 0;
    let ghost mut t: int = 0;
    while j < k
        invariant
            j <= k < count(x),
            0 <= t <= 64,
            count_below(x, t) == j,
            forall|p: int| #[trigger] bit(bits, p) <==> bit(x, p) && p >= t,
        decreases k - j,
    {
        if bits == 0 {
            proof {
                assert forall|p: int| t <= p < 64 implies !#[trigger] bit(x, p) by {
                    assert(!bit(bits, p));
                }
                lemma_count_below_gap(x, t, 64);
            }
        }
        let p = lowest_bit(bits);
        proof {
            assert forall|r: int| t <= r < p implies !#[trigger] bit(x, r) by {
                assert(!bit(bits, r));
            }
            lemma_count_below_gap(x, t, p as int);
            t = p + 1;
        }
        bits = bits & !(1u64 << p);
        j += 1;
    }
    if bits == 0 {
        proof {
            assert forall|p: int| t <= p < 64 implies !#[trigger] bit(x, p) by {
                assert(!bit(bits, p));
            }
            lemma_count_below_gap(x, t, 64);
        }
    }
    let q = lowest_bit(bits);
    proof {
        assert forall|r: int| t <= r < q implies !#[trigger] bit(x, r) by {
            assert(!bit(bits, r));
        }
        lemma_count_below_gap(x, t, q as int);
    }
    q
}

/// A subset of the standard 52-card deck
///
/// This is a set of unique cards backed by [`Hand`].  Duplicates are
/// structurally impossible.  It requires shuffling to partially retrieve
/// cards from the deck.  However, it is deterministic to collect all cards.
#[derive(Debug, Clone, Copy, PartialEq, Eq, Structural)]
pub struct Deck(Hand);

impl Deck {
    /// The card bits of the deck
    pub closed spec fn bits(self) -> u64 {
        self.0.bits()
    }

    /// The standard 52-card deck
    #[allow(non_snake_case)]
    pub fn ALL() -> (d: Deck)
        ensures
            d.bits() == ALL_BITS,
    {
        Deck(Hand::ALL())
    }

    /// An empty deck
    #[allow(non_snake_case)]
    pub fn EMPTY() -> (d: Deck)
        ensures
            d.bits() == 0,
    {
        Deck(Hand::EMPTY())
    }

    /// The number of cards currently in the deck
    pub fn len(&self) -> (n: usize)
        ensures
            n == count(self.bits()),
    {
        self.0.len()
    }

    /// Whether the deck is empty
    pub fn is_empty(&self) -> (b: bool)
        ensures
            b == (self.bits() == 0),
    {
        self.0.is_empty()
    }

    /// Clear the deck, removing all the cards.
    pub fn clear(&mut self)
        ensures
            final(self).bits() == 0,
    {
        self.0 = Hand::EMPTY();
    }

    /// Insert a card into the deck
    ///
    /// Returns `true` if the card was newly inserted, `false` if it was
    /// already present.
    pub fn insert(&mut self, card: Card) -> (inserted: bool)
        ensures
            final(self).bits() == old(self).bits() | (1u64 << card.pos() as u64),
            inserted == !bit(old(self).bits(), card.pos()),
    {
        self.0.insert(card)
    }

    /// Take the remaining cards in the deck into a hand.
    pub fn take(&mut self) -> (h: Hand)
        ensures
            h.bits() == old(self).bits(),
            final(self).bits() == 0,
    {
        let h = self.0;
        self.0 = Hand::EMPTY();
        h
    }

    /// Randomly draw `n` cards from the deck and collect them into a hand.
    ///
    /// If `n >= self.len()`, all remaining cards are drawn without
    /// shuffling.  Otherwise each of the `n` draws picks a uniform `k` below
    /// the number of cards left and moves the `k`-th smallest card from the
    /// deck to the hand.  Whatever the generator picks, the hand is `n`
    /// cards of the deck, and the deck keeps the others.
    pub fn draw(&mut self, rng: &mut rand::rngs::StdRng, n: usize) -> (h: Hand)
        ensures
            n >= count(old(self).bits()) ==> h.bits() == old(self).bits() && final(self).bits()
                == 0,
            n < count(old(self).bits()) ==> count(h.bits()) == n,
            subset(h.bits(), old(self).bits()),
            final(self).bits() == old(self).bits() & !h.bits(),
            count(final(self).bits()) + count(h.bits()) == count(old(self).bits()),
    {
        let len = self.0.len();
        if n >= len {
            let h = self.take();
            proof {
                assert forall|p: int| 0 <= p < 64 implies #[trigger] bit(
                    old(self).bits() & !h.bits(),
                    p,
                ) == bit(0u64, p) by {}
                crate::bits::lemma_bits_ext(old(self).bits() & !h.bits(), 0u64);
                crate::bits::lemma_count_zero();
            }
            return h;
        }
        let ghost start = self.0.bits();
        let mut hand = Hand::EMPTY();
        let mut i: usize = 0;
        proof {
            crate::bits::lemma_count_zero();
            assert forall|p: int| 0 <= p < 64 implies #[trigger] bit(start & !hand.bits(), p)
                == bit(start, p) by {}
            crate::bits::lemma_bits_ext(start & !hand.bits(), start);
        }
        while i < n
            invariant
                i <= n,
                n < len,
                len == count(start),
                start == old(self).bits(),
                count(hand.bits()) == i,
                count(self.0.bits()) == len - i,
                subset(hand.bits(), start),
                self.0.bits() == start & !hand.bits(),
            decreases n - i,
        {
            let k = random_below(rng, len - i);
            let ghost rest = self.0.bits();
            let ghost taken = hand.bits();
            let q = kth_lowest(self.0.to_bits(), k);
            let selected = Hand::from_bits_retain(1u64 << q);
            proof {
                assert(bit(rest, q as int));
                crate::bits::lemma_count_insert(taken, q as int);
                crate::bits::lemma_count_remove(rest, q as int);
            }
            hand = hand | selected;
            self.0 = self.0 ^ selected;
            proof {
                assert forall|p: int| 0 <= p < 64 implies #[trigger] bit(self.0.bits(), p) == bit(
                    start & !hand.bits(),
                    p,
                ) by {
                    assert(bit(rest, p) == bit(start & !taken, p));
                }
                crate::bits::lemma_bits_ext(self.0.bits(), start & !hand.bits());
                assert forall|p: int| 0 <= p < 64 implies #[trigger] bit(rest & !(1u64 << q), p)
                    == bit(self.0.bits(), p) by {}
                crate::bits::lemma_bits_ext(rest & !(1u64 << q), self.0.bits());
                assert forall|p: int| 0 <= p < 64 implies #[trigger] bit(taken | (1u64 << q), p)
                    == bit(hand.bits(), p) by {}
                crate::bits::lemma_bits_ext(taken | (1u64 << q), hand.bits());
            }
            i += 1;
        }
        hand
    }

    /// Randomly pop a card from the deck
    ///
    /// Draws one card and yields it; `None` when the deck holds no card.
    /// Whatever the generator picks, a popped card was in the deck and
    /// leaves it.
    pub fn pop(&mut self, rng: &mut rand::rngs::StdRng) -> (c: Option<Card>)
        ensures
            subset(final(self).bits(), old(self).bits()),
            old(self).bits() == 0 ==> c is None && final(self).bits() == 0,
            subset(old(self).bits(), ALL_BITS) && old(self).bits() != 0 ==> c is Some,
            c matches Some(card) ==> bit(old(self).bits(), card.pos()) && final(self).bits()
                == old(self).bits() & !(1u64 << card.pos() as u64) && count(final(self).bits()) + 1
                == count(old(self).bits()),
    {
        let ghost start = self.0.bits();
        let drawn = self.draw(rng, 1);
        let mut it = drawn.iter();
        let c = it.next();
        proof {
            crate::bits::lemma_count_zero();
            if start != 0 {
                crate::bits::lemma_count_strict(0u64, start);
                assert(count(drawn.bits()) == 1);
            }
            if start == 0 {
                crate::bits::lemma_count_zero();
                assert forall|q: int| 0 <= q < 64 implies #[trigger] bit(drawn.bits() & ALL_BITS, q)
                    == bit(0u64, q) by {}
                crate::bits::lemma_bits_ext(drawn.bits() & ALL_BITS, 0u64);
            }
            if subset(start, ALL_BITS) && start != 0 {
                assert(count(drawn.bits()) == 1);
                if drawn.bits() == 0 {
                    crate::bits::lemma_count_zero();
                }
                let p = crate::bits::lemma_some_bit(drawn.bits());
                assert(bit(drawn.bits() & ALL_BITS, p));
            }
            if let Some(card) = c {
                let q = card.pos();
                crate::hand::lemma_card(card);
                let one = 1u64 << (q as u64);
                assert(subset(one, drawn.bits()));
                if drawn.bits() != one {
                    crate::bits::lemma_count_single(q);
                    crate::bits::lemma_count_strict(one, drawn.bits());
                }
                crate::bits::lemma_count_remove(start, q);
            }
        }
        c
    }
}

impl Deck {
    /// The display text of the deck, that of its cards as a hand
    pub fn to_string(&self) -> (s: String)
        ensures
            s@ == crate::notation::hand_text(self.bits()),
    {
        self.0.to_string()
    }

    /// Parse a deck written as a hand
    pub fn parse(s: &str) -> (r: Result<Deck, crate::notation::ParseHandError>)
        ensures
            match crate::notation::hand_of_bytes(s.spec_bytes()) {
                Ok(x) => r matches Ok(d) && d.bits() == x,
                Err(e) => r == Err::<Deck, crate::notation::ParseHandError>(e),
            },
    {
        match Hand::parse(s) {
            Ok(h) => Ok(Deck(h)),
            Err(e) => Err(e),
        }
    }
}

impl core::str::FromStr for Deck {
    type Err = crate::notation::ParseHandError;

    fn from_str(s: &str) -> (r: Result<Deck, crate::notation::ParseHandError>)
        ensures
            match crate::notation::hand_of_bytes(s.spec_bytes()) {
                Ok(x) => r matches Ok(d) && d.bits() == x,
                Err(e) => r == Err::<Deck, crate::notation::ParseHandError>(e),
            },
    {
        Deck::parse(s)
    }
}

impl Default for Deck {
    /// An empty deck
    fn default() -> (d: Deck)
        ensures
            d.bits() == 0,
    {
        Deck::EMPTY()
    }
}

impl From<Hand> for Deck {
    fn from(hand: Hand) -> (d: Deck) {
        Deck(hand)
    }
}

impl vstd::std_specs::convert::FromSpecImpl<Hand> for Deck {
    open spec fn obeys_from_spec() -> bool {
        true
    }

    open spec fn from_spec(hand: Hand) -> Deck {
        Deck::from_hand_spec(hand)
    }
}

impl From<Deck> for Hand {
    fn from(deck: Deck) -> (h: Hand) {
        proof {
            crate::hand::lemma_hand_eq(Hand::from_bits_spec(deck.0.bits()), deck.0);
        }
        deck.0
    }
}

impl vstd::std_specs::convert::FromSpecImpl<Deck> for Hand {
    open spec fn obeys_from_spec() -> bool {
        true
    }

    open spec fn from_spec(deck: Deck) -> Hand {
        Hand::from_bits_spec(deck.bits())
    }
}

impl Deck {
    /// The deck of the cards of a hand
    pub closed spec fn from_hand_spec(hand: Hand) -> Deck {
        Deck(hand)
    }
}

} // verus!
