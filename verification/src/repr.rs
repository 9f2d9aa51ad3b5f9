//! The serialized form of a [`Round`](crate::round::Round): a plain
//! snapshot of its position, re-validated when it is read back.
//!
//! A snapshot is accepted exactly when [`Snapshot::error`] is `None`; a
//! corrupt snapshot is rejected with the first problem found, never trusted.

use crate::bits::{bit, count, disjoint, group_bit_ops, pips, subset, ALL_BITS};
use crate::hand::{Card, Hand};
use crate::meld::{meld_bits, min_deadwood, union_of, Meld};
use crate::player::Player;
use crate::round::{Phase, RoundResult};
use crate::rules::Rules;
use vstd::prelude::*;

verus! {

broadcast use group_bit_ops;

/// Why a snapshot does not describe a legal position
#[derive(Debug, Clone, Copy, PartialEq, Eq, Structural)]
pub enum InvalidRound {
    /// The hands, stock, discard pile, and layoffs must hold each of the 52
    /// cards exactly once
    NotAPartition,
    /// Card counts are inconsistent with the phase
    WrongCounts,
    /// The pass counter is out of range or contradicts the acting player
    BadUpcardState,
    /// The initial upcard contradicts the discard pile
    BadInitialUpcard,
    /// A flag or component contradicts the phase
    PhaseMismatch,
    /// The spread is not disjoint melds over the knocker's cards and the
    /// layoffs
    BadSpread,
    /// The knocker's deadwood violates the knock limit
    BadDeadwood,
    /// The result does not match the recomputed score
    BadResult,
}

/// The serialized knock: who knocked, the spread, and the layoffs
#[derive(Debug, Clone, PartialEq, Eq)]
pub struct KnockRepr {
    /// The knocker
    pub knocker: Player,
    /// The melds spread, extended by layoffs
    pub spread: Vec<Meld>,
    /// The cards the defender laid off
    pub laid_off: Hand,
}

/// The serialized form of a round, field by field
#[derive(Debug, Clone, PartialEq, Eq)]
pub struct RoundRepr {
    /// The scoring rules
    pub rules: Rules,
    /// The dealer
    pub dealer: Player,
    /// The hands of the two players, in player order
    pub hands: [Hand; 2],
    /// The face-down stock; the top card is the last element
    pub stock: Vec<Card>,
    /// The discard pile; the top card is the last element
    pub discards: Vec<Card>,
    /// The opening upcard
    pub initial_upcard: Card,
    /// The phase
    pub phase: Phase,
    /// The player to act
    pub turn: Player,
    /// The upcard offers declined
    pub passes: u8,
    /// Whether the next draw must come from the stock
    pub forced_stock: bool,
    /// The card taken from the discard pile this turn
    pub taken_discard: Option<Card>,
    /// The knock, if any
    pub knock: Option<KnockRepr>,
    /// The outcome, once the round is over
    pub result: Option<RoundResult>,
}

/// A knock as plain values
pub struct KnockSnapshot {
    /// The knocker
    pub knocker: Player,
    /// The melds spread, extended by layoffs
    pub spread: Seq<Meld>,
    /// The bits of the cards laid off
    pub laid_off: u64,
}

/// A position as plain values: what a snapshot says and a round holds
pub struct Snapshot {
    /// The scoring rules
    pub rules: Rules,
    /// The dealer
    pub dealer: Player,
    /// The bits of the first player's hand
    pub hand_one: u64,
    /// The bits of the second player's hand
    pub hand_two: u64,
    /// The stock; the top card is the last element
    pub stock: Seq<Card>,
    /// The discard pile; the top card is the last element
    pub discards: Seq<Card>,
    /// The opening upcard
    pub upcard: Card,
    /// The phase
    pub phase: Phase,
    /// The player to act
    pub turn: Player,
    /// The upcard offers declined
    pub passes: u8,
    /// Whether the next draw must come from the stock
    pub forced: bool,
    /// The card taken from the discard pile this turn
    pub taken: Option<Card>,
    /// The knock, if any
    pub knock: Option<KnockSnapshot>,
    /// The outcome
    pub result: Option<RoundResult>,
}

impl View for KnockRepr {
    type V = KnockSnapshot;

    open spec fn view(&self) -> KnockSnapshot {
        KnockSnapshot { knocker: self.knocker, spread: self.spread@, laid_off: self.laid_off.bits() }
    }
}

impl View for RoundRepr {
    type V = Snapshot;

    open spec fn view(&self) -> Snapshot {
        Snapshot {
            rules: self.rules,
            dealer: self.dealer,
            hand_one: self.hands@[0].bits(),
            hand_two: self.hands@[1].bits(),
            stock: self.stock@,
            discards: self.discards@,
            upcard: self.initial_upcard,
            phase: self.phase,
            turn: self.turn,
            passes: self.passes,
            forced: self.forced_stock,
            taken: self.taken_discard,
            knock: match self.knock {
                Some(k) => Some(k@),
                None => None,
            },
            result: self.result,
        }
    }
}

/// Whether bit `c` of a card set is set, as 0 or 1.
pub open spec fn holds_card(x: u64, c: Card) -> int {
    if bit(x, c.pos()) {
        1
    } else {
        0
    }
}

/// In how many places card `c` lies: hands `a` and `b`, the cards `cs`, and
/// the layoffs `l`.
pub open spec fn slot_count(a: u64, b: u64, cs: Seq<Card>, l: u64, c: Card) -> int {
    holds_card(a, c) + holds_card(b, c) + (if cs.contains(c) {
        1int
    } else {
        0int
    }) + holds_card(l, c)
}

/// Whether the hands `a` and `b`, the cards `cs`, and the layoffs `l` hold
/// each of the 52 cards exactly once, and nothing else.
pub open spec fn partitions(a: u64, b: u64, cs: Seq<Card>, l: u64) -> bool {
    &&& subset(a, ALL_BITS)
    &&& subset(b, ALL_BITS)
    &&& subset(l, ALL_BITS)
    &&& cs.no_duplicates()
    &&& forall|c: Card| #[trigger] slot_count(a, b, cs, l, c) == 1
}

/// The union of the cards of a spread.
pub open spec fn spread_union(spread: Seq<Meld>) -> u64 {
    union_of(meld_bits(spread))
}

/// Whether a spread is at most three disjoint melds, covering the layoffs,
/// whose other cards belong to the knocker's hand `own`.
pub open spec fn spread_ok(k: KnockSnapshot, own: u64) -> bool {
    &&& k.spread.len() <= 3
    &&& forall|i: int, j: int|
        0 <= i < j < k.spread.len() ==> disjoint(
            #[trigger] k.spread[i].bits(),
            #[trigger] k.spread[j].bits(),
        )
    &&& subset(k.laid_off, spread_union(k.spread))
    &&& subset(spread_union(k.spread) & !k.laid_off, own)
}

/// The deadwood the knocker kept: the pips of the cards of `own` outside
/// the spread, as a byte.
pub open spec fn knock_deadwood(k: KnockSnapshot, own: u64) -> u8 {
    pips(own & !spread_union(k.spread)) as u8
}

/// The least deadwood of a card set, as a byte.
pub open spec fn least_deadwood(x: u64) -> u8 {
    min_deadwood(x) as u8
}

impl Snapshot {
    /// The bits of a player's hand
    pub open spec fn hand(self, p: Player) -> u64 {
        match p {
            Player::One => self.hand_one,
            Player::Two => self.hand_two,
        }
    }

    /// The number of cards in a player's hand
    pub open spec fn len(self, p: Player) -> int {
        count(self.hand(p)) as int
    }

    /// The bits of the cards laid off
    pub open spec fn laid(self) -> u64 {
        match self.knock {
            Some(k) => k.laid_off,
            None => 0,
        }
    }

    /// The knock limit in effect
    pub open spec fn knock_limit(self) -> int {
        self.rules.knock_limit_spec(self.upcard.rank.value())
    }

    /// The first problem with a knock's spread and the counts after it,
    /// given that the knock is settled by `knocker`.
    pub open spec fn settled_error(self, k: KnockSnapshot, knocker: Player) -> Option<InvalidRound> {
        let kd = knock_deadwood(k, self.hand(k.knocker));
        if k.knocker != knocker || kd == 0 {
            Some(InvalidRound::BadResult)
        } else if kd > self.knock_limit() {
            Some(InvalidRound::BadDeadwood)
        } else if self.len(knocker) != 10 || self.len(knocker.spec_opponent()) + count(k.laid_off)
            != 10 || self.stock.len() < 2 {
            Some(InvalidRound::WrongCounts)
        } else {
            None
        }
    }

    /// The first problem with a finished round's result.
    pub open spec fn finished_error(self, res: RoundResult) -> Option<InvalidRound> {
        match res {
            RoundResult::Dead => if self.knock is Some {
                Some(InvalidRound::PhaseMismatch)
            } else if self.stock.len() != 2 || self.len(Player::One) != 10 || self.len(Player::Two)
                != 10 {
                Some(InvalidRound::WrongCounts)
            } else {
                None
            },
            RoundResult::Knock { winner, margin } => match self.knock {
                None => Some(InvalidRound::PhaseMismatch),
                Some(k) => if !spread_ok(k, self.hand(k.knocker)) {
                    Some(InvalidRound::BadSpread)
                } else {
                    match self.settled_error(k, winner) {
                        Some(e) => Some(e),
                        None => {
                            let kd = knock_deadwood(k, self.hand(k.knocker));
                            let dd = least_deadwood(self.hand(winner.spec_opponent()));
                            let expected = dd < kd || (dd == kd && self.rules.undercut_on_tie);
                            if expected || margin != dd.wrapping_sub(kd) {
                                Some(InvalidRound::BadResult)
                            } else {
                                None
                            }
                        },
                    }
                },
            },
            RoundResult::Undercut { winner, margin } => match self.knock {
                None => Some(InvalidRound::PhaseMismatch),
                Some(k) => if !spread_ok(k, self.hand(k.knocker)) {
                    Some(InvalidRound::BadSpread)
                } else {
                    match self.settled_error(k, winner.spec_opponent()) {
                        Some(e) => Some(e),
                        None => {
                            let kd = knock_deadwood(k, self.hand(k.knocker));
                            let dd = least_deadwood(self.hand(winner));
                            let expected = dd < kd || (dd == kd && self.rules.undercut_on_tie);
                            if !expected || margin != kd.wrapping_sub(dd) {
                                Some(InvalidRound::BadResult)
                            } else {
                                None
                            }
                        },
                    }
                },
            },
            RoundResult::Gin { winner, deadwood } => self.gin_error(winner, deadwood, false),
            RoundResult::BigGin { winner, deadwood } => self.gin_error(winner, deadwood, true),
        }
    }

    /// The first problem with a gin (`big`: a big gin) won by `winner`
    /// against `loser` deadwood.
    pub open spec fn gin_error(self, winner: Player, loser: u8, big: bool) -> Option<
        InvalidRound,
    > {
        match self.knock {
            None => Some(InvalidRound::PhaseMismatch),
            Some(k) => if !spread_ok(k, self.hand(k.knocker)) {
                Some(InvalidRound::BadSpread)
            } else if k.knocker != winner || knock_deadwood(k, self.hand(k.knocker)) != 0
                || k.laid_off != 0 {
                Some(InvalidRound::BadResult)
            } else if big && self.rules.big_gin_bonus is None {
                Some(InvalidRound::BadResult)
            } else if self.len(winner) != (if big {
                11int
            } else {
                10int
            }) || self.len(winner.spec_opponent()) != 10 || self.stock.len() < 2 {
                Some(InvalidRound::WrongCounts)
            } else if loser != least_deadwood(self.hand(winner.spec_opponent())) {
                Some(InvalidRound::BadResult)
            } else {
                None
            },
        }
    }

    /// The first problem specific to the phase.
    pub open spec fn phase_error(self) -> Option<InvalidRound> {
        match self.phase {
            Phase::Upcard => if self.passes > 1 || self.turn != (if self.passes == 0 {
                self.dealer.spec_opponent()
            } else {
                self.dealer
            }) {
                Some(InvalidRound::BadUpcardState)
            } else if self.stock.len() != 31 || self.discards.len() != 1 || self.len(Player::One)
                != 10 || self.len(Player::Two) != 10 {
                Some(InvalidRound::WrongCounts)
            } else if self.knock is Some {
                Some(InvalidRound::PhaseMismatch)
            } else {
                None
            },
            Phase::Draw => if self.len(Player::One) != 10 || self.len(Player::Two) != 10
                || self.stock.len() < 3 || self.discards.len() == 0 {
                Some(InvalidRound::WrongCounts)
            } else if self.knock is Some {
                Some(InvalidRound::PhaseMismatch)
            } else {
                None
            },
            Phase::Discard => if self.len(self.turn) != 11 || self.len(self.turn.spec_opponent())
                != 10 || self.stock.len() < 2 {
                Some(InvalidRound::WrongCounts)
            } else if self.knock is Some {
                Some(InvalidRound::PhaseMismatch)
            } else if self.taken matches Some(c) && !bit(self.hand(self.turn), c.pos()) {
                Some(InvalidRound::PhaseMismatch)
            } else {
                None
            },
            Phase::Layoff => match self.knock {
                None => Some(InvalidRound::PhaseMismatch),
                Some(k) => if !spread_ok(k, self.hand(k.knocker)) {
                    Some(InvalidRound::BadSpread)
                } else {
                    let kd = knock_deadwood(k, self.hand(k.knocker));
                    if kd == 0 {
                        Some(InvalidRound::PhaseMismatch)
                    } else if kd > self.knock_limit() {
                        Some(InvalidRound::BadDeadwood)
                    } else if self.turn != k.knocker.spec_opponent() {
                        Some(InvalidRound::PhaseMismatch)
                    } else if self.len(k.knocker) != 10 || self.len(self.turn) + count(k.laid_off)
                        != 10 || self.stock.len() < 2 || self.discards.len() == 0 {
                        Some(InvalidRound::WrongCounts)
                    } else {
                        None
                    }
                },
            },
            Phase::Finished => match self.result {
                None => Some(InvalidRound::PhaseMismatch),
                Some(res) => self.finished_error(res),
            },
        }
    }

    /// The first problem with the snapshot, in the order the checks run, or
    /// `None` when it describes a legal position
    pub open spec fn error(self) -> Option<InvalidRound> {
        if !partitions(self.hand_one, self.hand_two, self.stock + self.discards, self.laid()) {
            Some(InvalidRound::NotAPartition)
        } else if self.passes > 2 {
            Some(InvalidRound::BadUpcardState)
        } else if self.forced && !(self.phase == Phase::Draw && self.passes == 2
            && self.stock.len() == 31) {
            Some(InvalidRound::PhaseMismatch)
        } else if self.taken is Some && self.phase != Phase::Discard {
            Some(InvalidRound::PhaseMismatch)
        } else if (self.result is Some) != (self.phase == Phase::Finished) {
            Some(InvalidRound::PhaseMismatch)
        } else if (self.phase == Phase::Upcard || self.passes == 2) && !(self.discards.len() > 0
            && self.discards[0] == self.upcard) {
            Some(InvalidRound::BadInitialUpcard)
        } else {
            self.phase_error()
        }
    }
}

/// The melds in the slots, in slot order, skipping empty slots.
pub open spec fn flatten_slots(a: Seq<Option<Meld>>) -> Seq<Meld> {
    let one = |o: Option<Meld>|
        match o {
            Some(m) => seq![m],
            None => Seq::<Meld>::empty(),
        };
    one(a[0]) + one(a[1]) + one(a[2])
}


/// The bit of a card in the card-set layout.
pub open spec fn card_bit(c: Card) -> u64 {
    1u64 << (c.pos() as u64)
}

/// The partition does not depend on the order of the two hands.
pub proof fn lemma_partition_swap(a: u64, b: u64, cs: Seq<Card>, l: u64)
    requires
        partitions(a, b, cs, l),
    ensures
        partitions(b, a, cs, l),
{
    assert forall|c: Card| #[trigger] slot_count(b, a, cs, l, c) == 1 by {
        assert(slot_count(a, b, cs, l, c) == 1);
    }
}

/// Removing one element from a sequence without duplicates keeps the
/// others and nothing else.
pub proof fn lemma_remove_card(cs: Seq<Card>, k: int)
    requires
        cs.no_duplicates(),
        0 <= k < cs.len(),
    ensures
        cs.remove(k).no_duplicates(),
        forall|d: Card| #[trigger] cs.remove(k).contains(d) == (cs.contains(d) && d != cs[k]),
{
    let r = cs.remove(k);
    assert forall|i: int, j: int| 0 <= i < j < r.len() implies r[i] != r[j] by {
        let i2 = if i < k { i } else { i + 1 };
        let j2 = if j < k { j } else { j + 1 };
        assert(r[i] == cs[i2]);
        assert(r[j] == cs[j2]);
    }
    assert forall|d: Card| #[trigger] r.contains(d) == (cs.contains(d) && d != cs[k]) by {
        if r.contains(d) {
            let i = choose|i: int| 0 <= i < r.len() && r[i] == d;
            let i2 = if i < k { i } else { i + 1 };
            assert(cs[i2] == d);
        }
        if cs.contains(d) && d != cs[k] {
            let i = choose|i: int| 0 <= i < cs.len() && cs[i] == d;
            if i < k {
                assert(r[i] == d);
            } else {
                assert(r[i - 1] == d);
            }
        }
    }
}

/// Moving a card from the cards `cs` into hand `a` keeps the partition.
pub proof fn lemma_cards_to_hand(a: u64, b: u64, cs: Seq<Card>, k: int, l: u64)
    requires
        partitions(a, b, cs, l),
        0 <= k < cs.len(),
    ensures
        partitions(a | card_bit(cs[k]), b, cs.remove(k), l),
        !bit(a, cs[k].pos()),
        !bit(b, cs[k].pos()),
        !bit(l, cs[k].pos()),
{
    let c = cs[k];
    crate::hand::lemma_card(c);
    lemma_remove_card(cs, k);
    assert(slot_count(a, b, cs, l, c) == 1);
    let a2 = a | card_bit(c);
    assert forall|p: int| #[trigger] bit(a2, p) implies bit(ALL_BITS, p) by {
        if p != c.pos() {
            assert(bit(a, p));
        }
    }
    assert forall|d: Card| #[trigger] slot_count(a2, b, cs.remove(k), l, d) == 1 by {
        assert(slot_count(a, b, cs, l, d) == 1);
        crate::hand::lemma_card(d);
        if d != c {
            if d.pos() == c.pos() {
                crate::hand::lemma_pos_injective(d, c);
            }
        }
    }
}

/// Moving a card from hand `a` to the top of the cards `cs` keeps the
/// partition.
pub proof fn lemma_hand_to_cards(a: u64, b: u64, cs: Seq<Card>, l: u64, c: Card)
    requires
        partitions(a, b, cs, l),
        bit(a, c.pos()),
    ensures
        partitions(a & !card_bit(c), b, cs.push(c), l),
        !cs.contains(c),
{
    crate::hand::lemma_card(c);
    assert(slot_count(a, b, cs, l, c) == 1);
    let a2 = a & !card_bit(c);
    let cs2 = cs.push(c);
    assert forall|i: int, j: int| 0 <= i < j < cs2.len() implies cs2[i] != cs2[j] by {
        if j == cs.len() {
            assert(cs2[i] == cs[i]);
        }
    }
    assert forall|d: Card| #[trigger] slot_count(a2, b, cs2, l, d) == 1 by {
        assert(slot_count(a, b, cs, l, d) == 1);
        crate::hand::lemma_card(d);
        if cs2.contains(d) && d != c {
            let i = choose|i: int| 0 <= i < cs2.len() && cs2[i] == d;
            assert(cs[i] == d);
        }
        if cs.contains(d) {
            let i = choose|i: int| 0 <= i < cs.len() && cs[i] == d;
            assert(cs2[i] == d);
        }
        if d == c {
            assert(!bit(a2, c.pos()));
            assert(cs2[cs.len() as int] == c);
        } else if d.pos() == c.pos() {
            crate::hand::lemma_pos_injective(d, c);
        }
    }
}

/// Moving a card from hand `a` to the layoffs keeps the partition.
pub proof fn lemma_hand_to_laid(a: u64, b: u64, cs: Seq<Card>, l: u64, c: Card)
    requires
        partitions(a, b, cs, l),
        bit(a, c.pos()),
    ensures
        partitions(a & !card_bit(c), b, cs, l | card_bit(c)),
        !bit(l, c.pos()),
        !bit(b, c.pos()),
{
    crate::hand::lemma_card(c);
    assert(slot_count(a, b, cs, l, c) == 1);
    let a2 = a & !card_bit(c);
    let l2 = l | card_bit(c);
    assert forall|p: int| #[trigger] bit(l2, p) implies bit(ALL_BITS, p) by {
        if p != c.pos() {
            assert(bit(l, p));
        }
    }
    assert forall|d: Card| #[trigger] slot_count(a2, b, cs, l2, d) == 1 by {
        assert(slot_count(a, b, cs, l, d) == 1);
        crate::hand::lemma_card(d);
        if d != c && d.pos() == c.pos() {
            crate::hand::lemma_pos_injective(d, c);
        }
    }
}

/// A partition of the deck counts 52 cards in all: the two hands, the
/// cards `cs`, and the layoffs.
pub proof fn lemma_partition_sizes(a: u64, b: u64, cs: Seq<Card>, l: u64)
    requires
        partitions(a, b, cs, l),
    ensures
        count(a) + count(b) + cs.len() + count(l) == 52,
    decreases cs.len(),
{
    broadcast use group_bit_ops;

    if cs.len() > 0 {
        let k = cs.len() - 1;
        let c = cs[k];
        crate::hand::lemma_card(c);
        lemma_cards_to_hand(a, b, cs, k, l);
        lemma_partition_sizes(a | card_bit(c), b, cs.remove(k), l);
        crate::bits::lemma_count_insert(a, c.pos());
    } else {
        assert forall|p: int| !(#[trigger] bit(a, p) && bit(b, p)) by {
            if bit(a, p) && bit(b, p) {
                crate::hand::lemma_card_at(p);
                assert(slot_count(a, b, cs, l, crate::hand::card_at(p)) == 1);
            }
        }
        assert forall|p: int| !(#[trigger] bit(a | b, p) && bit(l, p)) by {
            if bit(a | b, p) && bit(l, p) {
                crate::hand::lemma_card_at(p);
                assert(slot_count(a, b, cs, l, crate::hand::card_at(p)) == 1);
            }
        }
        assert forall|p: int| 0 <= p < 64 implies #[trigger] bit((a | b) | l, p) == bit(
            ALL_BITS,
            p,
        ) by {
            if crate::bits::valid_pos(p) {
                lemma_partition_covers(a, b, cs, l, p);
            }
        }
        crate::bits::lemma_bits_ext((a | b) | l, ALL_BITS);
        crate::bits::lemma_count_disjoint_union(a, b);
        crate::bits::lemma_count_disjoint_union(a | b, l);
        crate::bits::lemma_count_all();
    }
}

/// Whether some card of `cs` lies at position `p`.
pub open spec fn some_card_at(cs: Seq<Card>, n: int, p: int) -> bool {
    exists|j: int| 0 <= j < n && #[trigger] cs[j].pos() == p
}

/// The card at a set bit of a card set of valid cards.
proof fn lemma_card_of_bit(x: u64, p: int)
    requires
        subset(x, ALL_BITS),
        bit(x, p),
    ensures
        crate::bits::valid_pos(p),
        crate::hand::card_at(p).pos() == p,
        bit(x, crate::hand::card_at(p).pos()),
{
    crate::hand::lemma_card_at(p);
}

/// A card set meeting the partition: every position is a card, and the card
/// is somewhere.
proof fn lemma_partition_covers(a: u64, b: u64, cs: Seq<Card>, l: u64, p: int)
    requires
        partitions(a, b, cs, l),
        crate::bits::valid_pos(p),
    ensures
        bit(a, p) || bit(b, p) || bit(l, p) || cs.contains(crate::hand::card_at(p)),
{
    let c = crate::hand::card_at(p);
    crate::hand::lemma_card_at(p);
    assert(slot_count(a, b, cs, l, c) == 1);
}

/// Whether the hands, the cards `stock ++ discards`, and the layoffs `laid`
/// hold each of the 52 cards exactly once.
pub fn check_partition(
    hands: &[Hand; 2],
    stock: &Vec<Card>,
    discards: &Vec<Card>,
    laid: Option<Hand>,
) -> (ok: bool)
    ensures
        ok == partitions(
            hands@[0].bits(),
            hands@[1].bits(),
            stock@ + discards@,
            match laid {
                Some(h) => h.bits(),
                None => 0,
            },
        ),
{
    let ghost l: u64 = match laid {
        Some(h) => h.bits(),
        None => 0,
    };
    let ghost cs = stock@ + discards@;
    let h0 = hands[0].to_bits();
    let h1 = hands[1].to_bits();
    if h0 & h1 != 0 {
        proof {
            if partitions(h0, h1, cs, l) {
                let p = crate::bits::lemma_some_bit(h0 & h1);
                lemma_card_of_bit(h0, p);
                assert(slot_count(h0, h1, cs, l, crate::hand::card_at(p)) == 1);
            }
        }
        return false;
    }
    proof {
        assert forall|p: int| !(#[trigger] bit(h0, p) && bit(h1, p)) by {
            assert(!bit(h0 & h1, p));
        }
    }
    let both = h0 | h1;
    let mut seen = both;
    let ns = stock.len();
    let nd = discards.len();
    let ghost n = cs.len() as int;
    let mut i: usize = 0;
    let mut j: usize = 0;
    while i < ns || j < nd
        invariant
            ns == stock@.len(),
            nd == discards@.len(),
            n == cs.len(),
            cs == stock@ + discards@,
            l == match laid {
                Some(h) => h.bits(),
                None => 0,
            },
            i <= ns,
            j <= nd,
            i < ns ==> j == 0,
            h0 == hands@[0].bits(),
            h1 == hands@[1].bits(),
            both == h0 | h1,
            disjoint(h0, h1),
            forall|p: int| #[trigger] bit(seen, p) <==> (bit(both, p) || some_card_at(cs, i + j, p)),
            forall|k: int| 0 <= k < i + j ==> !bit(both, #[trigger] cs[k].pos()),
            forall|k: int, m: int| 0 <= k < m < i + j ==> cs[k] != cs[m],
        decreases ns + nd - i - j,
    {
        let ghost k: int = i + j;
        let card = if i < ns {
            stock[i]
        } else {
            discards[j]
        };
        assert(card == cs[k]);
        let q = card.position();
        if (seen >> q) & 1 == 1 {
            proof {
                assert(bit(seen, q as int));
                crate::hand::lemma_card(card);
                if partitions(h0, h1, cs, l) {
                    if bit(both, q as int) {
                        assert(cs[k] == card);
                        assert(cs.contains(card));
                        assert(bit(h0, card.pos()) || bit(h1, card.pos()));
                        assert(slot_count(h0, h1, cs, l, card) == 1);
                    } else {
                        assert(some_card_at(cs, k, q as int));
                        let m = choose|m: int| 0 <= m < k && #[trigger] cs[m].pos() == q;
                        crate::hand::lemma_card(cs[m]);
                        crate::hand::lemma_pos_injective(cs[m], card);
                        assert(cs[m] == cs[k]);
                        assert(!cs.no_duplicates());
                    }
                }
            }
            return false;
        }
        proof {
            crate::hand::lemma_card(card);
            assert(!bit(seen, q as int));
            assert(!bit(both, cs[k].pos()));
            assert forall|m: int| 0 <= m < k implies cs[m] != card by {
                if cs[m] == card {
                    assert(cs[m].pos() == q as int);
                    assert(some_card_at(cs, k, q as int));
                    assert(bit(seen, q as int));
                }
            }
        }
        seen = seen | (1u64 << q);
        if i < ns {
            i += 1;
        } else {
            j += 1;
        }
        proof {
            assert(i + j == k + 1);
            assert forall|p: int| #[trigger] bit(seen, p) <==> (bit(both, p) || some_card_at(
                cs,
                k + 1,
                p,
            )) by {
                if some_card_at(cs, k + 1, p) {
                    let m = choose|m: int| 0 <= m < k + 1 && #[trigger] cs[m].pos() == p;
                    if m < k {
                        assert(some_card_at(cs, k, p));
                    }
                }
                if p == q {
                    assert(cs[k].pos() == p);
                }
                if some_card_at(cs, k, p) {
                    let m = choose|m: int| 0 <= m < k && #[trigger] cs[m].pos() == p;
                    assert(cs[m].pos() == p);
                }
            }
        }
    }
    proof {
        assert(i + j == n);
    }
    let lb: u64 = match laid {
        Some(h) => h.to_bits(),
        None => 0,
    };
    assert(lb == l);
    if seen & lb != 0 {
        proof {
            if partitions(h0, h1, cs, l) {
                let p = crate::bits::lemma_some_bit(seen & lb);
                lemma_card_of_bit(lb, p);
                let c = crate::hand::card_at(p);
                assert(slot_count(h0, h1, cs, l, c) == 1);
                if !bit(both, p) {
                    let m = choose|m: int| 0 <= m < n && #[trigger] cs[m].pos() == p;
                    crate::hand::lemma_card(cs[m]);
                    crate::hand::lemma_pos_injective(cs[m], c);
                    assert(cs.contains(c));
                }
            }
        }
        return false;
    }
    let all = seen | lb;
    proof {
        assert(cs.no_duplicates());
        if partitions(h0, h1, cs, l) {
            assert forall|p: int| 0 <= p < 64 implies #[trigger] bit(all, p) == bit(ALL_BITS, p) by {
                if crate::bits::valid_pos(p) {
                    lemma_partition_covers(h0, h1, cs, l, p);
                    let c = crate::hand::card_at(p);
                    crate::hand::lemma_card_at(p);
                    if cs.contains(c) {
                        let j = choose|j: int| 0 <= j < cs.len() && cs[j] == c;
                        assert(cs[j].pos() == p);
                        assert(some_card_at(cs, n, p));
                    }
                } else if bit(all, p) {
                    if some_card_at(cs, n, p) {
                        let j = choose|j: int| 0 <= j < n && #[trigger] cs[j].pos() == p;
                        crate::hand::lemma_card(cs[j]);
                    }
                }
            }
            crate::bits::lemma_bits_ext(all, ALL_BITS);
        }
    }
    if all != ALL_BITS {
        return false;
    }
    proof {
        assert forall|p: int| #[trigger] bit(h0, p) implies bit(ALL_BITS, p) by {
            assert(bit(all, p));
        }
        assert forall|p: int| #[trigger] bit(h1, p) implies bit(ALL_BITS, p) by {
            assert(bit(all, p));
        }
        assert forall|p: int| #[trigger] bit(l, p) implies bit(ALL_BITS, p) by {
            assert(bit(all, p));
        }
        assert forall|c: Card| #[trigger] slot_count(h0, h1, cs, l, c) == 1 by {
            crate::hand::lemma_card(c);
            let p = c.pos();
            assert(bit(all, p));
            if cs.contains(c) {
                let j = choose|j: int| 0 <= j < cs.len() && cs[j] == c;
                assert(!bit(both, cs[j].pos()));
                assert(some_card_at(cs, n, p));
                assert(bit(seen, p));
            } else if !bit(both, p) && !bit(l, p) {
                assert(bit(seen, p));
                let j = choose|j: int| 0 <= j < n && #[trigger] cs[j].pos() == p;
                crate::hand::lemma_card(cs[j]);
                crate::hand::lemma_pos_injective(cs[j], c);
                assert(cs.contains(c));
            }
            if bit(l, p) {
                assert(!bit(seen & lb, p));
                assert(!bit(seen, p));
            }
        }
    }
    true
}
} // verus!
