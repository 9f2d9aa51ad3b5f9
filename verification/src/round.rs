//! One deal of gin rummy, from the opening upcard to the showdown.
//!
//! A [`Round`] is a runtime-checked state machine.  Accessors expose the
//! whole position — including both hands and the stock order, so bots and
//! UIs enforce their own information hygiene — and action methods mutate it,
//! returning [`RoundError`] on illegal moves.
//!
//! The flow of a round:
//!
//! 1. **Upcard** ([`Phase::Upcard`]): the non-dealer, then the dealer, may
//!    [`take_discard`](Round::take_discard) the upcard or
//!    [`pass`](Round::pass).  If both pass, the non-dealer must draw from
//!    the stock.
//! 2. **Turns** ([`Phase::Draw`] then [`Phase::Discard`]): draw from the
//!    stock or the discard pile, then [`discard`](Round::discard),
//!    [`knock`](Round::knock), or
//!    [`declare_big_gin`](Round::declare_big_gin).
//! 3. **Layoffs** ([`Phase::Layoff`], skipped after gin): the defender may
//!    [`lay_off`](Round::lay_off) deadwood onto the knocker's spread, then
//!    [`finish_layoffs`](Round::finish_layoffs) settles the score.
//!
//! The round ends ([`Phase::Finished`]) with a [`RoundResult`], also
//! covering the *dead hand*: a discard that leaves two cards in the stock
//! without a knock voids the deal.

use crate::bits::{bit, count, disjoint, group_bit_ops, pips, subset, ALL_BITS};
use crate::deck::Deck;
use crate::hand::{Card, Hand};
use crate::meld::{
    deadwood, filled, front_filled, is_min_deadwood, leftover, meld_bits, min_deadwood, union_of, Meld,
    Melds,
};
use crate::player::Player;
use crate::repr::{
    card_bit, check_partition, flatten_slots, lemma_cards_to_hand, lemma_hand_to_cards,
    lemma_hand_to_laid, lemma_partition_swap, knock_deadwood, least_deadwood, partitions, slot_count,
    spread_ok, spread_union, KnockSnapshot, Snapshot,
};
use crate::rules::Rules;
use vstd::prelude::*;

pub use crate::repr::{InvalidRound, KnockRepr, RoundRepr};

verus! {

broadcast use group_bit_ops, crate::hand::lemma_hand_bits;

/// The phase of a [`Round`]
#[derive(Debug, Clone, Copy, PartialEq, Eq, Structural, Hash)]
pub enum Phase {
    /// The initial upcard is offered: take it or pass
    Upcard,
    /// The player to move draws from the stock or the discard pile
    Draw,
    /// The player to move discards, knocks, or declares big gin
    Discard,
    /// The defender may lay off cards onto the knocker's spread
    Layoff,
    /// The round is over; see [`Round::result`]
    Finished,
}

impl Phase {
    /// The display text of the phase: its lowercase name
    pub fn to_string(&self) -> (s: String)
        ensures
            s@ == match *self {
                Phase::Upcard => seq!['u', 'p', 'c', 'a', 'r', 'd'],
                Phase::Draw => seq!['d', 'r', 'a', 'w'],
                Phase::Discard => seq!['d', 'i', 's', 'c', 'a', 'r', 'd'],
                Phase::Layoff => seq!['l', 'a', 'y', 'o', 'f', 'f'],
                Phase::Finished => seq!['f', 'i', 'n', 'i', 's', 'h', 'e', 'd'],
            },
    {
        let mut s = String::new();
        let word: &[char] = match self {
            Phase::Upcard => &['u', 'p', 'c', 'a', 'r', 'd'],
            Phase::Draw => &['d', 'r', 'a', 'w'],
            Phase::Discard => &['d', 'i', 's', 'c', 'a', 'r', 'd'],
            Phase::Layoff => &['l', 'a', 'y', 'o', 'f', 'f'],
            Phase::Finished => &['f', 'i', 'n', 'i', 's', 'h', 'e', 'd'],
        };
        let mut i: usize = 0;
        while i < word.len()
            invariant
                i <= word@.len(),
                s@ == word@.subrange(0, i as int),
            decreases word@.len() - i,
        {
            crate::text::push_char(&mut s, word[i]);
            i += 1;
            assert(s@ =~= word@.subrange(0, i as int));
        }
        proof {
            assert(word@.subrange(0, word@.len() as int) =~= word@);
        }
        s
    }
}

/// The outcome of a round
///
/// A result records facts; [`RoundResult::points`] prices them under a
/// [`Rules`].
#[derive(Debug, Clone, Copy, PartialEq, Eq, Structural, Hash)]
#[non_exhaustive]
pub enum RoundResult {
    /// The stock ran down to two cards without a knock: nobody scores, and
    /// the same dealer redeals
    Dead,
    /// A knock won by `margin`, the difference in deadwood
    Knock {
        /// The knocker
        winner: Player,
        /// The deadwood difference
        margin: u8,
    },
    /// The defender matched or beat the knocker's deadwood
    Undercut {
        /// The defender
        winner: Player,
        /// The deadwood difference
        margin: u8,
    },
    /// A knock with zero deadwood; layoffs are not allowed against it
    Gin {
        /// The knocker
        winner: Player,
        /// The loser's deadwood
        deadwood: u8,
    },
    /// Eleven melded cards declared instead of discarding
    BigGin {
        /// The declarer
        winner: Player,
        /// The loser's deadwood
        deadwood: u8,
    },
}

impl RoundResult {
    /// The player who scores this result, or `None` for a dead hand
    pub open spec fn winner_spec(self) -> Option<Player> {
        match self {
            RoundResult::Dead => None,
            RoundResult::Knock { winner, .. } => Some(winner),
            RoundResult::Undercut { winner, .. } => Some(winner),
            RoundResult::Gin { winner, .. } => Some(winner),
            RoundResult::BigGin { winner, .. } => Some(winner),
        }
    }

    /// The points this result awards its winner under `rules`; a big gin
    /// under rules without one is priced as a gin
    pub open spec fn points_spec(self, rules: Rules) -> int {
        match self {
            RoundResult::Dead => 0,
            RoundResult::Knock { margin, .. } => margin as int,
            RoundResult::Undercut { margin, .. } => margin + rules.undercut_bonus,
            RoundResult::Gin { deadwood, .. } => deadwood + rules.gin_bonus,
            RoundResult::BigGin { deadwood, .. } => deadwood + match rules.big_gin_bonus {
                Some(bonus) => bonus,
                None => rules.gin_bonus,
            },
        }
    }

    /// The player who scores this result, or `None` for a dead hand
    pub fn winner(self) -> (w: Option<Player>)
        ensures
            w == self.winner_spec(),
            w == match self {
                RoundResult::Dead => None,
                RoundResult::Knock { winner, .. } => Some(winner),
                RoundResult::Undercut { winner, .. } => Some(winner),
                RoundResult::Gin { winner, .. } => Some(winner),
                RoundResult::BigGin { winner, .. } => Some(winner),
            },
            (w is None) == (self == RoundResult::Dead),
    {
        match self {
            RoundResult::Dead => None,
            RoundResult::Knock { winner, .. } => Some(winner),
            RoundResult::Undercut { winner, .. } => Some(winner),
            RoundResult::Gin { winner, .. } => Some(winner),
            RoundResult::BigGin { winner, .. } => Some(winner),
        }
    }

    /// The points this result awards its winner under the given rules
    ///
    /// The box bonus and game-level bonuses are accounted by
    /// [`Game`](crate::Game), not here.  The total must fit in `u16`.
    pub fn points(self, rules: &Rules) -> (p: u16)
        requires
            self.points_spec(*rules) <= u16::MAX,
        ensures
            p == self.points_spec(*rules),
            self is Dead ==> p == 0,
            self matches RoundResult::Knock { margin, .. } ==> p == margin,
            self matches RoundResult::Undercut { margin, .. } ==> p == margin + rules.undercut_bonus,
            self matches RoundResult::Gin { deadwood, .. } ==> p == deadwood + rules.gin_bonus,
            self matches RoundResult::BigGin { deadwood, .. } ==> p == deadwood + match rules.big_gin_bonus {
                Some(bonus) => bonus,
                None => rules.gin_bonus,
            },
    {
        match self {
            RoundResult::Dead => 0,
            RoundResult::Knock { margin, .. } => margin as u16,
            RoundResult::Undercut { margin, .. } => margin as u16 + rules.undercut_bonus,
            RoundResult::Gin { deadwood, .. } => deadwood as u16 + rules.gin_bonus,
            RoundResult::BigGin { deadwood, .. } => deadwood as u16 + match rules.big_gin_bonus {
                Some(bonus) => bonus,
                None => rules.gin_bonus,
            },
        }
    }
}

/// Who wins a result: every result but a dead hand has a winner, the player
/// it records, and a dead hand has none.
pub proof fn lemma_result_winner(res: RoundResult)
    ensures
        (res.winner_spec() is None) == (res == RoundResult::Dead),
        res matches RoundResult::Knock { winner, .. } ==> res.winner_spec() == Some(winner),
        res matches RoundResult::Undercut { winner, .. } ==> res.winner_spec() == Some(winner),
        res matches RoundResult::Gin { winner, .. } ==> res.winner_spec() == Some(winner),
        res matches RoundResult::BigGin { winner, .. } ==> res.winner_spec() == Some(winner),
{
}

/// What a result is worth under `rules`: a knock its margin; an undercut
/// its margin plus the undercut bonus; a gin the loser's deadwood plus the
/// gin bonus; a big gin the loser's deadwood plus the big gin bonus, or the
/// gin bonus where the rules have none; a dead hand nothing.  So an undercut
/// is worth exactly the undercut bonus more than a knock by the same margin,
/// and a gin the gin bonus more than a knock by the loser's deadwood.
pub proof fn lemma_result_points(res: RoundResult, rules: Rules, p: Player, m: u8)
    ensures
        RoundResult::Dead.points_spec(rules) == 0,
        (RoundResult::Knock { winner: p, margin: m }).points_spec(rules) == m,
        (RoundResult::Undercut { winner: p, margin: m }).points_spec(rules) == m
            + rules.undercut_bonus,
        (RoundResult::Gin { winner: p, deadwood: m }).points_spec(rules) == m + rules.gin_bonus,
        rules.big_gin_bonus matches Some(b) ==> (RoundResult::BigGin { winner: p, deadwood: m }).points_spec(rules) == m + b,
        rules.big_gin_bonus is None ==> (RoundResult::BigGin { winner: p, deadwood: m }).points_spec(rules)
            == (RoundResult::Gin { winner: p, deadwood: m }).points_spec(rules),
        (RoundResult::Undercut { winner: p, margin: m }).points_spec(rules) == (RoundResult::Knock {
            winner: p.spec_opponent(),
            margin: m,
        }).points_spec(rules) + rules.undercut_bonus,
        res.points_spec(rules) >= 0,
{
}

/// Error returned when constructing a [`Round`] from an invalid deal
#[derive(Debug, Clone, Copy, PartialEq, Eq, Structural, Hash)]
#[non_exhaustive]
pub enum DealError {
    /// Each player is dealt exactly 10 cards
    WrongHandSize,
    /// The stock holds the remaining 31 cards
    WrongStockSize,
    /// A card appears twice across the hands, upcard, and stock
    RepeatedCard,
}

/// Error returned when a [`Round`] action is illegal
#[derive(Debug, Clone, Copy, PartialEq, Eq, Structural, Hash)]
#[non_exhaustive]
pub enum RoundError {
    /// The action does not belong to the current phase
    WrongPhase(Phase),
    /// After both players pass the upcard, the first draw must come from
    /// the stock
    MustDrawFromStock,
    /// The card is not in the acting player's hand
    NotInHand(Card),
    /// The card was taken from the discard pile this turn
    DiscardJustTaken(Card),
    /// The arrangement's deadwood exceeds the knock limit
    TooMuchDeadwood {
        /// The deadwood of the offered arrangement
        deadwood: u8,
        /// The knock limit in effect
        limit: u8,
    },
    /// The melds do not arrange the knocker's remaining hand
    MeldsMismatch,
    /// The hand is not fully melded
    NotBigGin,
    /// Big gin is disabled by the rules
    BigGinDisabled,
    /// No meld at this index in the spread
    NoSuchMeld(usize),
    /// The card extends no end of the meld
    CannotLayOff(Card),
}

/// The knocker's spread and what the defender laid off onto it
#[derive(Debug, Clone, Copy, PartialEq, Eq)]
struct KnockState {
    knocker: Player,
    spread: [Option<Meld>; 3],
    knocker_deadwood: u8,
    laid_off: Hand,
}

/// The hands with player `p`'s hand replaced.
fn with_hand(hands: [Hand; 2], p: Player, h: Hand) -> (r: [Hand; 2])
    ensures
        r@.len() == 2,
        r@[p.idx()] == h,
        r@[p.spec_opponent().idx()] == hands@[p.spec_opponent().idx()],
{
    match p {
        Player::One => [h, hands[1]],
        Player::Two => [hands[0], h],
    }
}

/// One deal of gin rummy
///
/// See the [module documentation](self) for the flow.  Construct with
/// [`Round::from_deal`].
#[derive(Debug, Clone, PartialEq, Eq)]
pub struct Round {
    rules: Rules,
    dealer: Player,
    hands: [Hand; 2],
    stock: Vec<Card>,
    discards: Vec<Card>,
    initial_upcard: Card,
    phase: Phase,
    turn: Player,
    passes: u8,
    forced_stock: bool,
    taken_discard: Option<Card>,
    knock: Option<KnockState>,
    result: Option<RoundResult>,
}

impl Round {
    /// The scoring rules
    pub closed spec fn rules_v(self) -> Rules {
        self.rules
    }

    /// The dealer
    pub closed spec fn dealer_v(self) -> Player {
        self.dealer
    }

    /// The hand of a player
    pub closed spec fn hand_v(self, p: Player) -> Hand {
        self.hands@[p.idx()]
    }

    /// The face-down stock; the top card is the last element
    pub closed spec fn stock_v(self) -> Seq<Card> {
        self.stock@
    }

    /// The face-up discard pile; the top card is the last element
    pub closed spec fn discards_v(self) -> Seq<Card> {
        self.discards@
    }

    /// The opening upcard
    pub closed spec fn upcard_v(self) -> Card {
        self.initial_upcard
    }

    /// The current phase
    pub closed spec fn phase_v(self) -> Phase {
        self.phase
    }

    /// The player to act
    pub closed spec fn turn_v(self) -> Player {
        self.turn
    }

    /// The upcard offers declined so far
    pub closed spec fn passes_v(self) -> u8 {
        self.passes
    }

    /// Whether the next draw must come from the stock
    pub closed spec fn forced_v(self) -> bool {
        self.forced_stock
    }

    /// The card taken from the discard pile this turn, if any
    pub closed spec fn taken_v(self) -> Option<Card> {
        self.taken_discard
    }

    /// The player who knocked or declared big gin, if any
    pub closed spec fn knocker_v(self) -> Option<Player> {
        match self.knock {
            Some(k) => Some(k.knocker),
            None => None,
        }
    }

    /// The knocker's spread slots, extended by layoffs
    pub closed spec fn spread_v(self) -> Seq<Option<Meld>> {
        match self.knock {
            Some(k) => k.spread@,
            None => seq![None, None, None],
        }
    }

    /// The deadwood the knocker kept
    pub closed spec fn knocker_deadwood_v(self) -> int {
        match self.knock {
            Some(k) => k.knocker_deadwood as int,
            None => 0,
        }
    }

    /// The cards laid off onto the spread
    pub closed spec fn laid_off_v(self) -> u64 {
        match self.knock {
            Some(k) => k.laid_off.bits(),
            None => 0,
        }
    }

    /// The outcome, if the round is over
    pub closed spec fn result_v(self) -> Option<RoundResult> {
        self.result
    }

    /// The knock limit in effect
    pub open spec fn knock_limit_v(self) -> int {
        self.rules_v().knock_limit_spec(self.upcard_v().rank.value())
    }

    /// The structural invariant every round keeps: each phase holds the
    /// components and card counts its actions rely on
    pub open spec fn wf(self) -> bool {
        &&& self.passes_v() <= 2
        &&& (self.phase_v() == Phase::Finished) == (self.result_v() is Some)
        &&& (self.knocker_v() is Some) == (self.phase_v() == Phase::Layoff || (self.phase_v()
            == Phase::Finished && !(self.result_v() == Some(RoundResult::Dead))))
        &&& self.taken_v() is Some ==> self.phase_v() == Phase::Discard
        &&& self.forced_v() ==> self.phase_v() == Phase::Draw
        &&& self.phase_v() == Phase::Upcard ==> {
            &&& self.passes_v() <= 1
            &&& self.discards_v().len() == 1
            &&& self.stock_v().len() == 31
        }
        &&& self.phase_v() == Phase::Draw ==> {
            &&& self.stock_v().len() >= 3
            &&& self.discards_v().len() >= 1
        }
        &&& self.phase_v() == Phase::Discard ==> self.stock_v().len() >= 2
        &&& self.phase_v() == Phase::Layoff ==> {
            &&& self.knocker_v() == Some(self.turn_v().spec_opponent())
            &&& front_filled(self.spread_v())
        }
    }

    /// The position as plain values, as a snapshot records it
    pub open spec fn snapshot(self) -> Snapshot {
        Snapshot {
            rules: self.rules_v(),
            dealer: self.dealer_v(),
            hand_one: self.hand_v(Player::One).bits(),
            hand_two: self.hand_v(Player::Two).bits(),
            stock: self.stock_v(),
            discards: self.discards_v(),
            upcard: self.upcard_v(),
            phase: self.phase_v(),
            turn: self.turn_v(),
            passes: self.passes_v(),
            forced: self.forced_v(),
            taken: self.taken_v(),
            knock: match self.knocker_v() {
                Some(p) => Some(
                    KnockSnapshot {
                        knocker: p,
                        spread: flatten_slots(self.spread_v()),
                        laid_off: self.laid_off_v(),
                    },
                ),
                None => None,
            },
            result: self.result_v(),
        }
    }

    /// Whether the position is one a snapshot may describe: its snapshot
    /// passes every check, the spread fills its slots from the front, and
    /// the knocker's deadwood is that of the cards left out of the spread
    pub open spec fn valid(self) -> bool {
        &&& self.snapshot().error() is None
        &&& self.knocker_v() is Some ==> {
            &&& front_filled(self.spread_v())
            &&& self.knocker_deadwood_v() == knock_deadwood(
                self.snapshot().knock.unwrap(),
                self.hand_v(self.knocker_v().unwrap()).bits(),
            ) as int
        }
    }

    /// What every round dealt from the full deck keeps through play: it is
    /// valid, and after both players passed the upcard the discard pile
    /// holds more than the buried upcard whenever it may be drawn from
    pub open spec fn sound(self) -> bool {
        &&& self.valid()
        &&& self.passes_v() == 2 && self.phase_v() == Phase::Draw && !self.forced_v()
            ==> self.discards_v().len() >= 2
    }
}

/// How one action may move the knocker: once there, a knocker stays; a
/// round without one gains one only when the player to act knocks or
/// declares big gin at the discard step
pub open spec fn knocker_step(before: Round, after: Round) -> bool {
    &&& before.knocker_v() is Some ==> after.knocker_v() == before.knocker_v()
    &&& before.knocker_v() is None && after.knocker_v() is Some ==> {
        &&& after.knocker_v() == Some(before.turn_v())
        &&& before.phase_v() == Phase::Discard
    }
}

/// What every action keeps, whether it succeeds or not: the rules, the
/// dealer, and the opening upcard (and so the knock limit); a finished round
/// exactly as it was; soundness; the knocker's history; and the layoffs,
/// which only grow, by cards of the acting defender's hand at the layoff
/// step that leave that hand.
pub open spec fn action_step(before: Round, after: Round) -> bool {
    &&& after.same_table(before)
    &&& before.result_v() is Some ==> after == before
    &&& before.sound() ==> after.sound()
    &&& knocker_step(before, after)
    &&& subset(before.laid_off_v(), after.laid_off_v())
    &&& forall|p: int|
        #[trigger] bit(after.laid_off_v(), p) && !bit(before.laid_off_v(), p) ==> {
            &&& before.phase_v() == Phase::Layoff
            &&& bit(before.acting_hand().bits(), p)
            &&& !bit(after.acting_hand().bits(), p)
            &&& after.turn_v() == before.turn_v()
        }
}

/// Whether a deal's hands, upcard, and stock hold no card twice
pub open spec fn deal_distinct(h0: u64, h1: u64, up: Card, stock: Seq<Card>) -> bool {
    &&& disjoint(h0, h1)
    &&& !bit(h0 | h1, up.pos())
    &&& forall|i: int|
        0 <= i < stock.len() ==> !bit(h0 | h1, #[trigger] stock[i].pos()) && stock[i] != up
    &&& stock.no_duplicates()
}

impl Round {
    /// Construct a round from a fixed initial deal
    ///
    /// `stock` is face-down draw order: the *last* element is drawn first.
    /// The upcard starts the discard pile, and the non-dealer moves first.
    /// A deal of hands holding only deck cards places every card of the
    /// deck exactly once.
    pub fn from_deal(
        rules: Rules,
        dealer: Player,
        hands: [Hand; 2],
        upcard: Card,
        stock: Vec<Card>,
    ) -> (r: Result<Round, DealError>)
        ensures
            count(hands@[0].bits()) != 10 || count(hands@[1].bits()) != 10 ==> r == Err::<
                Round,
                DealError,
            >(DealError::WrongHandSize),
            count(hands@[0].bits()) == 10 && count(hands@[1].bits()) == 10 && stock@.len() != 31
                ==> r == Err::<Round, DealError>(DealError::WrongStockSize),
            count(hands@[0].bits()) == 10 && count(hands@[1].bits()) == 10 && stock@.len() == 31
                && !deal_distinct(hands@[0].bits(), hands@[1].bits(), upcard, stock@) ==> r
                == Err::<Round, DealError>(DealError::RepeatedCard),
            count(hands@[0].bits()) == 10 && count(hands@[1].bits()) == 10 && stock@.len() == 31
                && deal_distinct(hands@[0].bits(), hands@[1].bits(), upcard, stock@) ==> (r matches Ok(
                round) && round.wf() && round.rules_v() == rules && round.dealer_v() == dealer
                && round.hand_v(Player::One) == hands@[0] && round.hand_v(Player::Two) == hands@[1]
                && round.stock_v() == stock@ && round.discards_v() == seq![upcard]
                && round.upcard_v() == upcard && round.phase_v() == Phase::Upcard
                && round.turn_v() == dealer.spec_opponent() && round.passes_v() == 0
                && !round.forced_v() && round.taken_v() is None && round.knocker_v() is None
                && round.result_v() is None && (subset(hands@[0].bits(), ALL_BITS) && subset(
                hands@[1].bits(),
                ALL_BITS,
            ) ==> round.sound())),
    {
        if hands[0].len() != 10 || hands[1].len() != 10 {
            return Err(DealError::WrongHandSize);
        }
        if stock.len() != 31 {
            return Err(DealError::WrongStockSize);
        }
        let h0 = hands[0].to_bits();
        let h1 = hands[1].to_bits();
        let ghost both = h0 | h1;
        if h0 & h1 != 0 {
            proof {
                let p = crate::bits::lemma_some_bit(h0 & h1);
                assert(bit(h0 & h1, p));
            }
            return Err(DealError::RepeatedCard);
        }
        proof {
            assert forall|q: int| !(#[trigger] bit(h0, q) && bit(h1, q)) by {
                assert(!bit(h0 & h1, q));
            }
            crate::bits::lemma_count_disjoint_union(h0, h1);
        }
        let mut seen = Hand::from_bits_retain(h0 | h1);
        let up = upcard.position();
        if !seen.insert(upcard) {
            return Err(DealError::RepeatedCard);
        }
        proof {
            crate::bits::lemma_count_insert(both, up as int);
        }
        let n = stock.len();
        let mut i: usize = 0;
        while i < n
            invariant
                n == stock@.len(),
                n == 31,
                i <= n,
                h0 == hands@[0].bits(),
                h1 == hands@[1].bits(),
                count(h0) == 10,
                count(h1) == 10,
                both == h0 | h1,
                disjoint(h0, h1),
                up == upcard.pos(),
                !bit(both, up as int),
                forall|p: int| #[trigger] bit(seen.bits(), p) <==> (bit(both, p) || p == up
                    || exists|j: int| 0 <= j < i && stock@[j].pos() == p),
                forall|j: int|
                    0 <= j < i ==> !bit(both, #[trigger] stock@[j].pos()) && stock@[j] != upcard,
                forall|j: int, k: int| 0 <= j < k < i ==> stock@[j] != stock@[k],
                count(seen.bits()) == 21 + i,
                subset(both, ALL_BITS) ==> subset(seen.bits(), ALL_BITS),
            decreases n - i,
        {
            let card = stock[i];
            let ghost before = seen.bits();
            let q = card.position();
            if !seen.insert(card) {
                proof {
                    assert(bit(before, q as int));
                    if !bit(both, q as int) {
                        if q == up {
                            crate::hand::lemma_pos_injective(card, upcard);
                        } else {
                            let j = choose|j: int| 0 <= j < i && stock@[j].pos() == q;
                            crate::hand::lemma_pos_injective(card, stock@[j]);
                            assert(!stock@.no_duplicates()) by {
                                assert(stock@[j] == stock@[i as int]);
                            }
                        }
                    }
                }
                return Err(DealError::RepeatedCard);
            }
            proof {
                crate::bits::lemma_count_insert(before, q as int);
                assert(card != upcard);
                assert forall|j: int| 0 <= j < i implies stock@[j] != card by {
                    if stock@[j] == card {
                        assert(bit(before, q as int));
                    }
                }
                assert forall|p: int| #[trigger] bit(seen.bits(), p) <==> (bit(both, p) || p == up
                    || exists|j: int| 0 <= j < i + 1 && stock@[j].pos() == p) by {
                    if exists|j: int| 0 <= j < i + 1 && stock@[j].pos() == p {
                        let j = choose|j: int| 0 <= j < i + 1 && stock@[j].pos() == p;
                        if j < i {
                            assert(bit(before, p));
                        }
                    }
                }
            }
            i += 1;
        }
        proof {
            assert(deal_distinct(h0, h1, upcard, stock@));
        }
        let round = Round {
            rules,
            dealer,
            hands,
            stock,
            discards: vec![upcard],
            initial_upcard: upcard,
            phase: Phase::Upcard,
            turn: dealer.opponent(),
            passes: 0,
            forced_stock: false,
            taken_discard: None,
            knock: None,
            result: None,
        };
        proof {
            if subset(h0, ALL_BITS) && subset(h1, ALL_BITS) {
                let x = seen.bits();
                let cs = stock@ + seq![upcard];
                assert(subset(both, ALL_BITS));
                crate::bits::lemma_count_all();
                if x != ALL_BITS {
                    crate::bits::lemma_count_strict(x, ALL_BITS);
                }
                assert(round.discards_v() == seq![upcard]);
                assert(round.stock_v() + round.discards_v() == cs);
                assert forall|a: int, b: int| 0 <= a < b < cs.len() implies cs[a] != cs[b] by {
                    if b < 31 {
                        assert(stock@[a] != stock@[b]);
                    } else {
                        assert(stock@[a] != upcard);
                    }
                }
                assert forall|c: Card| #[trigger] slot_count(h0, h1, cs, 0, c) == 1 by {
                    crate::hand::lemma_card(c);
                    let p = c.pos();
                    assert(bit(x, p));
                    if cs.contains(c) {
                        let j = choose|j: int| 0 <= j < cs.len() && cs[j] == c;
                        if j < 31 {
                            assert(stock@[j] == c);
                            assert(!bit(both, p));
                        } else {
                            assert(c == upcard);
                        }
                    } else if !bit(both, p) {
                        if p == up {
                            crate::hand::lemma_pos_injective(c, upcard);
                            assert(cs[31] == c);
                        } else {
                            let j = choose|j: int| 0 <= j < 31 && stock@[j].pos() == p;
                            crate::hand::lemma_card(stock@[j]);
                            crate::hand::lemma_pos_injective(c, stock@[j]);
                            assert(cs[j] == c);
                        }
                    }
                }
                assert(partitions(h0, h1, cs, 0));
                assert(round.snapshot().error() is None);
            }
        }
        Ok(round)
    }
}

/// The result of a knock settled against the defender's deadwood `dd`: an
/// undercut when the defender has less deadwood than the knocker's `kd`, or
/// as much under `tie_undercuts`; otherwise a knock won by the difference.
pub open spec fn settle(knocker: Player, kd: int, dd: int, tie_undercuts: bool) -> RoundResult {
    if dd < kd || (dd == kd && tie_undercuts) {
        RoundResult::Undercut { winner: knocker.spec_opponent(), margin: (kd - dd) as u8 }
    } else {
        RoundResult::Knock { winner: knocker, margin: (dd - kd) as u8 }
    }
}

impl Round {
    /// The rules, dealer, and opening upcard agree.
    pub open spec fn same_table(self, o: Round) -> bool {
        &&& self.rules_v() == o.rules_v()
        &&& self.dealer_v() == o.dealer_v()
        &&& self.upcard_v() == o.upcard_v()
    }

    /// The hands, stock, and discard pile agree.
    pub open spec fn same_cards(self, o: Round) -> bool {
        &&& self.hand_v(Player::One) == o.hand_v(Player::One)
        &&& self.hand_v(Player::Two) == o.hand_v(Player::Two)
        &&& self.stock_v() == o.stock_v()
        &&& self.discards_v() == o.discards_v()
    }

    /// The knock, its spread, and the layoffs agree.
    pub open spec fn same_knock(self, o: Round) -> bool {
        &&& self.knocker_v() == o.knocker_v()
        &&& self.spread_v() == o.spread_v()
        &&& self.knocker_deadwood_v() == o.knocker_deadwood_v()
        &&& self.laid_off_v() == o.laid_off_v()
    }

    /// The hand of the player to act.
    pub open spec fn acting_hand(self) -> Hand {
        self.hand_v(self.turn_v())
    }

    /// The hand of the player not to act.
    pub open spec fn idle_hand(self) -> Hand {
        self.hand_v(self.turn_v().spec_opponent())
    }

    /// Shuffle and deal a fresh round: 10 cards to each player, an upcard,
    /// and a randomly ordered 31-card stock
    ///
    /// Whatever the generator picks, the deal places every card of the
    /// deck exactly once and the round starts at the upcard offer.
    pub fn deal(rules: Rules, dealer: Player, rng: &mut rand::rngs::StdRng) -> (r: Round)
        ensures
            r.sound(),
            r.rules_v() == rules,
            r.dealer_v() == dealer,
            r.phase_v() == Phase::Upcard,
            r.turn_v() == dealer.spec_opponent(),
            r.passes_v() == 0,
            r.stock_v().len() == 31,
            r.discards_v() == seq![r.upcard_v()],
            count(r.hand_v(Player::One).bits()) == 10,
            count(r.hand_v(Player::Two).bits()) == 10,
    {
        let mut deck = Deck::ALL();
        proof {
            crate::bits::lemma_count_all();
        }
        let first = deck.draw(rng, 10);
        let second = deck.draw(rng, 10);
        let ghost rest = deck.bits();
        proof {
            assert(subset(first.bits(), ALL_BITS));
            assert(subset(second.bits(), ALL_BITS));
            crate::bits::lemma_count_disjoint_union(first.bits(), second.bits());
            crate::bits::lemma_count_disjoint_union(first.bits() | second.bits(), rest);
            assert forall|p: int| 0 <= p < 64 implies #[trigger] bit(
                (first.bits() | second.bits()) | rest,
                p,
            ) == bit(ALL_BITS, p) by {}
            crate::bits::lemma_bits_ext((first.bits() | second.bits()) | rest, ALL_BITS);
            assert(count(rest) == 32);
            crate::bits::lemma_count_zero();
        }
        let upcard = deck.pop(rng).expect("32 cards remain after the hands");
        let ghost both = first.bits() | second.bits();
        let mut stock: Vec<Card> = Vec::new();
        loop
            invariant
                subset(deck.bits(), ALL_BITS),
                stock@.len() + count(deck.bits()) == 31,
                forall|p: int| #[trigger] bit(deck.bits(), p) ==> !bit(both, p) && p != upcard.pos(),
                forall|j: int|
                    0 <= j < stock@.len() ==> !bit(both, #[trigger] stock@[j].pos()) && stock@[j]
                        != upcard && !bit(deck.bits(), stock@[j].pos()),
                stock@.no_duplicates(),
                !bit(both, upcard.pos()),
                disjoint(first.bits(), second.bits()),
                both == first.bits() | second.bits(),
            ensures
                deck.bits() == 0,
                stock@.len() == 31,
                forall|j: int|
                    0 <= j < stock@.len() ==> !bit(both, #[trigger] stock@[j].pos()) && stock@[j]
                        != upcard,
                stock@.no_duplicates(),
            decreases count(deck.bits()),
        {
            let ghost before = deck.bits();
            match deck.pop(rng) {
                Some(card) => {
                    proof {
                        assert forall|j: int| 0 <= j < stock@.len() implies stock@[j] != card by {
                            if stock@[j] == card {
                                assert(!bit(before, stock@[j].pos()));
                            }
                        }
                    }
                    stock.push(card);
                    proof {
                        assert forall|j: int| 0 <= j < stock@.len() implies !bit(
                            both,
                            #[trigger] stock@[j].pos(),
                        ) && stock@[j] != upcard && !bit(deck.bits(), stock@[j].pos()) by {
                            if j < stock@.len() - 1 {
                                assert(!bit(before, stock@[j].pos()));
                            } else {
                                assert(stock@[j] == card);
                                assert(bit(before, card.pos()));
                            }
                        }
                    }
                },
                None => {
                    proof {
                        crate::bits::lemma_count_zero();
                    }
                    break;
                },
            }
        }
        let hands = [first, second];
        proof {
            assert(deal_distinct(first.bits(), second.bits(), upcard, stock@));
        }
        Round::from_deal(rules, dealer, hands, upcard, stock).expect(
            "a fresh deck deals disjoint cards",
        )
    }

    /// The scoring rules of this round
    pub fn rules(&self) -> (r: &Rules)
        ensures
            *r == self.rules_v(),
    {
        &self.rules
    }

    /// The dealer of this round
    pub fn dealer(&self) -> (p: Player)
        ensures
            p == self.dealer_v(),
    {
        self.dealer
    }

    /// The non-dealer, who receives the first upcard offer
    pub fn non_dealer(&self) -> (p: Player)
        ensures
            p == self.dealer_v().spec_opponent(),
    {
        self.dealer.opponent()
    }

    /// The current phase
    pub fn phase(&self) -> (ph: Phase)
        ensures
            ph == self.phase_v(),
    {
        self.phase
    }

    /// The player to act, or `None` once the round is finished
    ///
    /// During the layoff phase this is the defender.
    pub fn turn(&self) -> (p: Option<Player>)
        ensures
            p == (if self.phase_v() == Phase::Finished {
                None
            } else {
                Some(self.turn_v())
            }),
    {
        match self.phase {
            Phase::Finished => None,
            _ => Some(self.turn),
        }
    }

    /// The hand of a player
    ///
    /// Both hands are visible by design; bots enforce their own information
    /// hygiene.
    pub fn hand(&self, player: Player) -> (h: Hand)
        ensures
            h == self.hand_v(player),
    {
        self.hands[player.index()]
    }

    /// The discard pile; the top card is the last element
    pub fn discard_pile(&self) -> (s: &[Card])
        ensures
            s@ == self.discards_v(),
    {
        self.discards.as_slice()
    }

    /// The face-down stock; the top card is the last element
    ///
    /// The full order is visible by design; bots enforce their own
    /// information hygiene.
    pub fn stock(&self) -> (s: &[Card])
        ensures
            s@ == self.stock_v(),
    {
        self.stock.as_slice()
    }

    /// The knock limit in effect for this round
    ///
    /// [`Rules::knock_limit`], capped by the opening upcard's value under
    /// an Oklahoma ruleset ([`Rules::oklahoma`]).  Read the limit here
    /// rather than from the rules.
    pub fn knock_limit(&self) -> (l: u8)
        ensures
            l == self.knock_limit_v(),
    {
        self.rules.knock_limit_for(self.initial_upcard)
    }

    /// The opening upcard that seeded the discard pile
    ///
    /// Remembered even after the card is drawn; under [`Rules::oklahoma`]
    /// it sets [`knock_limit`](Self::knock_limit).
    pub fn initial_upcard(&self) -> (c: Card)
        ensures
            c == self.upcard_v(),
    {
        self.initial_upcard
    }

    /// The player who knocked or declared big gin, if any
    pub fn knocker(&self) -> (p: Option<Player>)
        ensures
            p == self.knocker_v(),
    {
        match &self.knock {
            Some(state) => Some(state.knocker),
            None => None,
        }
    }

    /// The knocker's spread, extended by any layoffs so far
    ///
    /// Empty before a knock.
    pub fn spread(&self) -> (v: Vec<Meld>)
        ensures
            v@ == flatten_slots(self.spread_v()),
            self.knocker_v() is None ==> v@.len() == 0,
    {
        let mut v: Vec<Meld> = Vec::new();
        if let Some(state) = &self.knock {
            if let Some(m) = state.spread[0] {
                v.push(m);
            }
            if let Some(m) = state.spread[1] {
                v.push(m);
            }
            if let Some(m) = state.spread[2] {
                v.push(m);
            }
        }
        proof {
            assert(v@ =~= flatten_slots(self.spread_v()));
        }
        v
    }

    /// The cards the defender has laid off onto the spread
    pub fn laid_off(&self) -> (h: Hand)
        ensures
            h.bits() == self.laid_off_v(),
            self.knocker_v() is None ==> h.bits() == 0,
    {
        match &self.knock {
            Some(state) => state.laid_off,
            None => Hand::EMPTY(),
        }
    }

    /// The outcome, or `None` while the round is in play
    pub fn result(&self) -> (r: Option<RoundResult>)
        ensures
            r == self.result_v(),
    {
        self.result
    }

    /// Check that the round is in `phase`.
    fn expect_phase(&self, phase: Phase) -> (r: Result<(), RoundError>)
        ensures
            r == if self.phase_v() == phase {
                Ok::<(), RoundError>(())
            } else {
                Err(RoundError::WrongPhase(self.phase_v()))
            },
    {
        if self.phase == phase {
            Ok(())
        } else {
            Err(RoundError::WrongPhase(self.phase))
        }
    }

    /// Decline the initial upcard
    ///
    /// The offer moves from the non-dealer to the dealer; when both pass,
    /// the non-dealer must open by drawing from the stock.
    pub fn pass(&mut self) -> (r: Result<(), RoundError>)
        requires
            old(self).wf(),
        ensures
            final(self).wf(),
            knocker_step(*old(self), *final(self)),
            action_step(*old(self), *final(self)),
            old(self).sound() ==> final(self).sound(),
            old(self).phase_v() != Phase::Upcard ==> r == Err::<(), RoundError>(
                RoundError::WrongPhase(old(self).phase_v()),
            ) && *final(self) == *old(self),
            old(self).phase_v() == Phase::Upcard ==> {
                &&& r is Ok
                &&& final(self).same_table(*old(self))
                &&& final(self).same_cards(*old(self))
                &&& final(self).same_knock(*old(self))
                &&& final(self).passes_v() == old(self).passes_v() + 1
                &&& if old(self).passes_v() == 1 {
                    &&& final(self).phase_v() == Phase::Draw
                    &&& final(self).turn_v() == old(self).dealer_v().spec_opponent()
                    &&& final(self).forced_v()
                } else {
                    &&& final(self).phase_v() == Phase::Upcard
                    &&& final(self).turn_v() == old(self).dealer_v()
                    &&& !final(self).forced_v()
                }
                &&& final(self).taken_v() == old(self).taken_v()
                &&& final(self).result_v() == old(self).result_v()
            },
    {
        if let Err(e) = self.expect_phase(Phase::Upcard) {
            return Err(e);
        }
        self.passes = self.passes + 1;
        if self.passes == 2 {
            self.turn = self.non_dealer();
            self.phase = Phase::Draw;
            self.forced_stock = true;
        } else {
            self.turn = self.dealer;
        }
        Ok(())
    }

    /// Take the top of the discard pile, returning the card
    ///
    /// Available as the upcard decision and as the draw of a normal turn.
    pub fn take_discard(&mut self) -> (r: Result<Card, RoundError>)
        requires
            old(self).wf(),
        ensures
            final(self).wf(),
            knocker_step(*old(self), *final(self)),
            action_step(*old(self), *final(self)),
            old(self).sound() ==> final(self).sound(),
            old(self).phase_v() == Phase::Draw && old(self).forced_v() ==> r == Err::<
                Card,
                RoundError,
            >(RoundError::MustDrawFromStock) && *final(self) == *old(self),
            old(self).phase_v() != Phase::Upcard && old(self).phase_v() != Phase::Draw ==> r
                == Err::<Card, RoundError>(RoundError::WrongPhase(old(self).phase_v()))
                && *final(self) == *old(self),
            old(self).phase_v() == Phase::Upcard || (old(self).phase_v() == Phase::Draw && !old(
                self,
            ).forced_v()) ==> {
                &&& r == Ok::<Card, RoundError>(old(self).discards_v().last())
                &&& final(self).same_table(*old(self))
                &&& final(self).same_knock(*old(self))
                &&& final(self).discards_v() == old(self).discards_v().drop_last()
                &&& final(self).stock_v() == old(self).stock_v()
                &&& final(self).acting_hand().bits() == old(self).acting_hand().bits() | card_bit(
                    old(self).discards_v().last(),
                )
                &&& final(self).idle_hand() == old(self).idle_hand()
                &&& final(self).taken_v() == Some(old(self).discards_v().last())
                &&& final(self).phase_v() == Phase::Discard
                &&& final(self).turn_v() == old(self).turn_v()
                &&& final(self).passes_v() == old(self).passes_v()
                &&& final(self).forced_v() == old(self).forced_v()
                &&& final(self).result_v() == old(self).result_v()
            },
    {
        match self.phase {
            Phase::Draw => {
                if self.forced_stock {
                    return Err(RoundError::MustDrawFromStock);
                }
            },
            Phase::Upcard => {},
            _ => {
                return Err(RoundError::WrongPhase(self.phase));
            },
        }
        let ghost before = *self;
        let card = self.discards.pop().unwrap();
        let mut h = self.hands[self.turn.index()];
        h.insert(card);
        self.hands = with_hand(self.hands, self.turn, h);
        self.taken_discard = Some(card);
        self.phase = Phase::Discard;
        proof {
            if before.sound() {
                let cs = before.stock_v() + before.discards_v();
                let k = cs.len() - 1;
                assert(cs.remove(k) =~= self.stock_v() + self.discards_v());
                assert(cs[k] == card);
                lemma_gain(before, *self, cs, k);
            }
        }
        Ok(card)
    }

    /// Draw the top of the stock, returning the card
    pub fn draw_stock(&mut self) -> (r: Result<Card, RoundError>)
        requires
            old(self).wf(),
        ensures
            final(self).wf(),
            knocker_step(*old(self), *final(self)),
            action_step(*old(self), *final(self)),
            old(self).sound() ==> final(self).sound(),
            old(self).phase_v() != Phase::Draw ==> r == Err::<Card, RoundError>(
                RoundError::WrongPhase(old(self).phase_v()),
            ) && *final(self) == *old(self),
            old(self).phase_v() == Phase::Draw ==> {
                &&& r == Ok::<Card, RoundError>(old(self).stock_v().last())
                &&& final(self).same_table(*old(self))
                &&& final(self).same_knock(*old(self))
                &&& final(self).stock_v() == old(self).stock_v().drop_last()
                &&& final(self).discards_v() == old(self).discards_v()
                &&& final(self).acting_hand().bits() == old(self).acting_hand().bits() | card_bit(
                    old(self).stock_v().last(),
                )
                &&& final(self).idle_hand() == old(self).idle_hand()
                &&& final(self).taken_v() == old(self).taken_v()
                &&& final(self).phase_v() == Phase::Discard
                &&& final(self).turn_v() == old(self).turn_v()
                &&& final(self).passes_v() == old(self).passes_v()
                &&& !final(self).forced_v()
                &&& final(self).result_v() == old(self).result_v()
            },
    {
        if let Err(e) = self.expect_phase(Phase::Draw) {
            return Err(e);
        }
        let ghost before = *self;
        let card = self.stock.pop().unwrap();
        let mut h = self.hands[self.turn.index()];
        h.insert(card);
        self.hands = with_hand(self.hands, self.turn, h);
        self.forced_stock = false;
        self.phase = Phase::Discard;
        proof {
            if before.sound() {
                let cs = before.stock_v() + before.discards_v();
                let k = before.stock_v().len() - 1;
                assert(cs.remove(k) =~= self.stock_v() + self.discards_v());
                assert(cs[k] == card);
                lemma_gain(before, *self, cs, k);
            }
        }
        Ok(card)
    }

    /// Check that `card` may leave the hand as this turn's discard.
    fn expect_sheddable(&self, card: Card) -> (r: Result<(), RoundError>)
        ensures
            r == if !self.acting_hand().has(card) {
                Err::<(), RoundError>(RoundError::NotInHand(card))
            } else if self.taken_v() == Some(card) {
                Err(RoundError::DiscardJustTaken(card))
            } else {
                Ok(())
            },
    {
        if !self.hands[self.turn.index()].contains(card) {
            return Err(RoundError::NotInHand(card));
        }
        if self.taken_discard == Some(card) {
            return Err(RoundError::DiscardJustTaken(card));
        }
        Ok(())
    }

    /// Move `card` from the acting hand to the discard pile.
    fn shed(&mut self, card: Card)
        ensures
            final(self).acting_hand().bits() == old(self).acting_hand().bits() & !card_bit(card),
            final(self).idle_hand() == old(self).idle_hand(),
            final(self).discards_v() == old(self).discards_v().push(card),
            final(self).taken_v() is None,
            final(self).stock_v() == old(self).stock_v(),
            final(self).same_table(*old(self)),
            final(self).same_knock(*old(self)),
            final(self).phase_v() == old(self).phase_v(),
            final(self).turn_v() == old(self).turn_v(),
            final(self).passes_v() == old(self).passes_v(),
            final(self).forced_v() == old(self).forced_v(),
            final(self).result_v() == old(self).result_v(),
    {
        let mut h = self.hands[self.turn.index()];
        h.remove(card);
        self.hands = with_hand(self.hands, self.turn, h);
        self.discards.push(card);
        self.taken_discard = None;
    }

    /// Discard a card, ending the turn
    ///
    /// If this leaves two cards in the stock, the round ends as a dead
    /// hand: nobody scores and the same dealer redeals.
    pub fn discard(&mut self, card: Card) -> (r: Result<(), RoundError>)
        requires
            old(self).wf(),
        ensures
            final(self).wf(),
            knocker_step(*old(self), *final(self)),
            action_step(*old(self), *final(self)),
            old(self).sound() ==> final(self).sound(),
            old(self).phase_v() != Phase::Discard ==> r == Err::<(), RoundError>(
                RoundError::WrongPhase(old(self).phase_v()),
            ) && *final(self) == *old(self),
            old(self).phase_v() == Phase::Discard && !old(self).acting_hand().has(card) ==> r
                == Err::<(), RoundError>(RoundError::NotInHand(card)) && *final(self) == *old(self),
            old(self).phase_v() == Phase::Discard && old(self).acting_hand().has(card) && old(
                self,
            ).taken_v() == Some(card) ==> r == Err::<(), RoundError>(
                RoundError::DiscardJustTaken(card),
            ) && *final(self) == *old(self),
            old(self).phase_v() == Phase::Discard && old(self).acting_hand().has(card) && old(
                self,
            ).taken_v() != Some(card) ==> {
                &&& r is Ok
                &&& final(self).same_table(*old(self))
                &&& final(self).same_knock(*old(self))
                &&& final(self).hand_v(old(self).turn_v()).bits() == old(self).acting_hand().bits()
                    & !card_bit(card)
                &&& final(self).hand_v(old(self).turn_v().spec_opponent()) == old(self).idle_hand()
                &&& final(self).discards_v() == old(self).discards_v().push(card)
                &&& final(self).stock_v() == old(self).stock_v()
                &&& final(self).taken_v() is None
                &&& final(self).passes_v() == old(self).passes_v()
                &&& final(self).forced_v() == old(self).forced_v()
                &&& if old(self).stock_v().len() == 2 {
                    &&& final(self).phase_v() == Phase::Finished
                    &&& final(self).result_v() == Some(RoundResult::Dead)
                    &&& final(self).turn_v() == old(self).turn_v()
                } else {
                    &&& final(self).phase_v() == Phase::Draw
                    &&& final(self).result_v() is None
                    &&& final(self).turn_v() == old(self).turn_v().spec_opponent()
                }
            },
    {
        if let Err(e) = self.expect_phase(Phase::Discard) {
            return Err(e);
        }
        if let Err(e) = self.expect_sheddable(card) {
            return Err(e);
        }
        let ghost before = *self;
        self.shed(card);
        proof {
            if before.sound() {
                lemma_shed(before, *self, card);
            }
        }
        if self.stock.len() == 2 {
            self.result = Some(RoundResult::Dead);
            self.phase = Phase::Finished;
        } else {
            self.turn = self.turn.opponent();
            self.phase = Phase::Draw;
        }
        Ok(())
    }

    /// Discard a card and knock, spreading the given arrangement
    ///
    /// The knocker chooses the arrangement — it decides what the defender
    /// may lay off — so it is passed explicitly; `best_melds(hand - card)`
    /// recovers the automatic choice.
    ///
    /// An arrangement with zero deadwood is **gin**: the defender may not
    /// lay off, and the round finishes immediately.  Otherwise the round
    /// enters the layoff phase.
    pub fn knock(&mut self, card: Card, melds: Melds) -> (r: Result<(), RoundError>)
        requires
            old(self).wf(),
        ensures
            final(self).wf(),
            knocker_step(*old(self), *final(self)),
            action_step(*old(self), *final(self)),
            old(self).sound() ==> final(self).sound(),
            old(self).phase_v() != Phase::Discard ==> r == Err::<(), RoundError>(
                RoundError::WrongPhase(old(self).phase_v()),
            ) && *final(self) == *old(self),
            old(self).phase_v() == Phase::Discard && !old(self).acting_hand().has(card) ==> r
                == Err::<(), RoundError>(RoundError::NotInHand(card)) && *final(self) == *old(self),
            old(self).phase_v() == Phase::Discard && old(self).acting_hand().has(card) && old(
                self,
            ).taken_v() == Some(card) ==> r == Err::<(), RoundError>(
                RoundError::DiscardJustTaken(card),
            ) && *final(self) == *old(self),
            old(self).phase_v() == Phase::Discard && old(self).acting_hand().has(card) && old(
                self,
            ).taken_v() != Some(card) && melds.hand_bits() != old(self).acting_hand().bits()
                & !card_bit(card) ==> r == Err::<(), RoundError>(RoundError::MeldsMismatch)
                && *final(self) == *old(self),
            old(self).phase_v() == Phase::Discard && old(self).acting_hand().has(card) && old(
                self,
            ).taken_v() != Some(card) && melds.hand_bits() == old(self).acting_hand().bits()
                & !card_bit(card) && melds.value() > old(self).knock_limit_v() ==> r == Err::<
                (),
                RoundError,
            >(
                RoundError::TooMuchDeadwood {
                    deadwood: melds.value() as u8,
                    limit: old(self).knock_limit_v() as u8,
                },
            ) && *final(self) == *old(self),
            old(self).phase_v() == Phase::Discard && old(self).acting_hand().has(card) && old(
                self,
            ).taken_v() != Some(card) && melds.hand_bits() == old(self).acting_hand().bits()
                & !card_bit(card) && melds.value() <= old(self).knock_limit_v() ==> {
                &&& r is Ok
                &&& final(self).same_table(*old(self))
                &&& final(self).hand_v(old(self).turn_v()).bits() == melds.hand_bits()
                &&& final(self).hand_v(old(self).turn_v().spec_opponent()) == old(self).idle_hand()
                &&& final(self).discards_v() == old(self).discards_v().push(card)
                &&& final(self).stock_v() == old(self).stock_v()
                &&& final(self).taken_v() is None
                &&& final(self).passes_v() == old(self).passes_v()
                &&& final(self).forced_v() == old(self).forced_v()
                &&& final(self).knocker_v() == Some(old(self).turn_v())
                &&& final(self).spread_v() == melds.slots()
                &&& final(self).knocker_deadwood_v() == melds.value()
                &&& final(self).laid_off_v() == 0
                &&& if melds.value() == 0 {
                    &&& final(self).phase_v() == Phase::Finished
                    &&& final(self).result_v() == Some(
                        RoundResult::Gin {
                            winner: old(self).turn_v(),
                            deadwood: min_deadwood(old(self).idle_hand().bits()) as u8,
                        },
                    )
                    &&& final(self).turn_v() == old(self).turn_v()
                } else {
                    &&& final(self).phase_v() == Phase::Layoff
                    &&& final(self).result_v() is None
                    &&& final(self).turn_v() == old(self).turn_v().spec_opponent()
                }
            },
    {
        if let Err(e) = self.expect_phase(Phase::Discard) {
            return Err(e);
        }
        if let Err(e) = self.expect_sheddable(card) {
            return Err(e);
        }
        let rest = self.hands[self.turn.index()] - Hand::from(card);
        let arranged = melds.hand();
        if arranged != rest {
            proof {
                if arranged.bits() == rest.bits() {
                    crate::hand::lemma_hand_eq(arranged, rest);
                }
            }
            return Err(RoundError::MeldsMismatch);
        }
        let knocker_deadwood = melds.deadwood();
        if knocker_deadwood > self.knock_limit() {
            return Err(RoundError::TooMuchDeadwood { deadwood: knocker_deadwood, limit: self.knock_limit() });
        }
        melds.check_valid();
        let ghost before = *self;
        self.shed(card);
        let ghost mid = *self;
        let knocker = self.turn;
        self.knock = Some(
            KnockState {
                knocker,
                spread: melds.into_array(),
                knocker_deadwood,
                laid_off: Hand::EMPTY(),
            },
        );
        if knocker_deadwood == 0 {
            let loser = deadwood(self.hands[knocker.opponent().index()]);
            self.result = Some(RoundResult::Gin { winner: knocker, deadwood: loser });
            self.phase = Phase::Finished;
        } else {
            self.turn = knocker.opponent();
            self.phase = Phase::Layoff;
        }
        proof {
            if before.sound() {
                lemma_shed(before, mid, card);
                lemma_spread(melds, knocker);
                crate::bits::lemma_count_zero();
            }
        }
        Ok(())
    }

    /// Declare big gin: all 11 cards melded, no discard
    ///
    /// The defender may not lay off, and the round finishes immediately.
    /// Declaring is never forced — nor ever a trap: an 11-card fully-melded
    /// hand always contains a meld of four or more cards, which can shed a
    /// card, so plain gin remains available when the rules disable big gin.
    pub fn declare_big_gin(&mut self, melds: Melds) -> (r: Result<(), RoundError>)
        requires
            old(self).wf(),
        ensures
            final(self).wf(),
            knocker_step(*old(self), *final(self)),
            action_step(*old(self), *final(self)),
            old(self).sound() ==> final(self).sound(),
            old(self).phase_v() != Phase::Discard ==> r == Err::<(), RoundError>(
                RoundError::WrongPhase(old(self).phase_v()),
            ) && *final(self) == *old(self),
            old(self).phase_v() == Phase::Discard && old(self).rules_v().big_gin_bonus is None ==> r
                == Err::<(), RoundError>(RoundError::BigGinDisabled) && *final(self) == *old(self),
            old(self).phase_v() == Phase::Discard && old(self).rules_v().big_gin_bonus is Some
                && melds.hand_bits() != old(self).acting_hand().bits() ==> r == Err::<
                (),
                RoundError,
            >(RoundError::MeldsMismatch) && *final(self) == *old(self),
            old(self).phase_v() == Phase::Discard && old(self).rules_v().big_gin_bonus is Some
                && melds.hand_bits() == old(self).acting_hand().bits() && melds.value() != 0 ==> r
                == Err::<(), RoundError>(RoundError::NotBigGin) && *final(self) == *old(self),
            old(self).phase_v() == Phase::Discard && old(self).rules_v().big_gin_bonus is Some
                && melds.hand_bits() == old(self).acting_hand().bits() && melds.value() == 0 ==> {
                &&& r is Ok
                &&& final(self).same_table(*old(self))
                &&& final(self).same_cards(*old(self))
                &&& final(self).taken_v() is None
                &&& final(self).passes_v() == old(self).passes_v()
                &&& final(self).forced_v() == old(self).forced_v()
                &&& final(self).knocker_v() == Some(old(self).turn_v())
                &&& final(self).spread_v() == melds.slots()
                &&& final(self).knocker_deadwood_v() == 0
                &&& final(self).laid_off_v() == 0
                &&& final(self).phase_v() == Phase::Finished
                &&& final(self).turn_v() == old(self).turn_v()
                &&& final(self).result_v() == Some(
                    RoundResult::BigGin {
                        winner: old(self).turn_v(),
                        deadwood: min_deadwood(old(self).idle_hand().bits()) as u8,
                    },
                )
            },
    {
        if let Err(e) = self.expect_phase(Phase::Discard) {
            return Err(e);
        }
        if self.rules.big_gin_bonus.is_none() {
            return Err(RoundError::BigGinDisabled);
        }
        let whole = self.hands[self.turn.index()];
        let arranged = melds.hand();
        if arranged != whole {
            proof {
                if arranged.bits() == whole.bits() {
                    crate::hand::lemma_hand_eq(arranged, whole);
                }
            }
            return Err(RoundError::MeldsMismatch);
        }
        if melds.deadwood() != 0 {
            return Err(RoundError::NotBigGin);
        }
        let winner = self.turn;
        self.taken_discard = None;
        self.knock = Some(
            KnockState {
                knocker: winner,
                spread: melds.into_array(),
                knocker_deadwood: 0,
                laid_off: Hand::EMPTY(),
            },
        );
        let loser = deadwood(self.hands[winner.opponent().index()]);
        self.result = Some(RoundResult::BigGin { winner, deadwood: loser });
        self.phase = Phase::Finished;
        melds.check_valid();
        proof {
            lemma_spread(melds, winner);
        }
        Ok(())
    }

    /// Lay off a card onto the meld at `index` in the knocker's spread
    ///
    /// Indices are stable across layoffs, so chained extensions — the ♠8
    /// then the ♠9 onto a 5-6-7 of spades — address the same meld.
    pub fn lay_off(&mut self, card: Card, index: usize) -> (r: Result<(), RoundError>)
        requires
            old(self).wf(),
        ensures
            final(self).wf(),
            knocker_step(*old(self), *final(self)),
            action_step(*old(self), *final(self)),
            old(self).sound() ==> final(self).sound(),
            old(self).phase_v() != Phase::Layoff ==> r == Err::<(), RoundError>(
                RoundError::WrongPhase(old(self).phase_v()),
            ) && *final(self) == *old(self),
            old(self).phase_v() == Phase::Layoff && !old(self).acting_hand().has(card) ==> r
                == Err::<(), RoundError>(RoundError::NotInHand(card)) && *final(self) == *old(self),
            old(self).phase_v() == Phase::Layoff && old(self).acting_hand().has(card) && (index >= 3
                || old(self).spread_v()[index as int] is None) ==> r == Err::<(), RoundError>(
                RoundError::NoSuchMeld(index),
            ) && *final(self) == *old(self),
            old(self).phase_v() == Phase::Layoff && old(self).acting_hand().has(card) && index < 3
                && old(self).spread_v()[index as int] is Some ==> {
                let m = old(self).spread_v()[index as int].unwrap();
                let grown = m.bits() | card_bit(card);
                if bit(m.bits(), card.pos()) || !crate::meld::is_meld_bits(grown) {
                    r == Err::<(), RoundError>(RoundError::CannotLayOff(card)) && *final(self)
                        == *old(self)
                } else {
                    &&& r is Ok
                    &&& final(self).same_table(*old(self))
                    &&& final(self).acting_hand().bits() == old(self).acting_hand().bits()
                        & !card_bit(card)
                    &&& final(self).idle_hand() == old(self).idle_hand()
                    &&& final(self).stock_v() == old(self).stock_v()
                    &&& final(self).discards_v() == old(self).discards_v()
                    &&& final(self).knocker_v() == old(self).knocker_v()
                    &&& final(self).knocker_deadwood_v() == old(self).knocker_deadwood_v()
                    &&& final(self).laid_off_v() == old(self).laid_off_v() | card_bit(card)
                    &&& final(self).spread_v().len() == 3
                    &&& final(self).spread_v()[index as int] matches Some(e) && e.bits() == grown
                    &&& forall|j: int|
                        0 <= j < 3 && j != index ==> #[trigger] final(self).spread_v()[j] == old(
                            self,
                        ).spread_v()[j]
                    &&& final(self).phase_v() == old(self).phase_v()
                    &&& final(self).turn_v() == old(self).turn_v()
                    &&& final(self).passes_v() == old(self).passes_v()
                    &&& final(self).forced_v() == old(self).forced_v()
                    &&& final(self).taken_v() == old(self).taken_v()
                    &&& final(self).result_v() == old(self).result_v()
                }
            },
    {
        if let Err(e) = self.expect_phase(Phase::Layoff) {
            return Err(e);
        }
        if !self.hands[self.turn.index()].contains(card) {
            return Err(RoundError::NotInHand(card));
        }
        let mut state = self.knock.unwrap();
        if index >= 3 {
            return Err(RoundError::NoSuchMeld(index));
        }
        let meld = match state.spread[index] {
            Some(meld) => meld,
            None => {
                return Err(RoundError::NoSuchMeld(index));
            },
        };
        let extended = match meld.extended(card) {
            Some(m) => m,
            None => {
                return Err(RoundError::CannotLayOff(card));
            },
        };
        let sp = state.spread;
        state.spread = if index == 0 {
            [Some(extended), sp[1], sp[2]]
        } else if index == 1 {
            [sp[0], Some(extended), sp[2]]
        } else {
            [sp[0], sp[1], Some(extended)]
        };
        let ghost before = *self;
        state.laid_off.insert(card);
        self.knock = Some(state);
        let mut h = self.hands[self.turn.index()];
        h.remove(card);
        self.hands = with_hand(self.hands, self.turn, h);
        proof {
            assert(self.spread_v() =~= before.spread_v().update(index as int, Some(extended)));
            if before.sound() {
                lemma_lay_off(before, *self, card, index as int, extended);
            }
        }
        Ok(())
    }

    /// End the layoff phase and settle the round
    ///
    /// The defender's remaining cards are melded optimally.  The defender
    /// wins an undercut on less deadwood than the knocker kept — or equal
    /// deadwood under [`Rules::undercut_on_tie`]; otherwise the knocker
    /// wins the deadwood difference.
    pub fn finish_layoffs(&mut self) -> (r: Result<RoundResult, RoundError>)
        requires
            old(self).wf(),
        ensures
            final(self).wf(),
            knocker_step(*old(self), *final(self)),
            action_step(*old(self), *final(self)),
            old(self).sound() ==> final(self).sound(),
            old(self).phase_v() != Phase::Layoff ==> r == Err::<RoundResult, RoundError>(
                RoundError::WrongPhase(old(self).phase_v()),
            ) && *final(self) == *old(self),
            old(self).phase_v() == Phase::Layoff ==> {
                let knocker = old(self).knocker_v().unwrap();
                let res = settle(
                    knocker,
                    old(self).knocker_deadwood_v(),
                    min_deadwood(old(self).hand_v(knocker.spec_opponent()).bits()),
                    old(self).rules_v().undercut_on_tie,
                );
                &&& r == Ok::<RoundResult, RoundError>(res)
                &&& final(self).result_v() == Some(res)
                &&& final(self).phase_v() == Phase::Finished
                &&& final(self).same_table(*old(self))
                &&& final(self).same_cards(*old(self))
                &&& final(self).same_knock(*old(self))
                &&& final(self).turn_v() == old(self).turn_v()
                &&& final(self).passes_v() == old(self).passes_v()
                &&& final(self).forced_v() == old(self).forced_v()
                &&& final(self).taken_v() == old(self).taken_v()
            },
            old(self).phase_v() == Phase::Layoff ==> {
                let knocker = old(self).knocker_v().unwrap();
                let kd = old(self).knocker_deadwood_v();
                let dd = min_deadwood(old(self).hand_v(knocker.spec_opponent()).bits());
                if dd < kd || (dd == kd && old(self).rules_v().undercut_on_tie) {
                    r matches Ok(RoundResult::Undercut { winner, margin }) && winner
                        == knocker.spec_opponent() && margin + dd == kd
                } else {
                    r matches Ok(RoundResult::Knock { winner, margin }) && winner == knocker && kd
                        + margin == dd
                }
            },
    {
        if let Err(e) = self.expect_phase(Phase::Layoff) {
            return Err(e);
        }
        let state = self.knock.unwrap();
        let knocker = state.knocker;
        let knocker_deadwood = state.knocker_deadwood;
        let defender_deadwood = deadwood(self.hands[knocker.opponent().index()]);
        let undercut = defender_deadwood < knocker_deadwood || (defender_deadwood
            == knocker_deadwood && self.rules.undercut_on_tie);
        let result = if undercut {
            RoundResult::Undercut {
                winner: knocker.opponent(),
                margin: knocker_deadwood - defender_deadwood,
            }
        } else {
            RoundResult::Knock { winner: knocker, margin: defender_deadwood - knocker_deadwood }
        };
        self.result = Some(result);
        self.phase = Phase::Finished;
        Ok(result)
    }
}

impl Round {
    /// The snapshot of this position, field by field
    pub fn to_repr(self) -> (repr: RoundRepr)
        ensures
            repr@ == self.snapshot(),
    {
        let knock = match self.knock {
            Some(state) => {
                let mut spread: Vec<Meld> = Vec::new();
                if let Some(m) = state.spread[0] {
                    spread.push(m);
                }
                if let Some(m) = state.spread[1] {
                    spread.push(m);
                }
                if let Some(m) = state.spread[2] {
                    spread.push(m);
                }
                proof {
                    assert(spread@ =~= flatten_slots(state.spread@));
                }
                Some(KnockRepr { knocker: state.knocker, spread, laid_off: state.laid_off })
            },
            None => None,
        };
        RoundRepr {
            rules: self.rules,
            dealer: self.dealer,
            hands: self.hands,
            stock: self.stock,
            discards: self.discards,
            initial_upcard: self.initial_upcard,
            phase: self.phase,
            turn: self.turn,
            passes: self.passes,
            forced_stock: self.forced_stock,
            taken_discard: self.taken_discard,
            knock,
            result: self.result,
        }
    }

    /// Restore a round from a snapshot, re-validating every invariant
    ///
    /// A corrupt snapshot is rejected with the first problem found, in the
    /// order of [`Snapshot::error`]; an accepted one restores exactly the
    /// position it records.
    #[verifier::rlimit(50)]
    #[verifier::spinoff_prover]
    pub fn from_repr(repr: RoundRepr) -> (r: Result<Round, InvalidRound>)
        ensures
            match repr@.error() {
                Some(e) => r == Err::<Round, InvalidRound>(e),
                None => r matches Ok(round) && round.valid() && round.snapshot() == repr@,
            },
    {
        let laid = match &repr.knock {
            Some(k) => Some(k.laid_off),
            None => None,
        };
        if !check_partition(&repr.hands, &repr.stock, &repr.discards, laid) {
            return Err(InvalidRound::NotAPartition);
        }
        let turn = repr.turn;
        let phase = repr.phase;
        let passes = repr.passes;
        if passes > 2 {
            return Err(InvalidRound::BadUpcardState);
        }
        if repr.forced_stock && !(phase == Phase::Draw && passes == 2 && repr.stock.len() == 31) {
            return Err(InvalidRound::PhaseMismatch);
        }
        if repr.taken_discard.is_some() && phase != Phase::Discard {
            return Err(InvalidRound::PhaseMismatch);
        }
        if repr.result.is_some() != (phase == Phase::Finished) {
            return Err(InvalidRound::PhaseMismatch);
        }
        if (phase == Phase::Upcard || passes == 2) && !(repr.discards.len() > 0 && repr.discards[0]
            == repr.initial_upcard) {
            return Err(InvalidRound::BadInitialUpcard);
        }
        let knock_limit = repr.rules.knock_limit_for(repr.initial_upcard);
        let len_one = repr.hands[0].len();
        let len_two = repr.hands[1].len();
        let ghost snap = repr@;
        assert(len_one == snap.len(Player::One));
        assert(len_two == snap.len(Player::Two));
        let knock: Option<KnockState> = match phase {
            Phase::Upcard => {
                let expected = if passes == 0 {
                    repr.dealer.opponent()
                } else {
                    repr.dealer
                };
                if passes > 1 || turn != expected {
                    return Err(InvalidRound::BadUpcardState);
                }
                if repr.stock.len() != 31 || repr.discards.len() != 1 || len_one != 10 || len_two
                    != 10 {
                    return Err(InvalidRound::WrongCounts);
                }
                if repr.knock.is_some() {
                    return Err(InvalidRound::PhaseMismatch);
                }
                None
            },
            Phase::Draw => {
                if len_one != 10 || len_two != 10 || repr.stock.len() < 3 || repr.discards.len()
                    == 0 {
                    return Err(InvalidRound::WrongCounts);
                }
                if repr.knock.is_some() {
                    return Err(InvalidRound::PhaseMismatch);
                }
                None
            },
            Phase::Discard => {
                let acting = repr.hands[turn.index()];
                if acting.len() != 11 || repr.hands[turn.opponent().index()].len() != 10
                    || repr.stock.len() < 2 {
                    return Err(InvalidRound::WrongCounts);
                }
                if repr.knock.is_some() {
                    return Err(InvalidRound::PhaseMismatch);
                }
                if let Some(card) = repr.taken_discard {
                    if !acting.contains(card) {
                        return Err(InvalidRound::PhaseMismatch);
                    }
                }
                None
            },
            Phase::Layoff => {
                let k = match &repr.knock {
                    Some(k) => k,
                    None => {
                        return Err(InvalidRound::PhaseMismatch);
                    },
                };
                let state = match validate_knock(k, &repr.hands) {
                    Ok(state) => state,
                    Err(e) => {
                        return Err(e);
                    },
                };
                if state.knocker_deadwood == 0 {
                    return Err(InvalidRound::PhaseMismatch);
                }
                if state.knocker_deadwood > knock_limit {
                    return Err(InvalidRound::BadDeadwood);
                }
                if turn != state.knocker.opponent() {
                    return Err(InvalidRound::PhaseMismatch);
                }
                let knocker_len = repr.hands[state.knocker.index()].len();
                let defender_len = repr.hands[turn.index()].len();
                let laid_len = state.laid_off.len();
                proof {
                    crate::bits::lemma_count_le_64(state.laid_off.bits());
                    crate::bits::lemma_count_le_64(repr.hands@[turn.idx()].bits());
                }
                if knocker_len != 10 || defender_len + laid_len != 10 || repr.stock.len() < 2
                    || repr.discards.len() == 0 {
                    return Err(InvalidRound::WrongCounts);
                }
                Some(state)
            },
            Phase::Finished => {
                let result = match repr.result {
                    Some(result) => result,
                    None => {
                        return Err(InvalidRound::PhaseMismatch);
                    },
                };
                match result {
                    RoundResult::Dead => {
                        if repr.knock.is_some() {
                            return Err(InvalidRound::PhaseMismatch);
                        }
                        if repr.stock.len() != 2 || len_one != 10 || len_two != 10 {
                            return Err(InvalidRound::WrongCounts);
                        }
                        None
                    },
                    RoundResult::Knock { winner, margin } | RoundResult::Undercut {
                        winner,
                        margin,
                    } => {
                        let k = match &repr.knock {
                            Some(k) => k,
                            None => {
                                return Err(InvalidRound::PhaseMismatch);
                            },
                        };
                        let state = match validate_knock(k, &repr.hands) {
                            Ok(state) => state,
                            Err(e) => {
                                return Err(e);
                            },
                        };
                        let undercut = matches!(result, RoundResult::Undercut { .. });
                        let knocker = if undercut {
                            winner.opponent()
                        } else {
                            winner
                        };
                        if state.knocker != knocker || state.knocker_deadwood == 0 {
                            return Err(InvalidRound::BadResult);
                        }
                        if state.knocker_deadwood > knock_limit {
                            return Err(InvalidRound::BadDeadwood);
                        }
                        let defender = knocker.opponent();
                        let knocker_len = repr.hands[knocker.index()].len();
                        let defender_len = repr.hands[defender.index()].len();
                        let laid_len = state.laid_off.len();
                        proof {
                            crate::bits::lemma_count_le_64(state.laid_off.bits());
                            crate::bits::lemma_count_le_64(repr.hands@[defender.idx()].bits());
                        }
                        if knocker_len != 10 || defender_len + laid_len != 10 || repr.stock.len()
                            < 2 {
                            return Err(InvalidRound::WrongCounts);
                        }
                        let defender_deadwood = deadwood(repr.hands[defender.index()]);
                        let expected = defender_deadwood < state.knocker_deadwood || (
                        defender_deadwood == state.knocker_deadwood && repr.rules.undercut_on_tie);
                        let expected_margin = if undercut {
                            state.knocker_deadwood.wrapping_sub(defender_deadwood)
                        } else {
                            defender_deadwood.wrapping_sub(state.knocker_deadwood)
                        };
                        if undercut != expected || margin != expected_margin {
                            return Err(InvalidRound::BadResult);
                        }
                        Some(state)
                    },
                    RoundResult::Gin { winner, deadwood: loser } | RoundResult::BigGin {
                        winner,
                        deadwood: loser,
                    } => {
                        let k = match &repr.knock {
                            Some(k) => k,
                            None => {
                                return Err(InvalidRound::PhaseMismatch);
                            },
                        };
                        let state = match validate_knock(k, &repr.hands) {
                            Ok(state) => state,
                            Err(e) => {
                                return Err(e);
                            },
                        };
                        let big = matches!(result, RoundResult::BigGin { .. });
                        let expected_len: usize = if big {
                            11
                        } else {
                            10
                        };
                        if state.knocker != winner || state.knocker_deadwood != 0
                            || !state.laid_off.is_empty() {
                            return Err(InvalidRound::BadResult);
                        }
                        if big && repr.rules.big_gin_bonus.is_none() {
                            return Err(InvalidRound::BadResult);
                        }
                        if repr.hands[winner.index()].len() != expected_len
                            || repr.hands[winner.opponent().index()].len() != 10
                            || repr.stock.len() < 2 {
                            return Err(InvalidRound::WrongCounts);
                        }
                        if loser != deadwood(repr.hands[winner.opponent().index()]) {
                            return Err(InvalidRound::BadResult);
                        }
                        Some(state)
                    },
                }
            },
        };
        let round = Round {
            rules: repr.rules,
            dealer: repr.dealer,
            hands: repr.hands,
            stock: repr.stock,
            discards: repr.discards,
            initial_upcard: repr.initial_upcard,
            phase: repr.phase,
            turn: repr.turn,
            passes: repr.passes,
            forced_stock: repr.forced_stock,
            taken_discard: repr.taken_discard,
            knock,
            result: repr.result,
        };
        proof {
            assert(round.snapshot() == snap);
        }
        Ok(round)
    }
}

/// The acting player gaining card `cs[k]` from the cards of a sound
/// position in the upcard or draw phase keeps the partition and adds one
/// card to the hand.
proof fn lemma_gain(before: Round, after: Round, cs: Seq<Card>, k: int)
    requires
        before.sound(),
        before.phase_v() == Phase::Upcard || before.phase_v() == Phase::Draw,
        cs == before.stock_v() + before.discards_v(),
        0 <= k < cs.len(),
        after.stock_v() + after.discards_v() == cs.remove(k),
        after.turn_v() == before.turn_v(),
        after.acting_hand().bits() == before.acting_hand().bits() | card_bit(cs[k]),
        after.idle_hand() == before.idle_hand(),
        after.knocker_v() is None,
    ensures
        partitions(
            after.hand_v(Player::One).bits(),
            after.hand_v(Player::Two).bits(),
            after.stock_v() + after.discards_v(),
            0,
        ),
        count(after.acting_hand().bits()) == 11,
        count(after.idle_hand().bits()) == 10,
        bit(after.acting_hand().bits(), cs[k].pos()),
{
    let t = before.turn_v();
    let a = before.acting_hand().bits();
    let b = before.idle_hand().bits();
    crate::hand::lemma_card(cs[k]);
    if t == Player::One {
        lemma_cards_to_hand(a, b, cs, k, 0);
    } else {
        lemma_partition_swap(b, a, cs, 0);
        lemma_cards_to_hand(a, b, cs, k, 0);
        lemma_partition_swap(a | card_bit(cs[k]), b, cs.remove(k), 0);
    }
    crate::bits::lemma_count_insert(a, cs[k].pos());
}

/// The acting player shedding card `c` onto the discard pile in a sound
/// position of the discard phase keeps the partition and leaves ten cards.
proof fn lemma_shed(before: Round, after: Round, c: Card)
    requires
        before.sound(),
        before.phase_v() == Phase::Discard,
        before.acting_hand().has(c),
        after.stock_v() == before.stock_v(),
        after.discards_v() == before.discards_v().push(c),
        after.turn_v() == before.turn_v(),
        after.acting_hand().bits() == before.acting_hand().bits() & !card_bit(c),
        after.idle_hand() == before.idle_hand(),
    ensures
        partitions(
            after.hand_v(Player::One).bits(),
            after.hand_v(Player::Two).bits(),
            after.stock_v() + after.discards_v(),
            0,
        ),
        count(after.acting_hand().bits()) == 10,
        count(after.idle_hand().bits()) == 10,
{
    let t = before.turn_v();
    let a = before.acting_hand().bits();
    let b = before.idle_hand().bits();
    let cs = before.stock_v() + before.discards_v();
    crate::hand::lemma_card(c);
    assert(cs.push(c) =~= after.stock_v() + after.discards_v());
    if t == Player::One {
        lemma_hand_to_cards(a, b, cs, 0, c);
    } else {
        lemma_partition_swap(b, a, cs, 0);
        lemma_hand_to_cards(a, b, cs, 0, c);
        lemma_partition_swap(a & !card_bit(c), b, cs.push(c), 0);
    }
    crate::bits::lemma_count_remove(a, c.pos());
}

/// The spread of an arrangement: its melds in slot order, a valid spread
/// over the arranged hand, leaving the arrangement's deadwood.
proof fn lemma_spread(m: Melds, knocker: Player)
    requires
        m.valid(),
    ensures
        meld_bits(flatten_slots(m.slots())) == m.melds_seq(),
        spread_ok(
            KnockSnapshot { knocker, spread: flatten_slots(m.slots()), laid_off: 0 },
            m.hand_bits(),
        ),
        knock_deadwood(
            KnockSnapshot { knocker, spread: flatten_slots(m.slots()), laid_off: 0 },
            m.hand_bits(),
        ) == m.value() as u8,
{
    let a = m.slots();
    let sp = flatten_slots(a);
    let ms = m.melds_seq();
    assert(meld_bits(sp) =~= filled(a));
    let k = KnockSnapshot { knocker, spread: sp, laid_off: 0 };
    let u = spread_union(sp);
    assert forall|i: int, j: int| 0 <= i < j < sp.len() implies disjoint(
        #[trigger] sp[i].bits(),
        #[trigger] sp[j].bits(),
    ) by {
        assert(ms[i] == sp[i].bits());
        assert(ms[j] == sp[j].bits());
    }
    assert forall|p: int| #[trigger] bit(u & !0u64, p) implies bit(m.hand_bits(), p) by {
        crate::meld::lemma_union_bit(ms, p);
        let i = choose|i: int| 0 <= i < ms.len() && #[trigger] bit(ms[i], p);
        assert(subset(ms[i], m.hand_bits()));
    }
    assert(spread_ok(k, m.hand_bits()));
}

/// Filling a slot of a front-filled spread updates the same place of the
/// flattened spread.
proof fn lemma_flatten_update(a: Seq<Option<Meld>>, i: int, m: Meld)
    requires
        front_filled(a),
        0 <= i < 3,
        a[i] is Some,
    ensures
        i < flatten_slots(a).len(),
        flatten_slots(a)[i] == a[i].unwrap(),
        front_filled(a.update(i, Some(m))),
        flatten_slots(a.update(i, Some(m))) == flatten_slots(a).update(i, m),
{
    assert(flatten_slots(a.update(i, Some(m))) =~= flatten_slots(a).update(i, m));
}

/// Extending meld `i` of a valid spread by a card that neither the knocker
/// holds nor was laid off keeps the spread valid over the same cards of the
/// knocker, and the knocker's deadwood.
proof fn lemma_extend_spread(k: KnockSnapshot, k2: KnockSnapshot, i: int, c: Card, own: u64)
    requires
        spread_ok(k, own),
        0 <= i < k.spread.len(),
        k2.spread == k.spread.update(i, k2.spread[i]),
        k2.spread[i].bits() == k.spread[i].bits() | card_bit(c),
        k2.laid_off == k.laid_off | card_bit(c),
        !bit(own, c.pos()),
        !bit(k.laid_off, c.pos()),
    ensures
        spread_ok(k2, own),
        knock_deadwood(k2, own) == knock_deadwood(k, own),
{
    crate::hand::lemma_card(c);
    let ms = meld_bits(k.spread);
    let ms2 = meld_bits(k2.spread);
    let u = spread_union(k.spread);
    let u2 = spread_union(k2.spread);
    assert forall|p: int| #[trigger] bit(u2, p) == (bit(u, p) || p == c.pos()) by {
        crate::meld::lemma_union_bit(ms, p);
        crate::meld::lemma_union_bit(ms2, p);
        if bit(u2, p) {
            let j = choose|j: int| 0 <= j < ms2.len() && #[trigger] bit(ms2[j], p);
            if j != i {
                assert(ms[j] == ms2[j]);
            } else if p != c.pos() {
                assert(bit(ms[i], p));
            }
        }
        if bit(u, p) {
            let j = choose|j: int| 0 <= j < ms.len() && #[trigger] bit(ms[j], p);
            if j != i {
                assert(ms2[j] == ms[j]);
            } else {
                assert(bit(ms2[i], p));
            }
        }
        if p == c.pos() {
            assert(bit(ms2[i], p));
        }
    }
    assert(!bit(u, c.pos())) by {
        if bit(u, c.pos()) {
            assert(bit(u & !k.laid_off, c.pos()));
        }
    }
    assert forall|a: int, b: int| 0 <= a < b < k2.spread.len() implies disjoint(
        #[trigger] k2.spread[a].bits(),
        #[trigger] k2.spread[b].bits(),
    ) by {
        assert(disjoint(k.spread[a].bits(), k.spread[b].bits()));
        if a == i || b == i {
            let o = if a == i { b } else { a };
            assert(k2.spread[o] == k.spread[o]);
            assert forall|p: int| #[trigger] bit(k.spread[o].bits(), p) implies p != c.pos() by {
                crate::meld::lemma_union_bit(ms, p);
                assert(ms[o] == k.spread[o].bits());
            }
        }
    }
    assert forall|p: int| #[trigger] bit(k2.laid_off, p) implies bit(u2, p) by {
        if p != c.pos() {
            assert(bit(k.laid_off, p));
        }
    }
    assert forall|p: int| #[trigger] bit(u2 & !k2.laid_off, p) implies bit(own, p) by {
        assert(bit(u & !k.laid_off, p));
    }
    assert forall|p: int| 0 <= p < 64 implies #[trigger] bit(own & !u2, p) == bit(own & !u, p) by {}
    crate::bits::lemma_bits_ext(own & !u2, own & !u);
}

/// Laying off a card in a sound position keeps it sound.
proof fn lemma_lay_off(before: Round, after: Round, c: Card, i: int, e: Meld)
    requires
        before.sound(),
        before.phase_v() == Phase::Layoff,
        before.acting_hand().has(c),
        0 <= i < 3,
        before.spread_v()[i] is Some,
        e.bits() == before.spread_v()[i].unwrap().bits() | card_bit(c),
        after.spread_v() == before.spread_v().update(i, Some(e)),
        after.same_table(before),
        after.acting_hand().bits() == before.acting_hand().bits() & !card_bit(c),
        after.idle_hand() == before.idle_hand(),
        after.stock_v() == before.stock_v(),
        after.discards_v() == before.discards_v(),
        after.knocker_v() == before.knocker_v(),
        after.knocker_deadwood_v() == before.knocker_deadwood_v(),
        after.laid_off_v() == before.laid_off_v() | card_bit(c),
        after.phase_v() == before.phase_v(),
        after.turn_v() == before.turn_v(),
        after.passes_v() == before.passes_v(),
        after.forced_v() == before.forced_v(),
        after.taken_v() == before.taken_v(),
        after.result_v() == before.result_v(),
    ensures
        after.sound(),
{
    let t = before.turn_v();
    let knocker = t.spec_opponent();
    let a = before.acting_hand().bits();
    let b = before.idle_hand().bits();
    let l = before.laid_off_v();
    let cs = before.stock_v() + before.discards_v();
    crate::hand::lemma_card(c);
    if t == Player::One {
        lemma_hand_to_laid(a, b, cs, l, c);
    } else {
        lemma_partition_swap(b, a, cs, l);
        lemma_hand_to_laid(a, b, cs, l, c);
        lemma_partition_swap(a & !card_bit(c), b, cs, l | card_bit(c));
    }
    crate::bits::lemma_count_remove(a, c.pos());
    crate::bits::lemma_count_insert(l, c.pos());
    lemma_flatten_update(before.spread_v(), i, e);
    let k = before.snapshot().knock.unwrap();
    let k2 = after.snapshot().knock.unwrap();
    lemma_extend_spread(k, k2, i, c, b);
    assert(after.snapshot().error() is None);
}

/// Every valid position, and so every restored snapshot, has the structure
/// the actions rely on.
pub proof fn lemma_valid_wf(r: Round)
    requires
        r.valid(),
    ensures
        r.wf(),
{
}

/// Whether `rs` is a play: rounds each reached from the one before by an
/// action, successful or not.
pub open spec fn is_play(rs: Seq<Round>) -> bool {
    &&& rs.len() > 0
    &&& forall|j: int| 0 <= j < rs.len() - 1 ==> #[trigger] action_step(rs[j], rs[j + 1])
}

/// The laws of a play from a fresh deal (what [`Round::from_deal`] and
/// [`Round::deal`] give), at every step `i`:
///
/// - the rules, dealer, and opening upcard never change, so neither does the
///   knock limit, which stays within the rules' own;
/// - the round stays sound: the hands, the stock and discard pile, and the
///   layoffs hold each of the 52 cards exactly once, 52 in all, and the
///   stock holds at least three cards whenever a turn may draw from it;
/// - a result is there exactly when the round is finished, and once there
///   the round never changes again;
/// - the layoffs are empty until a knock, only grow, lie within the spread,
///   and each laid-off card came from the defender's hand by a layoff step;
/// - there is no knocker until one step sets it to the player then to act,
///   who knocked at the discard step, and it stays that player; a finished
///   round's result names the knocker as its [`lemma_finished_result`] says.
pub proof fn lemma_play(rs: Seq<Round>, i: int)
    requires
        is_play(rs),
        0 <= i < rs.len(),
        rs[0].sound(),
        rs[0].phase_v() == Phase::Upcard,
    ensures
        rs[i].same_table(rs[0]),
        rs[i].knock_limit_v() == rs[0].knock_limit_v(),
        rs[i].knock_limit_v() <= rs[0].rules_v().knock_limit,
        rs[i].sound(),
        rs[i].wf(),
        partitions(
            rs[i].hand_v(Player::One).bits(),
            rs[i].hand_v(Player::Two).bits(),
            rs[i].stock_v() + rs[i].discards_v(),
            rs[i].laid_off_v(),
        ),
        count(rs[i].hand_v(Player::One).bits()) + count(rs[i].hand_v(Player::Two).bits())
            + rs[i].stock_v().len() + rs[i].discards_v().len() + count(rs[i].laid_off_v()) == 52,
        rs[i].phase_v() == Phase::Upcard || rs[i].phase_v() == Phase::Draw ==> rs[i].stock_v().len()
            >= 3,
        (rs[i].result_v() is Some) == (rs[i].phase_v() == Phase::Finished),
        forall|j: int| 0 <= j <= i && (#[trigger] rs[j].result_v()) is Some ==> rs[i] == rs[j],
        rs[i].knocker_v() is None ==> rs[i].laid_off_v() == 0,
        rs[i].phase_v() == Phase::Layoff ==> subset(
            rs[i].laid_off_v(),
            spread_union(flatten_slots(rs[i].spread_v())),
        ),
        forall|j: int| 0 <= j <= i ==> subset(#[trigger] rs[j].laid_off_v(), rs[i].laid_off_v()),
        forall|p: int| #[trigger] bit(rs[i].laid_off_v(), p) ==> exists|j: int|
            0 <= j < i && rs[j].phase_v() == Phase::Layoff && bit(rs[j].acting_hand().bits(), p)
                && !bit(#[trigger] rs[j].laid_off_v(), p) && bit(rs[j + 1].laid_off_v(), p)
                && !bit(rs[j + 1].acting_hand().bits(), p),
        rs[i].knocker_v() is None ==> forall|j: int|
            0 <= j <= i ==> (#[trigger] rs[j].knocker_v()) is None,
        rs[i].knocker_v() is Some ==> exists|j: int|
            0 <= j < i && (#[trigger] rs[j].knocker_v()) is None && rs[j].phase_v()
                == Phase::Discard && rs[i].knocker_v() == Some(rs[j].turn_v()) && forall|k: int|
                j < k <= i ==> #[trigger] rs[k].knocker_v() == rs[i].knocker_v(),
        rs[i].phase_v() == Phase::Finished ==> match rs[i].result_v().unwrap() {
            RoundResult::Dead => rs[i].knocker_v() is None && rs[i].stock_v().len() == 2,
            RoundResult::Knock { winner, margin } => rs[i].knocker_v() == Some(winner) && (
            rs[i].rules_v().undercut_on_tie ==> margin > 0),
            RoundResult::Undercut { winner, .. } => rs[i].knocker_v() == Some(
                winner.spec_opponent(),
            ),
            RoundResult::Gin { winner, .. } => rs[i].knocker_v() == Some(winner)
                && rs[i].laid_off_v() == 0,
            RoundResult::BigGin { winner, .. } => rs[i].knocker_v() == Some(winner)
                && rs[i].laid_off_v() == 0,
        },
    decreases i,
{
    crate::rules::lemma_knock_limit_tightens(rs[0].rules_v(), rs[0].upcard_v().rank.value());
    if i == 0 {
        assert(rs[0].laid_off_v() == 0);
    } else {
        lemma_play(rs, i - 1);
        let prev = i - 1;
        assert(action_step(rs[prev], rs[prev + 1]));
        assert(prev + 1 == i);
        assert forall|j: int| 0 <= j <= i && (#[trigger] rs[j].result_v()) is Some implies rs[i]
            == rs[j] by {
            if j < i {
                assert(rs[i - 1] == rs[j]);
            }
        }
        assert forall|j: int| 0 <= j <= i implies subset(
            #[trigger] rs[j].laid_off_v(),
            rs[i].laid_off_v(),
        ) by {
            if j < i {
                assert(subset(rs[j].laid_off_v(), rs[i - 1].laid_off_v()));
            }
        }
        assert forall|p: int| #[trigger] bit(rs[i].laid_off_v(), p) implies exists|j: int|
            0 <= j < i && rs[j].phase_v() == Phase::Layoff && bit(rs[j].acting_hand().bits(), p)
                && !bit(#[trigger] rs[j].laid_off_v(), p) && bit(rs[j + 1].laid_off_v(), p)
                && !bit(rs[j + 1].acting_hand().bits(), p) by {
            if !bit(rs[i - 1].laid_off_v(), p) {
                assert(bit(rs[prev + 1].laid_off_v(), p));
            }
        }
    }
    lemma_valid_wf(rs[i]);
    lemma_valid_wf(rs[0]);
    assert forall|j: int| 0 <= j < rs.len() - 1 implies #[trigger] knocker_step(rs[j], rs[j + 1]) by {
        assert(action_step(rs[j], rs[j + 1]));
    }
    lemma_knocker_over_play(rs, i);
    if rs[i].phase_v() == Phase::Finished {
        lemma_finished_result(rs[i]);
    }
    crate::repr::lemma_partition_sizes(
        rs[i].hand_v(Player::One).bits(),
        rs[i].hand_v(Player::Two).bits(),
        rs[i].stock_v() + rs[i].discards_v(),
        rs[i].laid_off_v(),
    );
}

/// The knocker over a play: along rounds each reached from the one before
/// by an action, starting without a knocker, a round has had no knocker so
/// far, or one step set it to the player then to act at the discard step and
/// it has stayed that player ever since.
pub proof fn lemma_knocker_over_play(rs: Seq<Round>, i: int)
    requires
        0 <= i < rs.len(),
        rs[0].knocker_v() is None,
        forall|j: int| 0 <= j < rs.len() - 1 ==> #[trigger] knocker_step(rs[j], rs[j + 1]),
    ensures
        rs[i].knocker_v() is None ==> forall|j: int|
            0 <= j <= i ==> (#[trigger] rs[j].knocker_v()) is None,
        rs[i].knocker_v() is Some ==> exists|j: int|
            0 <= j < i && (#[trigger] rs[j].knocker_v()) is None && rs[j].phase_v()
                == Phase::Discard && rs[i].knocker_v() == Some(rs[j].turn_v()) && forall|k: int|
                j < k <= i ==> #[trigger] rs[k].knocker_v() == rs[i].knocker_v(),
    decreases i,
{
    if i > 0 {
        lemma_knocker_over_play(rs, i - 1);
        let prev = i - 1;
        assert(knocker_step(rs[prev], rs[prev + 1]));
        assert(prev + 1 == i);
        if rs[i].knocker_v() is None {
            assert forall|j: int| 0 <= j <= i implies (#[trigger] rs[j].knocker_v()) is None by {
                if j < i {
                    assert(rs[i - 1].knocker_v() is None);
                }
            }
        } else if rs[i - 1].knocker_v() is None {
            assert(rs[i - 1].knocker_v() is None && rs[i - 1].phase_v() == Phase::Discard
                && rs[i].knocker_v() == Some(rs[i - 1].turn_v()) && forall|k: int|
                i - 1 < k <= i ==> #[trigger] rs[k].knocker_v() == rs[i].knocker_v());
        } else {
            let j = choose|j: int|
                0 <= j < i - 1 && (#[trigger] rs[j].knocker_v()) is None && rs[j].phase_v()
                    == Phase::Discard && rs[i - 1].knocker_v() == Some(rs[j].turn_v())
                    && forall|k: int|
                    j < k <= i - 1 ==> #[trigger] rs[k].knocker_v() == rs[i - 1].knocker_v();
            assert(forall|k: int| j < k <= i ==> #[trigger] rs[k].knocker_v() == rs[i].knocker_v());
        }
    }
}

/// What a finished valid round records: a dead hand has no knock and a
/// two-card stock; a knock is won by the knocker, by a positive margin when
/// ties undercut; an undercut is won against the knocker; a gin or big gin
/// is won by the knocker, with nothing laid off.
pub proof fn lemma_finished_result(r: Round)
    requires
        r.valid(),
        r.phase_v() == Phase::Finished,
    ensures
        r.result_v() is Some,
        match r.result_v().unwrap() {
            RoundResult::Dead => r.knocker_v() is None && r.stock_v().len() == 2,
            RoundResult::Knock { winner, margin } => r.knocker_v() == Some(winner) && (
            r.rules_v().undercut_on_tie ==> margin > 0),
            RoundResult::Undercut { winner, .. } => r.knocker_v() == Some(winner.spec_opponent()),
            RoundResult::Gin { winner, .. } => r.knocker_v() == Some(winner) && r.laid_off_v() == 0,
            RoundResult::BigGin { winner, .. } => r.knocker_v() == Some(winner) && r.laid_off_v()
                == 0,
        },
{
}

/// How a finished valid round scores the knock: with `kd` the deadwood the
/// knocker kept and `dd` the least deadwood of the defender's hand, a knock
/// win is by `dd - kd` and comes only when the defender did not match or
/// beat the knocker (ties undercut unless the rules say otherwise); an
/// undercut is by `kd - dd` and comes only when the defender did; and a gin
/// or big gin records the least deadwood of the loser's hand.
pub proof fn lemma_finished_scores(r: Round)
    requires
        r.valid(),
        r.phase_v() == Phase::Finished,
    ensures
        match r.result_v().unwrap() {
            RoundResult::Dead => true,
            RoundResult::Knock { winner, margin } => {
                let dd = min_deadwood(r.hand_v(winner.spec_opponent()).bits());
                let kd = r.knocker_deadwood_v();
                &&& r.knocker_v() == Some(winner)
                &&& kd + margin == dd
                &&& kd < dd || (kd == dd && !r.rules_v().undercut_on_tie)
            },
            RoundResult::Undercut { winner, margin } => {
                let dd = min_deadwood(r.hand_v(winner).bits());
                let kd = r.knocker_deadwood_v();
                &&& r.knocker_v() == Some(winner.spec_opponent())
                &&& margin + dd == kd
                &&& dd < kd || (dd == kd && r.rules_v().undercut_on_tie)
            },
            RoundResult::Gin { winner, deadwood } => deadwood == min_deadwood(
                r.hand_v(winner.spec_opponent()).bits(),
            ),
            RoundResult::BigGin { winner, deadwood } => deadwood == min_deadwood(
                r.hand_v(winner.spec_opponent()).bits(),
            ),
        },
{
    crate::meld::lemma_min_deadwood_bounds(r.hand_v(Player::One).bits());
    crate::meld::lemma_min_deadwood_bounds(r.hand_v(Player::Two).bits());
}

/// A valid round's snapshot passes every check, so reading back what
/// [`Round::to_repr`] writes restores the same position.
pub proof fn lemma_snapshot_accepted(r: Round)
    requires
        r.valid(),
    ensures
        r.snapshot().error() is None,
{
}

/// Rebuild the knock state from its serialized form, checking the spread
/// against the knocker's cards and computing the deadwood kept at the knock.
fn validate_knock(repr: &KnockRepr, hands: &[Hand; 2]) -> (r: Result<KnockState, InvalidRound>)
    ensures
        !spread_ok(repr@, hands@[repr.knocker.idx()].bits()) ==> r == Err::<KnockState, InvalidRound>(
            InvalidRound::BadSpread,
        ),
        spread_ok(repr@, hands@[repr.knocker.idx()].bits()) ==> (r matches Ok(st) && st.knocker
            == repr.knocker && st.laid_off == repr.laid_off && front_filled(st.spread@)
            && flatten_slots(st.spread@) == repr.spread@ && st.knocker_deadwood == knock_deadwood(
            repr@,
            hands@[repr.knocker.idx()].bits(),
        )),
{
    let ghost ms = meld_bits(repr.spread@);
    let own_hand = hands[repr.knocker.index()];
    if repr.spread.len() > 3 {
        return Err(InvalidRound::BadSpread);
    }
    let n = repr.spread.len();
    let mut union = Hand::EMPTY();
    let mut spread: [Option<Meld>; 3] = [None, None, None];
    let mut i: usize = 0;
    while i < n
        invariant
            n == repr.spread@.len(),
            n <= 3,
            i <= n,
            ms == meld_bits(repr.spread@),
            union.bits() == union_of(ms.take(i as int)),
            forall|a: int, b: int|
                0 <= a < b < i ==> disjoint(
                    #[trigger] repr.spread@[a].bits(),
                    #[trigger] repr.spread@[b].bits(),
                ),
            front_filled(spread@),
            flatten_slots(spread@) == repr.spread@.take(i as int),
            forall|k: int| i <= k < 3 ==> spread@[k] is None,
        decreases n - i,
    {
        let meld = repr.spread[i];
        let cards = meld.cards();
        proof {
            crate::bits::lemma_test_disjoint(union.bits(), cards.bits());
        }
        if union.to_bits() & cards.to_bits() != 0 {
            proof {
                let p = crate::bits::lemma_some_bit(union.bits() & cards.bits());
                crate::meld::lemma_union_bit(ms.take(i as int), p);
                let a = choose|a: int| 0 <= a < i && #[trigger] bit(ms.take(i as int)[a], p);
                assert(bit(repr.spread@[a].bits(), p));
                assert(!disjoint(repr.spread@[a].bits(), repr.spread@[i as int].bits()));
            }
            return Err(InvalidRound::BadSpread);
        }
        proof {
            let prev = ms.take(i as int);
            assert(ms.take(i + 1) =~= prev.push(ms[i as int]));
            crate::meld::lemma_union_push(prev, ms[i as int]);
            assert forall|a: int, b: int| 0 <= a < b < i + 1 implies disjoint(
                #[trigger] repr.spread@[a].bits(),
                #[trigger] repr.spread@[b].bits(),
            ) by {
                if b == i {
                    assert forall|p: int| !(#[trigger] bit(repr.spread@[a].bits(), p) && bit(
                        repr.spread@[b].bits(),
                        p,
                    )) by {
                        crate::meld::lemma_union_bit(prev, p);
                        assert(prev[a] == repr.spread@[a].bits());
                    }
                }
            }
        }
        union = union | cards;
        if i == 0 {
            spread = [Some(meld), None, None];
        } else if i == 1 {
            spread = [spread[0], Some(meld), None];
        } else {
            spread = [spread[0], spread[1], Some(meld)];
        }
        proof {
            assert(flatten_slots(spread@) =~= repr.spread@.take(i + 1));
        }
        i += 1;
    }
    proof {
        assert(ms.take(n as int) =~= ms);
        assert(repr.spread@.take(n as int) =~= repr.spread@);
    }
    let laid = repr.laid_off;
    let own = union - laid;
    proof {
        crate::meld::lemma_test_subset(laid.bits(), union.bits());
        crate::meld::lemma_test_subset(own.bits(), own_hand.bits());
    }
    let covered = laid & union;
    let kept = own & own_hand;
    if covered != laid || kept != own {
        proof {
            if covered.bits() == laid.bits() {
                crate::hand::lemma_hand_eq(covered, laid);
            }
            if kept.bits() == own.bits() {
                crate::hand::lemma_hand_eq(kept, own);
            }
        }
        return Err(InvalidRound::BadSpread);
    }
    proof {
        if covered.bits() != laid.bits() {
            crate::hand::lemma_hand_eq(covered, laid);
        }
        if kept.bits() != own.bits() {
            crate::hand::lemma_hand_eq(kept, own);
        }
    }
    let total = crate::meld::pip_sum(own_hand - union);
    let knocker_deadwood = #[verifier::truncate] (total as u8);
    Ok(KnockState { knocker: repr.knocker, spread, knocker_deadwood, laid_off: laid })
}

} // verus!
