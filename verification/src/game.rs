//! The scoreboard across deals.
//!
//! A [`Game`] accumulates [`RoundResult`]s until a player reaches the game
//! target, then settles boxes, the game bonus, and the shutout rule into a
//! [`FinalScore`].  It also tracks whose deal is next: the winner of a hand
//! deals the following one, and a dead hand is redealt by the same dealer.

use crate::player::Player;
use crate::round::{Round, RoundResult};
use crate::rules::{Rules, Shutout};
use vstd::prelude::*;

verus! {

/// Error returned when recording into a finished [`Game`]
#[derive(Debug, Clone, Copy, PartialEq, Eq, Structural, Hash)]
#[non_exhaustive]
pub enum GameError {
    /// The game is already over
    AlreadyOver,
}

/// The settled outcome of a [`Game`]
#[derive(Debug, Clone, Copy, PartialEq, Eq, Hash)]
#[non_exhaustive]
pub struct FinalScore {
    /// The player who reached the game target
    pub winner: Player,
    /// Final totals by player, including boxes and bonuses
    pub totals: [u16; 2],
    /// Whether the loser never scored (a shutout, also called a blitz or
    /// schneider), with [`Rules::shutout`] already applied to the totals
    pub shutout: bool,
}

/// A game of gin rummy: the running scores across rounds
#[derive(Debug, Clone, Copy, PartialEq, Eq, Hash)]
pub struct Game {
    rules: Rules,
    scores: [u16; 2],
    boxes: [u16; 2],
    next_dealer: Player,
}

impl Game {
    /// The scoring rules
    pub closed spec fn rules_v(self) -> Rules {
        self.rules
    }

    /// The running score of a player
    pub closed spec fn score_v(self, p: Player) -> int {
        self.scores@[p.idx()] as int
    }

    /// The hands a player has won
    pub closed spec fn boxes_v(self, p: Player) -> int {
        self.boxes@[p.idx()] as int
    }

    /// Who deals the next round
    pub closed spec fn dealer_v(self) -> Player {
        self.next_dealer
    }

    /// Whether a player has reached the game target
    pub open spec fn over(self) -> bool {
        self.score_v(Player::One) >= self.rules_v().game_target || self.score_v(Player::Two)
            >= self.rules_v().game_target
    }

    /// The player who reached the game target, the first player when both
    /// did
    pub open spec fn winner_spec(self) -> Option<Player> {
        if self.score_v(Player::One) >= self.rules_v().game_target {
            Some(Player::One)
        } else if self.score_v(Player::Two) >= self.rules_v().game_target {
            Some(Player::Two)
        } else {
            None
        }
    }

    /// Whether at most one player has reached the game target
    pub open spec fn single_winner(self) -> bool {
        !(self.score_v(Player::One) >= self.rules_v().game_target && self.score_v(Player::Two)
            >= self.rules_v().game_target)
    }

    /// The points a result adds to its winner's score when recorded: its
    /// price, plus the box bonus under immediate boxes
    pub open spec fn gain(self, result: RoundResult) -> int {
        result.points_spec(self.rules_v()) + if self.rules_v().immediate_boxes {
            self.rules_v().box_bonus as int
        } else {
            0
        }
    }

    /// Whether the loser of a finished game never scored
    pub open spec fn shutout_spec(self) -> bool {
        self.score_v(self.winner_spec().unwrap().spec_opponent()) == 0
    }

    /// A player's settled total: the score, plus the boxes at the box bonus
    /// unless already credited, plus the game bonus for the winner, with the
    /// shutout rule applied to the winner's total
    pub open spec fn final_total(self, p: Player) -> int {
        let r = self.rules_v();
        let w = self.winner_spec().unwrap();
        let base = self.score_v(p) + if r.immediate_boxes {
            0
        } else {
            self.boxes_v(p) * r.box_bonus
        };
        let with_bonus = base + if p == w {
            r.game_bonus as int
        } else {
            0
        };
        if p == w && self.shutout_spec() {
            match r.shutout {
                Shutout::Double => with_bonus * 2,
                Shutout::Flat(bonus) => with_bonus + bonus,
            }
        } else {
            with_bonus
        }
    }

    /// Start a game with the given rules and first dealer
    pub fn new(rules: Rules, first_dealer: Player) -> (g: Game)
        ensures
            g.rules_v() == rules,
            g.score_v(Player::One) == 0,
            g.score_v(Player::Two) == 0,
            g.boxes_v(Player::One) == 0,
            g.boxes_v(Player::Two) == 0,
            g.dealer_v() == first_dealer,
            rules.game_target > 0 ==> g.single_winner(),
    {
        Game { rules, scores: [0, 0], boxes: [0, 0], next_dealer: first_dealer }
    }

    /// A game at the given running scores and box counts, in player order,
    /// with the given next dealer: the inverse of reading them back with
    /// [`Game::score`], [`Game::boxes`], and [`Game::next_dealer`]
    pub fn from_parts(rules: Rules, scores: [u16; 2], boxes: [u16; 2], next_dealer: Player) -> (g:
        Game)
        ensures
            g.rules_v() == rules,
            g.score_v(Player::One) == scores@[0],
            g.score_v(Player::Two) == scores@[1],
            g.boxes_v(Player::One) == boxes@[0],
            g.boxes_v(Player::Two) == boxes@[1],
            g.dealer_v() == next_dealer,
    {
        Game { rules, scores, boxes, next_dealer }
    }

    /// The scoring rules of this game
    pub fn rules(&self) -> (r: &Rules)
        ensures
            *r == self.rules_v(),
    {
        &self.rules
    }

    /// The running score of a player
    ///
    /// Under [`Rules::immediate_boxes`] this includes the boxes credited so
    /// far; otherwise boxes wait for [`Game::final_score`].
    pub fn score(&self, player: Player) -> (s: u16)
        ensures
            s == self.score_v(player),
    {
        self.scores[player.index()]
    }

    /// The hands a player has won
    pub fn boxes(&self, player: Player) -> (b: u16)
        ensures
            b == self.boxes_v(player),
    {
        self.boxes[player.index()]
    }

    /// Who deals the next round
    pub fn next_dealer(&self) -> (p: Player)
        ensures
            p == self.dealer_v(),
    {
        self.next_dealer
    }

    /// Whether a player has reached the game target
    pub fn is_over(&self) -> (b: bool)
        ensures
            b == self.over(),
    {
        self.scores[0] >= self.rules.game_target || self.scores[1] >= self.rules.game_target
    }

    /// The player who reached the game target, or `None` while the game is
    /// in play
    pub fn winner(&self) -> (w: Option<Player>)
        ensures
            w == self.winner_spec(),
    {
        // Only the round winner gains points, so exactly one player can
        // cross the target.
        if self.scores[0] >= self.rules.game_target {
            Some(Player::One)
        } else if self.scores[1] >= self.rules.game_target {
            Some(Player::Two)
        } else {
            None
        }
    }

    /// Record a finished round
    ///
    /// The winner gains the result's points — plus the box bonus right away
    /// under [`Rules::immediate_boxes`] — and one box, and deals the next
    /// round.  A dead hand scores nothing and keeps the same dealer.  The
    /// new score and box count must fit in `u16`.
    pub fn record(&mut self, result: RoundResult) -> (r: Result<(), GameError>)
        requires
            !old(self).over() && result.winner_spec() is Some ==> {
                let w = result.winner_spec().unwrap();
                &&& old(self).score_v(w) + old(self).gain(result) <= u16::MAX
                &&& old(self).boxes_v(w) + 1 <= u16::MAX
            },
        ensures
            old(self).over() ==> r == Err::<(), GameError>(GameError::AlreadyOver) && *final(self)
                == *old(self),
            !old(self).over() ==> r is Ok && final(self).rules_v() == old(self).rules_v() && match result.winner_spec() {
                None => *final(self) == *old(self),
                Some(w) => {
                    &&& final(self).score_v(w) == old(self).score_v(w) + old(self).gain(result)
                    &&& final(self).boxes_v(w) == old(self).boxes_v(w) + 1
                    &&& final(self).score_v(w.spec_opponent()) == old(self).score_v(
                        w.spec_opponent(),
                    )
                    &&& final(self).boxes_v(w.spec_opponent()) == old(self).boxes_v(
                        w.spec_opponent(),
                    )
                    &&& final(self).dealer_v() == w
                },
            },
            old(self).single_winner() ==> final(self).single_winner(),
    {
        if self.is_over() {
            return Err(GameError::AlreadyOver);
        }
        if let Some(winner) = result.winner() {
            let immediate = if self.rules.immediate_boxes {
                self.rules.box_bonus
            } else {
                0
            };
            let i = winner.index();
            let score = self.scores[i] + result.points(&self.rules) + immediate;
            let boxes = self.boxes[i] + 1;
            self.scores = if i == 0 {
                [score, self.scores[1]]
            } else {
                [self.scores[0], score]
            };
            self.boxes = if i == 0 {
                [boxes, self.boxes[1]]
            } else {
                [self.boxes[0], boxes]
            };
            self.next_dealer = winner;
        }
        Ok(())
    }

    /// Shuffle and deal the next round with this game's rules and dealer
    pub fn deal(&self, rng: &mut rand::rngs::StdRng) -> (round: Round)
        ensures
            round.sound(),
            round.rules_v() == self.rules_v(),
            round.dealer_v() == self.dealer_v(),
            round.phase_v() == crate::round::Phase::Upcard,
    {
        Round::deal(self.rules, self.next_dealer, rng)
    }

    /// Settle the game, or `None` while it is in play
    ///
    /// Boxes are added at [`box_bonus`](Rules::box_bonus) each — unless
    /// already credited via [`Rules::immediate_boxes`] — the winner collects
    /// [`game_bonus`](Rules::game_bonus), and a shutout applies
    /// [`Rules::shutout`] to the winner's total.  The totals must fit in
    /// `u16`.
    pub fn final_score(&self) -> (r: Option<FinalScore>)
        requires
            self.winner_spec() is Some ==> self.final_total(Player::One) <= u16::MAX
                && self.final_total(Player::Two) <= u16::MAX,
        ensures
            self.winner_spec() is None ==> r is None,
            self.winner_spec() is Some ==> (r matches Some(fs) && fs.winner
                == self.winner_spec().unwrap() && fs.shutout == self.shutout_spec() && fs.totals@
                == seq![
                self.final_total(Player::One) as u16,
                self.final_total(Player::Two) as u16,
            ]),
    {
        let winner = match self.winner() {
            Some(w) => w,
            None => {
                return None;
            },
        };
        let loser = winner.opponent();
        let shutout = self.scores[loser.index()] == 0;
        let ghost r = self.rules;
        let mut totals = self.scores;
        if !self.rules.immediate_boxes {
            proof {
                assert(0 <= self.boxes_v(Player::One) * r.box_bonus <= self.final_total(Player::One))
                    by (nonlinear_arith)
                    requires
                        self.final_total(Player::One) >= self.score_v(Player::One) + self.boxes_v(Player::One) * r.box_bonus,
                        self.boxes_v(Player::One) >= 0,
                        r.box_bonus >= 0,
                ;
                assert(0 <= self.boxes_v(Player::Two) * r.box_bonus <= self.final_total(Player::Two))
                    by (nonlinear_arith)
                    requires
                        self.final_total(Player::Two) >= self.score_v(Player::Two) + self.boxes_v(Player::Two) * r.box_bonus,
                        self.boxes_v(Player::Two) >= 0,
                        r.box_bonus >= 0,
                ;
            }
            totals = [
                totals[0] + self.boxes[0] * self.rules.box_bonus,
                totals[1] + self.boxes[1] * self.rules.box_bonus,
            ];
        }
        let w = winner.index();
        let with_bonus = totals[w] + self.rules.game_bonus;
        let settled = if shutout {
            match self.rules.shutout {
                Shutout::Double => with_bonus * 2,
                Shutout::Flat(bonus) => with_bonus + bonus,
            }
        } else {
            with_bonus
        };
        totals = if w == 0 {
            [settled, totals[1]]
        } else {
            [totals[0], settled]
        };
        Some(FinalScore { winner, totals, shutout })
    }
}

/// Every running score and box count of a game lies in `0..=u16::MAX`.
pub proof fn lemma_game_ranges(g: Game, p: Player)
    ensures
        0 <= g.score_v(p) <= u16::MAX,
        0 <= g.boxes_v(p) <= u16::MAX,
{
}

} // verus!
