//! Scoring configuration.
//!
//! Gin rummy bonuses vary by rule school, so every value is an independent
//! knob on [`Rules`].  Three presets cover the common schools: modern
//! tournament values ([`Rules::new`], the default), the classic Bicycle
//! rules ([`Rules::classic`]), and the Gin Rummy Palace app
//! ([`Rules::palace`]).  Start from a preset and adjust fields.
//!
//! Two variants ride on existing knobs: Oklahoma gin is
//! [`Rules::oklahoma`], and straight gin — no knocking short of gin — is
//! exactly `knock_limit: 0`.

use crate::hand::{rank_value, Card};
use vstd::prelude::*;

verus! {

/// What happens to the winner's total when the loser scored nothing
#[derive(Debug, Clone, Copy, PartialEq, Eq, Structural, Hash)]
#[non_exhaustive]
pub enum Shutout {
    /// The winner's final total is doubled (modern schools)
    Double,
    /// A flat bonus is added, e.g. 100 in the classic rules — `Flat(0)`
    /// disables the shutout rule entirely
    Flat(u16),
}

/// How an ace upcard sets the knock limit in Oklahoma gin
#[derive(Debug, Clone, Copy, PartialEq, Eq, Structural, Hash)]
#[non_exhaustive]
pub enum OklahomaAce {
    /// The ace counts its pip value: knock at 1 or less
    One,
    /// The ace demands gin: the knock limit is 0
    GinOnly,
}

/// The scoring rules of a game
///
/// All fields are public knobs: start from a preset and adjust them.
#[derive(Debug, Clone, Copy, PartialEq, Eq, Structural, Hash)]
#[non_exhaustive]
pub struct Rules {
    /// The most deadwood a knocker may keep: 10 in every common school,
    /// and `0` plays straight gin — only a gin knock ends the round
    pub knock_limit: u8,
    /// Oklahoma gin: the opening upcard caps the knock limit at its
    /// deadwood value (pictures 10, aces per [`OklahomaAce`]), or `None`
    /// for a fixed [`knock_limit`](Self::knock_limit)
    pub oklahoma: Option<OklahomaAce>,
    /// Bonus for going gin: 25 modern and palace, 20 classic
    pub gin_bonus: u16,
    /// Bonus for big gin — 11 melded cards declared instead of discarding —
    /// or `None` where the variant is not played (classic, palace)
    pub big_gin_bonus: Option<u16>,
    /// Bonus for undercutting the knocker: 25 modern, 10 classic, 20 palace
    pub undercut_bonus: u16,
    /// Whether the defender undercuts on equal deadwood
    pub undercut_on_tie: bool,
    /// Bonus per won hand: 25 modern, 20 classic, 10 palace
    pub box_bonus: u16,
    /// When `true`, the box bonus is credited to the running score as each
    /// hand is won, counting toward [`game_target`](Self::game_target);
    /// when `false`, boxes are tallied only at game end
    pub immediate_boxes: bool,
    /// Bonus to the winner of the game: 100 traditionally, 0 palace
    pub game_bonus: u16,
    /// The score that ends the game: 100 traditionally
    pub game_target: u16,
    /// The shutout (blitz, schneider) rule for games whose loser never
    /// scored
    pub shutout: Shutout,
}

impl Rules {
    /// Modern tournament scoring, the default
    pub fn new() -> (r: Rules)
        ensures
            r == (Rules {
                knock_limit: 10,
                oklahoma: None,
                gin_bonus: 25,
                big_gin_bonus: Some(31),
                undercut_bonus: 25,
                undercut_on_tie: true,
                box_bonus: 25,
                immediate_boxes: false,
                game_bonus: 100,
                game_target: 100,
                shutout: Shutout::Double,
            }),
    {
        Rules {
            knock_limit: 10,
            oklahoma: None,
            gin_bonus: 25,
            big_gin_bonus: Some(31),
            undercut_bonus: 25,
            undercut_on_tie: true,
            box_bonus: 25,
            immediate_boxes: false,
            game_bonus: 100,
            game_target: 100,
            shutout: Shutout::Double,
        }
    }

    /// Classic scoring per Bicycle: smaller bonuses, no big gin, and a flat
    /// 100-point shutout bonus
    pub fn classic() -> (r: Rules)
        ensures
            r == (Rules {
                knock_limit: 10,
                oklahoma: None,
                gin_bonus: 20,
                big_gin_bonus: None,
                undercut_bonus: 10,
                undercut_on_tie: true,
                box_bonus: 20,
                immediate_boxes: false,
                game_bonus: 100,
                game_target: 100,
                shutout: Shutout::Flat(100),
            }),
    {
        Rules {
            gin_bonus: 20,
            big_gin_bonus: None,
            undercut_bonus: 10,
            box_bonus: 20,
            shutout: Shutout::Flat(100),
            ..Rules::new()
        }
    }

    /// Gin Rummy Palace app scoring: boxes of 10 credited immediately, no
    /// game or shutout bonus
    pub fn palace() -> (r: Rules)
        ensures
            r == (Rules {
                knock_limit: 10,
                oklahoma: None,
                gin_bonus: 25,
                big_gin_bonus: None,
                undercut_bonus: 20,
                undercut_on_tie: true,
                box_bonus: 10,
                immediate_boxes: true,
                game_bonus: 0,
                game_target: 100,
                shutout: Shutout::Flat(0),
            }),
    {
        Rules {
            big_gin_bonus: None,
            undercut_bonus: 20,
            box_bonus: 10,
            immediate_boxes: true,
            game_bonus: 0,
            shutout: Shutout::Flat(0),
            ..Rules::new()
        }
    }

    /// The knock limit for a round opened by an upcard of rank number `r`
    pub open spec fn knock_limit_spec(self, r: int) -> int {
        match self.oklahoma {
            None => self.knock_limit as int,
            Some(ace) => {
                let value = if ace == OklahomaAce::GinOnly && r == 1 {
                    0
                } else {
                    rank_value(r)
                };
                if value < self.knock_limit {
                    value
                } else {
                    self.knock_limit as int
                }
            },
        }
    }

    /// The knock limit in effect for a round opened by `initial_upcard`
    ///
    /// Under [`oklahoma`](Self::oklahoma) the upcard's deadwood value caps
    /// [`knock_limit`](Self::knock_limit) — the house limit only ever
    /// tightens, never widens; without Oklahoma it passes through
    /// unchanged.
    pub fn knock_limit_for(&self, initial_upcard: Card) -> (limit: u8)
        ensures
            limit == self.knock_limit_spec(initial_upcard.rank.value()),
    {
        let value = match self.oklahoma {
            None => return self.knock_limit,
            Some(OklahomaAce::GinOnly) => if initial_upcard.rank.get() == 1 {
                0
            } else {
                initial_upcard.rank.deadwood()
            },
            Some(_) => initial_upcard.rank.deadwood(),
        };
        if value < self.knock_limit {
            value
        } else {
            self.knock_limit
        }
    }
}

/// The opening upcard only ever tightens the house knock limit, never widens
/// it; without Oklahoma it passes through unchanged.
pub proof fn lemma_knock_limit_tightens(rules: Rules, r: int)
    ensures
        rules.knock_limit_spec(r) <= rules.knock_limit,
        rules.oklahoma is None ==> rules.knock_limit_spec(r) == rules.knock_limit,
{
}

impl Default for Rules {
    fn default() -> (r: Rules)
        ensures
            r == Rules::new_spec(),
    {
        Rules::new()
    }
}

impl Rules {
    /// The modern tournament preset
    pub open spec fn new_spec() -> Rules {
        Rules {
            knock_limit: 10,
            oklahoma: None,
            gin_bonus: 25,
            big_gin_bonus: Some(31),
            undercut_bonus: 25,
            undercut_on_tie: true,
            box_bonus: 25,
            immediate_boxes: false,
            game_bonus: 100,
            game_target: 100,
            shutout: Shutout::Double,
        }
    }
}

} // verus!
