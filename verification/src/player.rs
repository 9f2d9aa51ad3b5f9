//! The two players of gin rummy.

use vstd::prelude::*;

verus! {

/// One of the two players
///
/// Players index per-player arrays via [`Player::index`].
#[derive(Debug, Clone, Copy, PartialEq, Eq, Structural, PartialOrd, Ord, Hash)]
pub enum Player {
    /// The first player
    One,
    /// The second player
    Two,
}

impl Player {
    /// Both players in order
    pub const ALL: [Player; 2] = [Player::One, Player::Two];

    /// The position of the player, `0` or `1`
    pub open spec fn idx(self) -> int {
        match self {
            Player::One => 0,
            Player::Two => 1,
        }
    }

    /// The other player
    pub open spec fn spec_opponent(self) -> Player {
        match self {
            Player::One => Player::Two,
            Player::Two => Player::One,
        }
    }

    /// The position of the player in per-player arrays
    pub fn index(self) -> (i: usize)
        ensures
            i == self.idx(),
            i < 2,
    {
        match self {
            Player::One => 0,
            Player::Two => 1,
        }
    }

    /// The other player
    pub fn opponent(self) -> (other: Player)
        ensures
            other == self.spec_opponent(),
            other != self,
    {
        match self {
            Player::One => Player::Two,
            Player::Two => Player::One,
        }
    }

    /// The display text: `Player 1` or `Player 2`
    pub fn to_string(&self) -> (s: String)
        ensures
            s@ == seq!['P', 'l', 'a', 'y', 'e', 'r', ' ', if *self == Player::One {
                '1'
            } else {
                '2'
            }],
    {
        let mut s = String::new();
        crate::text::push_char(&mut s, 'P');
        crate::text::push_char(&mut s, 'l');
        crate::text::push_char(&mut s, 'a');
        crate::text::push_char(&mut s, 'y');
        crate::text::push_char(&mut s, 'e');
        crate::text::push_char(&mut s, 'r');
        crate::text::push_char(&mut s, ' ');
        crate::text::push_char(
            &mut s,
            match self {
                Player::One => '1',
                Player::Two => '2',
            },
        );
        s
    }
}

} // verus!
