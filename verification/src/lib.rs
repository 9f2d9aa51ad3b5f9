//! Gin rummy mechanics: cards and card sets, melds and the exact deadwood
//! solver, and the rules-driven state machine for rounds and games.
//!
//! Gin rummy ranks the ace low: A-2-3 is a run, Q-K-A is not, and an ace
//! counts one point of deadwood.  Hands are written as four dot-separated
//! suit groups in ascending order, clubs first: `"A23.456.789.T"` holds
//! ♣A ♣2 ♣3 ♦4 ♦5 ♦6 ♥7 ♥8 ♥9 ♠10.

use vstd::prelude::*;

pub mod bits;
pub mod deck;
pub mod game;
pub mod hand;
pub mod meld;
pub mod notation;
pub mod player;
pub mod repr;
pub mod round;
pub mod rules;
pub mod text;

pub use game::{FinalScore, Game};
pub use hand::{Card, Hand, Holding, Rank};
pub use meld::{best_melds, deadwood, pip_sum, Meld, MeldKind, Melds};
pub use player::Player;
pub use round::{Phase, Round, RoundResult};
pub use rules::{OklahomaAce, Rules, Shutout};

use text::{chars_of, is_selector, trim_selectors, trimmed_len};

verus! {

/// A suit of playing cards
///
/// Suits are ranked alphabetically, clubs low.  Gin rummy itself treats
/// suits as equals; the order only fixes the display and encoding
/// conventions of this crate.
#[derive(Debug, Clone, Copy, PartialEq, Eq, Structural, PartialOrd, Ord, Hash)]
pub enum Suit {
    /// ♣
    Clubs,
    /// ♦
    Diamonds,
    /// ♥
    Hearts,
    /// ♠
    Spades,
}

/// Error returned when parsing a [`Suit`] fails
#[derive(Debug, Clone, Copy, PartialEq, Eq, Structural)]
pub struct ParseSuitError;

/// The suit named by one character: a letter in either case, or a filled or
/// outlined glyph.
pub open spec fn suit_of_char(c: char) -> Option<Suit> {
    if c == 'C' || c == 'c' || c == '♣' || c == '♧' {
        Some(Suit::Clubs)
    } else if c == 'D' || c == 'd' || c == '♦' || c == '♢' {
        Some(Suit::Diamonds)
    } else if c == 'H' || c == 'h' || c == '♥' || c == '♡' {
        Some(Suit::Hearts)
    } else if c == 'S' || c == 's' || c == '♠' || c == '♤' {
        Some(Suit::Spades)
    } else {
        None
    }
}

/// The suit named by a text: one suit character, optionally followed by
/// variation selectors.
pub open spec fn suit_of_text(s: Seq<char>) -> Option<Suit> {
    let t = trim_selectors(s);
    if t.len() == 1 {
        suit_of_char(t[0])
    } else {
        None
    }
}

impl Suit {
    /// Suits in the ascending order, the order in this crate
    pub const ASC: [Suit; 4] = [Suit::Clubs, Suit::Diamonds, Suit::Hearts, Suit::Spades];

    /// Suits in the descending order
    pub const DESC: [Suit; 4] = [Suit::Spades, Suit::Hearts, Suit::Diamonds, Suit::Clubs];

    /// The position of the suit in ascending order, `0..4`
    pub open spec fn idx(self) -> int {
        match self {
            Suit::Clubs => 0,
            Suit::Diamonds => 1,
            Suit::Hearts => 2,
            Suit::Spades => 3,
        }
    }

    /// The position of the suit in ascending order
    pub fn index(self) -> (i: usize)
        ensures
            i == self.idx(),
            i < 4,
    {
        match self {
            Suit::Clubs => 0,
            Suit::Diamonds => 1,
            Suit::Hearts => 2,
            Suit::Spades => 3,
        }
    }

    /// The suit at a position in ascending order
    pub fn from_index(i: usize) -> (suit: Suit)
        requires
            i < 4,
        ensures
            suit.idx() == i,
    {
        if i == 0 {
            Suit::Clubs
        } else if i == 1 {
            Suit::Diamonds
        } else if i == 2 {
            Suit::Hearts
        } else {
            Suit::Spades
        }
    }

    /// Uppercase letter
    pub fn letter(self) -> (c: char)
        ensures
            c == match self {
                Suit::Clubs => 'C',
                Suit::Diamonds => 'D',
                Suit::Hearts => 'H',
                Suit::Spades => 'S',
            },
    {
        match self {
            Suit::Clubs => 'C',
            Suit::Diamonds => 'D',
            Suit::Hearts => 'H',
            Suit::Spades => 'S',
        }
    }

    /// The filled suit glyph, the display form of the suit
    pub fn symbol(self) -> (c: char)
        ensures
            c == self.spec_symbol(),
    {
        match self {
            Suit::Clubs => '♣',
            Suit::Diamonds => '♦',
            Suit::Hearts => '♥',
            Suit::Spades => '♠',
        }
    }

    /// The filled suit glyph
    pub open spec fn spec_symbol(self) -> char {
        match self {
            Suit::Clubs => '♣',
            Suit::Diamonds => '♦',
            Suit::Hearts => '♥',
            Suit::Spades => '♠',
        }
    }

    /// The display text of the suit: its filled glyph
    pub fn to_string(&self) -> (s: String)
        ensures
            s@ == seq![self.spec_symbol()],
    {
        let mut s = String::new();
        text::push_char(&mut s, self.symbol());
        s
    }

    /// Parse a suit: a letter in either case or a filled or outlined glyph,
    /// optionally followed by Unicode variation selectors
    pub fn parse(s: &str) -> (r: Result<Suit, ParseSuitError>)
        ensures
            r == match suit_of_text(s@) {
                Some(suit) => Ok(suit),
                None => Err(ParseSuitError),
            },
    {
        let cs = chars_of(s);
        assert(cs@.subrange(0, cs@.len() as int) =~= s@);
        parse_suit_chars(&cs, 0, cs.len())
    }
}

/// Parse the suit named by `s[start..end]`.
pub(crate) fn parse_suit_chars(s: &Vec<char>, start: usize, end: usize) -> (r: Result<
    Suit,
    ParseSuitError,
>)
    requires
        start <= end <= s@.len(),
    ensures
        r == match suit_of_text(s@.subrange(start as int, end as int)) {
            Some(suit) => Ok(suit),
            None => Err(ParseSuitError),
        },
{
    let ghost t = s@.subrange(start as int, end as int);
    let mut n = end;
    while n > start && (s[n - 1] == '\u{FE0F}' || s[n - 1] == '\u{FE0E}')
        invariant
            start <= n <= end <= s@.len(),
            trim_selectors(s@.subrange(start as int, n as int)) == trim_selectors(t),
        decreases n,
    {
        assert(s@.subrange(start as int, n as int).drop_last() =~= s@.subrange(
            start as int,
            n - 1,
        ));
        n -= 1;
    }
    let ghost u = s@.subrange(start as int, n as int);
    assert(trim_selectors(u) == u);
    if n - start != 1 {
        return Err(ParseSuitError);
    }
    let c = s[start];
    assert(u[0] == c);
    if c == 'C' || c == 'c' || c == '♣' || c == '♧' {
        Ok(Suit::Clubs)
    } else if c == 'D' || c == 'd' || c == '♦' || c == '♢' {
        Ok(Suit::Diamonds)
    } else if c == 'H' || c == 'h' || c == '♥' || c == '♡' {
        Ok(Suit::Hearts)
    } else if c == 'S' || c == 's' || c == '♠' || c == '♤' {
        Ok(Suit::Spades)
    } else {
        Err(ParseSuitError)
    }
}

impl core::str::FromStr for Suit {
    type Err = ParseSuitError;

    fn from_str(s: &str) -> (r: Result<Suit, ParseSuitError>)
        ensures
            r == match suit_of_text(s@) {
                Some(suit) => Ok(suit),
                None => Err(ParseSuitError),
            },
    {
        Suit::parse(s)
    }
}

} // verus!
