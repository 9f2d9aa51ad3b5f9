//! The text forms of ranks, cards, holdings, hands, and melds.
//!
//! Ranks are written `A23456789TJQK` (a ten may also be read as `10`),
//! cards rank first with the suit glyph (`T♥`, though suit-first text such
//! as `♥T` or `H10` parses too), holdings as their ranks in ascending order,
//! and hands as four holdings separated by dots, clubs first.

use crate::bits::{bit, bit16, group_bit16_ops, group_bit_ops, lane, valid_pos, ALL_BITS, LANE_BITS};
use crate::hand::{card_at, rank_letter, rank_of, Card, Hand, Holding, Rank};
use crate::meld::{is_meld_bits, one_suit, InvalidMeld, Meld, Melds};
use crate::text::{chars_of, is_selector, push_all, push_char, trim_selectors};
use crate::{parse_suit_chars, suit_of_char, suit_of_text, Suit};
use vstd::prelude::*;
use vstd::string::StringSliceAdditionalSpecFns;

verus! {

broadcast use group_bit_ops, group_bit16_ops;

/// Error returned when parsing a [`Rank`] fails
#[derive(Debug, Clone, Copy, PartialEq, Eq, Structural)]
pub struct ParseRankError;

/// Error returned when parsing a [`Card`] fails
#[derive(Debug, Clone, Copy, PartialEq, Eq, Structural)]
#[non_exhaustive]
pub enum ParseCardError {
    /// Invalid suit in card
    Suit,
    /// Invalid rank in card
    Rank,
}

/// The rank named by a text: a rank letter in either case, a digit, or `10`.
pub open spec fn rank_of_text(t: Seq<char>) -> Option<Rank> {
    if t.len() == 2 && t[0] == '1' && t[1] == '0' {
        Some(Rank::T)
    } else if t.len() != 1 {
        None
    } else {
        let c = t[0];
        if c == 'A' || c == 'a' {
            Some(Rank::A)
        } else if c == 'K' || c == 'k' {
            Some(Rank::K)
        } else if c == 'Q' || c == 'q' {
            Some(Rank::Q)
        } else if c == 'J' || c == 'j' {
            Some(Rank::J)
        } else if c == 'T' || c == 't' {
            Some(Rank::T)
        } else if '2' <= c <= '9' {
            Some(rank_of(c as int - '0' as int))
        } else {
            None
        }
    }
}

/// How many characters at the end of `t` a rank takes: two for a trailing
/// `10`, else the last character.
pub open spec fn rank_suffix_len(t: Seq<char>) -> int {
    if t.len() >= 2 && t[t.len() - 2] == '1' && t[t.len() - 1] == '0' {
        2
    } else if t.len() >= 1 {
        1
    } else {
        0
    }
}

/// How many characters at the start of `t` a rank takes: two for a leading
/// `10`, else the first character.
pub open spec fn rank_prefix_len(t: Seq<char>) -> int {
    if t.len() >= 2 && t[0] == '1' && t[1] == '0' {
        2
    } else if t.len() >= 1 {
        1
    } else {
        0
    }
}

/// The card named by a text, in either order
///
/// Read suit first, the rank is the final character (or a final `10`) and
/// the rest names the suit; when that rest names no suit, the text is read
/// rank first, with the first character (or a leading `10`) as the rank.
/// Whichever end holds the suit decides; the other end must then be a rank.
pub open spec fn card_of_text(t: Seq<char>) -> Result<Card, ParseCardError> {
    let k = rank_suffix_len(t);
    match suit_of_text(t.subrange(0, t.len() - k)) {
        Some(suit) => match rank_of_text(t.subrange(t.len() - k, t.len() as int)) {
            Some(rank) => Ok(Card { suit, rank }),
            None => Err(ParseCardError::Rank),
        },
        None => {
            let j = rank_prefix_len(t);
            match suit_of_text(t.subrange(j, t.len() as int)) {
                Some(suit) => match rank_of_text(t.subrange(0, j)) {
                    Some(rank) => Ok(Card { suit, rank }),
                    None => Err(ParseCardError::Rank),
                },
                None => Err(ParseCardError::Suit),
            }
        },
    }
}

/// The display text of a card: rank letter, then suit glyph.
pub open spec fn card_text(c: Card) -> Seq<char> {
    seq![rank_letter(c.rank.value()), c.suit.spec_symbol()]
}

/// Parse the rank named by `s[start..end]`.
pub(crate) fn parse_rank_chars(s: &Vec<char>, start: usize, end: usize) -> (r: Result<
    Rank,
    ParseRankError,
>)
    requires
        start <= end <= s@.len(),
    ensures
        r == match rank_of_text(s@.subrange(start as int, end as int)) {
            Some(rank) => Ok(rank),
            None => Err(ParseRankError),
        },
{
    let ghost t = s@.subrange(start as int, end as int);
    if end - start == 2 && s[start] == '1' && s[start + 1] == '0' {
        assert(t[0] == '1' && t[1] == '0');
        return Ok(Rank::T);
    }
    if end - start != 1 {
        proof {
            if t.len() == 2 {
                assert(t[0] == s@[start as int] && t[1] == s@[start + 1]);
            }
        }
        return Err(ParseRankError);
    }
    let c = s[start];
    assert(t[0] == c);
    if c == 'A' || c == 'a' {
        Ok(Rank::A)
    } else if c == 'K' || c == 'k' {
        Ok(Rank::K)
    } else if c == 'Q' || c == 'q' {
        Ok(Rank::Q)
    } else if c == 'J' || c == 'j' {
        Ok(Rank::J)
    } else if c == 'T' || c == 't' {
        Ok(Rank::T)
    } else if '2' <= c && c <= '9' {
        let d = (c as u32) - ('0' as u32);
        Ok(Rank::new(d as u8))
    } else {
        Err(ParseRankError)
    }
}

/// Parse the card named by `s[start..end]`, in either order.
pub(crate) fn parse_card_chars(s: &Vec<char>, start: usize, end: usize) -> (r: Result<
    Card,
    ParseCardError,
>)
    requires
        start <= end <= s@.len(),
    ensures
        r == card_of_text(s@.subrange(start as int, end as int)),
{
    let ghost t = s@.subrange(start as int, end as int);
    let n = end - start;
    let k: usize = if n >= 2 && s[end - 2] == '1' && s[end - 1] == '0' {
        2
    } else if n >= 1 {
        1
    } else {
        0
    };
    proof {
        if n >= 2 {
            assert(t[t.len() - 2] == s@[end - 2] && t[t.len() - 1] == s@[end - 1]);
        }
        assert(k == rank_suffix_len(t));
        assert(s@.subrange(start as int, (end - k) as int) =~= t.subrange(0, t.len() - k));
        assert(s@.subrange((end - k) as int, end as int) =~= t.subrange(
            t.len() - k,
            t.len() as int,
        ));
    }
    if let Ok(suit) = parse_suit_chars(s, start, end - k) {
        return match parse_rank_chars(s, end - k, end) {
            Ok(rank) => Ok(Card { suit, rank }),
            Err(_) => Err(ParseCardError::Rank),
        };
    }
    let j: usize = if n >= 2 && s[start] == '1' && s[start + 1] == '0' {
        2
    } else if n >= 1 {
        1
    } else {
        0
    };
    proof {
        if n >= 2 {
            assert(t[0] == s@[start as int] && t[1] == s@[start + 1]);
        }
        assert(j == rank_prefix_len(t));
        assert(s@.subrange((start + j) as int, end as int) =~= t.subrange(j as int, t.len() as int));
        assert(s@.subrange(start as int, (start + j) as int) =~= t.subrange(0, j as int));
    }
    match parse_suit_chars(s, start + j, end) {
        Ok(suit) => match parse_rank_chars(s, start, start + j) {
            Ok(rank) => Ok(Card { suit, rank }),
            Err(_) => Err(ParseCardError::Rank),
        },
        Err(_) => Err(ParseCardError::Suit),
    }
}

impl Rank {
    /// The display text of the rank: its letter
    pub fn to_string(&self) -> (s: String)
        ensures
            s@ == seq![rank_letter(self.value())],
    {
        let mut s = String::new();
        push_char(&mut s, self.letter());
        s
    }

    /// Parse a rank: a rank letter in either case, a digit, or `10`
    pub fn parse(s: &str) -> (r: Result<Rank, ParseRankError>)
        ensures
            r == match rank_of_text(s@) {
                Some(rank) => Ok(rank),
                None => Err(ParseRankError),
            },
    {
        let cs = chars_of(s);
        assert(cs@.subrange(0, cs@.len() as int) =~= s@);
        parse_rank_chars(&cs, 0, cs.len())
    }
}

impl core::str::FromStr for Rank {
    type Err = ParseRankError;

    fn from_str(s: &str) -> (r: Result<Rank, ParseRankError>)
        ensures
            r == match rank_of_text(s@) {
                Some(rank) => Ok(rank),
                None => Err(ParseRankError),
            },
    {
        Rank::parse(s)
    }
}

impl Card {
    /// The display text of the card: rank letter, then suit glyph, e.g. `T♥`
    pub fn to_string(&self) -> (s: String)
        ensures
            s@ == card_text(*self),
    {
        let mut s = String::new();
        push_char(&mut s, self.rank.letter());
        push_char(&mut s, self.suit.symbol());
        s
    }

    /// Parse a card in either order: `A♠`, `♠A`, `10♥`, `H10`, `sa`, …
    pub fn parse(s: &str) -> (r: Result<Card, ParseCardError>)
        ensures
            r == card_of_text(s@),
    {
        let cs = chars_of(s);
        assert(cs@.subrange(0, cs@.len() as int) =~= s@);
        parse_card_chars(&cs, 0, cs.len())
    }
}

impl core::str::FromStr for Card {
    type Err = ParseCardError;

    fn from_str(s: &str) -> (r: Result<Card, ParseCardError>)
        ensures
            r == card_of_text(s@),
    {
        Card::parse(s)
    }
}

/// A rank's display text reads back as the rank.
pub proof fn lemma_rank_text_roundtrip(r: Rank)
    ensures
        rank_of_text(seq![rank_letter(r.value())]) == Some(r),
{
    crate::hand::lemma_rank_of_value(r);
}

/// A suit's glyph and its letter read back as the suit.
pub proof fn lemma_suit_text_roundtrip(s: Suit)
    ensures
        suit_of_text(seq![s.spec_symbol()]) == Some(s),
        suit_of_text(
            seq![
                match s {
                    Suit::Clubs => 'C',
                    Suit::Diamonds => 'D',
                    Suit::Hearts => 'H',
                    Suit::Spades => 'S',
                },
            ],
        ) == Some(s),
{
    let a = seq![s.spec_symbol()];
    let b = seq![
        match s {
            Suit::Clubs => 'C',
            Suit::Diamonds => 'D',
            Suit::Hearts => 'H',
            Suit::Spades => 'S',
        },
    ];
    assert(trim_selectors(a.drop_last()) == a.drop_last());
    assert(trim_selectors(a) == a);
    assert(trim_selectors(b) == b);
}

/// A card's display text reads back as the card.
pub proof fn lemma_card_text_roundtrip(c: Card)
    ensures
        card_of_text(card_text(c)) == Ok::<Card, ParseCardError>(c),
{
    let t = card_text(c);
    crate::hand::lemma_rank_of_value(c.rank);
    assert(rank_suffix_len(t) == 1);
    assert(t.subrange(0, 1) =~= seq![rank_letter(c.rank.value())]);
    assert(t.subrange(1, 2) =~= seq![c.suit.spec_symbol()]);
    assert(trim_selectors(t.subrange(0, 1)) == t.subrange(0, 1));
    assert(suit_of_text(t.subrange(0, 1)) is None);
    assert(rank_prefix_len(t) == 1);
    lemma_suit_text_roundtrip(c.suit);
    lemma_rank_text_roundtrip(c.rank);
}

/// An error which can be returned when parsing a [`Holding`]
#[derive(Debug, Clone, Copy, PartialEq, Eq, Structural, Hash)]
#[non_exhaustive]
pub enum ParseHoldingError {
    /// Ranks are not all valid or in ascending order
    InvalidRanks,
    /// The same rank appears more than once
    RepeatedRank,
    /// A suit contains more than 13 cards
    TooManyCards,
}

/// An error which can be returned when parsing a [`Hand`]
#[derive(Debug, Clone, Copy, PartialEq, Eq, Structural, Hash)]
#[non_exhaustive]
pub enum ParseHandError {
    /// Error in a holding
    Holding(ParseHoldingError),
    /// The hand does not contain 4 suits
    NotFourSuits,
}

/// The ranks of `x` among `1..=n`, as letters in ascending order.
pub open spec fn holding_text_upto(x: u16, n: int) -> Seq<char>
    decreases n,
{
    if n <= 0 {
        seq![]
    } else {
        holding_text_upto(x, n - 1) + if bit16(x, n) {
            seq![rank_letter(n)]
        } else {
            Seq::<char>::empty()
        }
    }
}

/// The display text of a holding: its ranks as letters in ascending order,
/// the ten as `T`; bits that are no rank are not shown.
pub open spec fn holding_text(x: u16) -> Seq<char> {
    holding_text_upto(x, 13)
}

/// The display text of a hand: `-` when empty, else its four holdings
/// separated by dots, clubs first.
pub open spec fn hand_text(x: u64) -> Seq<char> {
    if x == 0 {
        seq!['-']
    } else {
        holding_text(lane(x, 0)) + seq!['.'] + holding_text(lane(x, 1)) + seq!['.'] + holding_text(
            lane(x, 2),
        ) + seq!['.'] + holding_text(lane(x, 3))
    }
}

/// A byte with ASCII lowercase letters made uppercase.
pub open spec fn upper_byte(b: u8) -> u8 {
    if 97 <= b <= 122 {
        (b - 32) as u8
    } else {
        b
    }
}

/// The rank number a single byte names, or 0: `A`, `K`, `Q`, `J`, `T` in
/// either case and the digits `2` to `9`.
pub open spec fn rank_of_byte(b: u8) -> int {
    let c = upper_byte(b);
    if c == 65 {
        1
    } else if c == 75 {
        13
    } else if c == 81 {
        12
    } else if c == 74 {
        11
    } else if c == 84 {
        10
    } else if 50 <= c <= 57 {
        c - 48
    } else {
        0
    }
}

/// Reading ranks from position `i` of `b` on, after rank `prev`, into the
/// holding `acc`: each rank a rank byte or `10`, strictly ascending.
pub open spec fn holding_scan(b: Seq<u8>, i: int, prev: int, acc: u16) -> Result<
    u16,
    ParseHoldingError,
>
    decreases b.len() - i,
{
    if i < 0 || i >= b.len() {
        Ok(acc)
    } else {
        let ten = upper_byte(b[i]) == 49;
        let r = if ten {
            if i + 1 < b.len() && b[i + 1] == 48 {
                10
            } else {
                0
            }
        } else {
            rank_of_byte(b[i])
        };
        let next = if ten {
            i + 2
        } else {
            i + 1
        };
        if r == 0 {
            Err(ParseHoldingError::InvalidRanks)
        } else if r == prev {
            Err(ParseHoldingError::RepeatedRank)
        } else if r < prev {
            Err(ParseHoldingError::InvalidRanks)
        } else {
            holding_scan(b, next, r, acc | (1u16 << (r as u16)))
        }
    }
}

/// The holding written by the bytes `b`: at most 14 bytes (13 ranks and the
/// extra byte of a `10`) of strictly ascending ranks.
pub open spec fn holding_of_bytes(b: Seq<u8>) -> Result<u16, ParseHoldingError> {
    if b.len() > 14 {
        Err(ParseHoldingError::TooManyCards)
    } else {
        holding_scan(b, 0, 0, 0)
    }
}

/// The dot-separated parts of `b`, in order.
pub open spec fn dot_parts(b: Seq<u8>) -> Seq<Seq<u8>>
    decreases b.len(),
{
    if b.len() == 0 {
        seq![Seq::<u8>::empty()]
    } else {
        let rest = dot_parts(b.drop_last());
        if b.last() == 46 {
            rest.push(Seq::<u8>::empty())
        } else {
            rest.update(rest.len() - 1, rest.last().push(b.last()))
        }
    }
}

/// The first error among the first `n` parts read as holdings.
pub open spec fn parts_error(parts: Seq<Seq<u8>>, n: int) -> Option<ParseHoldingError>
    decreases n,
{
    if n <= 0 {
        None
    } else {
        match parts_error(parts, n - 1) {
            Some(e) => Some(e),
            None => match holding_of_bytes(parts[n - 1]) {
                Err(e) => Some(e),
                Ok(_) => None,
            },
        }
    }
}

/// The card bits of four holdings in suit order.
pub open spec fn lanes_word(a: u16, b: u16, c: u16, d: u16) -> u64 {
    (a as u64) | ((b as u64) << 16u64) | ((c as u64) << 32u64) | ((d as u64) << 48u64)
}

/// The hand written by the bytes `b`: `-` for the empty hand, else four
/// holdings separated by dots, clubs first, at most 59 bytes in all; the
/// first bad holding, in order, is the error.
pub open spec fn hand_of_bytes(b: Seq<u8>) -> Result<u64, ParseHandError> {
    if b.len() > 59 {
        Err(ParseHandError::Holding(ParseHoldingError::TooManyCards))
    } else if b == seq![45u8] {
        Ok(0)
    } else {
        let parts = dot_parts(b);
        match parts_error(parts, parts.len() as int) {
            Some(e) => Err(ParseHandError::Holding(e)),
            None => if parts.len() != 4 {
                Err(ParseHandError::NotFourSuits)
            } else {
                Ok(
                    lanes_word(
                        holding_of_bytes(parts[0]).unwrap(),
                        holding_of_bytes(parts[1]).unwrap(),
                        holding_of_bytes(parts[2]).unwrap(),
                        holding_of_bytes(parts[3]).unwrap(),
                    ),
                )
            },
        }
    }
}

/// Parse the holding written by `b[start..end]`.
pub(crate) fn parse_holding_bytes(b: &[u8], start: usize, end: usize) -> (r: Result<
    Holding,
    ParseHoldingError,
>)
    requires
        start <= end <= b@.len(),
    ensures
        match holding_of_bytes(b@.subrange(start as int, end as int)) {
            Ok(x) => r matches Ok(h) && h.bits16() == x,
            Err(e) => r == Err::<Holding, ParseHoldingError>(e),
        },
{
    let ghost t = b@.subrange(start as int, end as int);
    if end - start > 14 {
        return Err(ParseHoldingError::TooManyCards);
    }
    let mut i = start;
    let mut prev: u8 = 0;
    let mut holding = Holding::EMPTY();
    while i < end
        invariant
            start <= i <= end + 1,
            end <= b@.len(),
            t == b@.subrange(start as int, end as int),
            end - start <= 14,
            prev <= 13,
            holding_scan(t, 0, 0, 0) == holding_scan(t, i - start, prev as int, holding.bits16()),
        decreases end + 1 - i,
    {
        let ghost k = i - start;
        assert(t[k] == b@[i as int]);
        let c = if b[i] >= 97 && b[i] <= 122 {
            b[i] - 32
        } else {
            b[i]
        };
        assert(c == upper_byte(t[k]));
        let mut next = i + 1;
        let rank: u8 = if c == 65 {
            1
        } else if c == 75 {
            13
        } else if c == 81 {
            12
        } else if c == 74 {
            11
        } else if c == 84 {
            10
        } else if c == 49 {
            if i + 1 >= end || b[i + 1] != 48 {
                proof {
                    if i + 1 < end {
                        assert(t[k + 1] == b@[i + 1]);
                    }
                }
                return Err(ParseHoldingError::InvalidRanks);
            }
            assert(t[k + 1] == b@[i + 1]);
            next = i + 2;
            10
        } else if c >= 50 && c <= 57 {
            c - 48
        } else {
            assert(rank_of_byte(t[k]) == 0);
            return Err(ParseHoldingError::InvalidRanks);
        };
        proof {
            if c != 49 {
                assert(rank == rank_of_byte(t[k]));
            }
        }
        if rank == prev {
            return Err(ParseHoldingError::RepeatedRank);
        }
        if rank < prev {
            return Err(ParseHoldingError::InvalidRanks);
        }
        prev = rank;
        holding.insert(Rank::new(rank));
        i = next;
    }
    proof {
        assert(holding_scan(t, i - start, prev as int, holding.bits16()) == Ok::<
            u16,
            ParseHoldingError,
        >(holding.bits16()));
    }
    Ok(holding)
}

/// A shorter prefix of the ranks' text is a prefix of a longer one.
proof fn lemma_holding_text_prefix(x: u16, n: int, m: int)
    requires
        0 <= n <= m,
    ensures
        holding_text_upto(x, n).len() <= holding_text_upto(x, m).len(),
        forall|i: int|
            0 <= i < holding_text_upto(x, n).len() ==> #[trigger] holding_text_upto(x, m)[i]
                == holding_text_upto(x, n)[i],
    decreases m - n,
{
    if n < m {
        lemma_holding_text_prefix(x, n, m - 1);
    }
}

/// The text of a holding is ASCII.
proof fn lemma_holding_text_ascii(x: u16, n: int)
    ensures
        vstd::utf8::is_ascii_chars(holding_text_upto(x, n)),
        holding_text_upto(x, n).len() <= if n < 0 {
            0
        } else {
            n
        },
    decreases n,
{
    if n > 0 {
        lemma_holding_text_ascii(x, n - 1);
        let t = holding_text_upto(x, n);
        assert forall|i: int| 0 <= i < t.len() implies '\0' <= #[trigger] t[i] <= '\u{7f}' by {
            if i < holding_text_upto(x, n - 1).len() {
                assert(t[i] == holding_text_upto(x, n - 1)[i]);
            }
        }
    }
}

/// Scanning the bytes of a holding's text from the position of rank `n`
/// on, after a smaller rank, adds exactly the ranks of `x` from `n` up.
proof fn lemma_holding_scan_from(x: u16, b: Seq<u8>, n: int, prev: int, acc: u16)
    requires
        1 <= n <= 14,
        0 <= prev < n,
        x & LANE_BITS == x,
        b.len() == holding_text(x).len(),
        forall|i: int| 0 <= i < b.len() ==> #[trigger] b[i] == holding_text(x)[i] as u8,
    ensures
        holding_scan(b, holding_text_upto(x, n - 1).len() as int, prev, acc) is Ok,
        forall|p: int|
            #[trigger] bit16(holding_scan(b, holding_text_upto(x, n - 1).len() as int, prev, acc)->Ok_0, p)
                == (bit16(acc, p) || (n <= p && bit16(x, p))),
    decreases 14 - n,
{
    let i = holding_text_upto(x, n - 1).len() as int;
    lemma_holding_text_prefix(x, n - 1, 13);
    if n == 14 {
        assert(holding_scan(b, i, prev, acc) == Ok::<u16, ParseHoldingError>(acc));
        assert forall|p: int| #[trigger] bit16(acc, p) == (bit16(acc, p) || (n <= p && bit16(x, p))) by {
            if n <= p && bit16(x, p) {
                assert(bit16(x & LANE_BITS, p));
            }
        }
    } else {
        lemma_holding_text_prefix(x, n, 13);
        if bit16(x, n) {
            let c = rank_letter(n);
            assert(holding_text_upto(x, n)[i] == c);
            assert(b[i] == c as u8);
            assert(upper_byte(b[i]) == b[i]);
            assert(rank_of_byte(b[i]) == n);
            lemma_holding_scan_from(x, b, n + 1, n, acc | (1u16 << (n as u16)));
        } else {
            lemma_holding_scan_from(x, b, n + 1, prev, acc);
        }
    }
}

/// A holding's display text reads back as the holding, for holdings of
/// ranks only.
pub proof fn lemma_holding_text_roundtrip(x: u16)
    requires
        x & LANE_BITS == x,
    ensures
        holding_of_bytes(vstd::utf8::encode_utf8(holding_text(x))) == Ok::<u16, ParseHoldingError>(x),
{
    let t = holding_text(x);
    let b = vstd::utf8::encode_utf8(t);
    lemma_holding_text_ascii(x, 13);
    vstd::utf8::is_ascii_chars_encode_utf8(t);
    assert(holding_text_upto(x, 0).len() == 0);
    lemma_holding_scan_from(x, b, 1, 0, 0);
    let r = holding_scan(b, 0, 0, 0)->Ok_0;
    assert forall|p: int| 0 <= p < 16 implies #[trigger] bit16(r, p) == bit16(x, p) by {
        if bit16(x, p) {
            assert(bit16(x & LANE_BITS, p));
        }
    }
    crate::bits::lemma_bits16_ext(r, x);
}

impl Holding {
    /// The display text of the holding: its ranks in ascending order, the
    /// ten shown as `T` for symmetry with parsing
    pub fn to_string(&self) -> (s: String)
        ensures
            s@ == holding_text(self.bits16()),
    {
        let x = self.to_bits();
        let mut s = String::new();
        let mut r: u16 = 1;
        while r < 14
            invariant
                1 <= r <= 14,
                x == self.bits16(),
                s@ == holding_text_upto(x, r - 1),
            decreases 14 - r,
        {
            if (x >> r) & 1 == 1 {
                push_char(&mut s, Rank::new(r as u8).letter());
            }
            r += 1;
        }
        s
    }

    /// Parse a holding: ranks in strictly ascending order, in either case,
    /// with the ten written `T` or `10`
    pub fn parse(s: &str) -> (r: Result<Holding, ParseHoldingError>)
        ensures
            match holding_of_bytes(s.spec_bytes()) {
                Ok(x) => r matches Ok(h) && h.bits16() == x,
                Err(e) => r == Err::<Holding, ParseHoldingError>(e),
            },
    {
        let b = s.as_bytes();
        assert(b@.subrange(0, b@.len() as int) =~= b@);
        parse_holding_bytes(b, 0, b.len())
    }
}

impl core::str::FromStr for Holding {
    type Err = ParseHoldingError;

    fn from_str(s: &str) -> (r: Result<Holding, ParseHoldingError>)
        ensures
            match holding_of_bytes(s.spec_bytes()) {
                Ok(x) => r matches Ok(h) && h.bits16() == x,
                Err(e) => r == Err::<Holding, ParseHoldingError>(e),
            },
    {
        Holding::parse(s)
    }
}

/// The bytes of an ASCII text.
pub open spec fn ascii_bytes(t: Seq<char>) -> Seq<u8> {
    Seq::new(t.len(), |i: int| t[i] as u8)
}

/// The UTF-8 encoding of an ASCII text is its bytes.
proof fn lemma_ascii_encoding(t: Seq<char>)
    requires
        vstd::utf8::is_ascii_chars(t),
    ensures
        vstd::utf8::encode_utf8(t) == ascii_bytes(t),
{
    vstd::utf8::is_ascii_chars_encode_utf8(t);
    assert(vstd::utf8::encode_utf8(t) =~= ascii_bytes(t));
}

/// Bytes without a dot are a single part.
proof fn lemma_dot_parts_single(u: Seq<u8>)
    requires
        forall|i: int| 0 <= i < u.len() ==> u[i] != 46,
    ensures
        dot_parts(u) == seq![u],
    decreases u.len(),
{
    if u.len() > 0 {
        lemma_dot_parts_single(u.drop_last());
        assert(u.drop_last().push(u.last()) =~= u);
    } else {
        assert(u =~= Seq::<u8>::empty());
    }
}

/// The parts around a dot are the parts of each side.
proof fn lemma_dot_parts_concat(a: Seq<u8>, c: Seq<u8>)
    ensures
        dot_parts(a + seq![46u8] + c) == dot_parts(a) + dot_parts(c),
    decreases c.len(),
{
    let w = a + seq![46u8] + c;
    if c.len() == 0 {
        assert(w.drop_last() =~= a);
        assert(dot_parts(c) =~= seq![Seq::<u8>::empty()]);
        assert(dot_parts(a).push(Seq::<u8>::empty()) =~= dot_parts(a) + dot_parts(c));
    } else {
        lemma_dot_parts_concat(a, c.drop_last());
        assert(w.drop_last() =~= a + seq![46u8] + c.drop_last());
        assert(w.last() == c.last());
        let p = dot_parts(a);
        let q = dot_parts(c.drop_last());
        assert(q.len() >= 1) by {
            lemma_dot_parts_len(c.drop_last());
        }
        if c.last() == 46 {
            assert((p + q).push(Seq::<u8>::empty()) =~= p + q.push(Seq::<u8>::empty()));
        } else {
            assert((p + q).update((p + q).len() - 1, (p + q).last().push(c.last())) =~= p
                + q.update(q.len() - 1, q.last().push(c.last())));
        }
    }
}

/// There is always at least one part.
proof fn lemma_dot_parts_len(b: Seq<u8>)
    ensures
        dot_parts(b).len() >= 1,
    decreases b.len(),
{
    if b.len() > 0 {
        lemma_dot_parts_len(b.drop_last());
    }
}

/// The bytes of a holding's text hold no dot.
proof fn lemma_holding_text_no_dot(x: u16, n: int)
    ensures
        forall|i: int|
            0 <= i < holding_text_upto(x, n).len() ==> #[trigger] holding_text_upto(x, n)[i]
                != '.',
    decreases n,
{
    if n > 0 {
        lemma_holding_text_no_dot(x, n - 1);
        let t = holding_text_upto(x, n);
        assert forall|i: int| 0 <= i < t.len() implies #[trigger] t[i] != '.' by {
            if i < holding_text_upto(x, n - 1).len() {
                assert(t[i] == holding_text_upto(x, n - 1)[i]);
            }
        }
    }
}

/// The lanes of a card set of valid cards are holdings of ranks.
proof fn lemma_lane_ranks(x: u64, s: int)
    requires
        crate::bits::subset(x, ALL_BITS),
        0 <= s < 4,
    ensures
        lane(x, s) & LANE_BITS == lane(x, s),
{
    let l = lane(x, s);
    assert forall|r: int| 0 <= r < 16 implies #[trigger] bit16(l & LANE_BITS, r) == bit16(l, r) by {
        crate::bits::lemma_lane_bit(x, s, r);
        if bit(x, 16 * s + r) {
            assert(bit(ALL_BITS, 16 * s + r));
        }
    }
    crate::bits::lemma_bits16_ext(l & LANE_BITS, l);
}

/// The four lanes of a card word put back together make the word.
proof fn lemma_lanes_word(x: u64)
    ensures
        lanes_word(lane(x, 0), lane(x, 1), lane(x, 2), lane(x, 3)) == x,
{
    let w = lanes_word(lane(x, 0), lane(x, 1), lane(x, 2), lane(x, 3));
    let a = lane(x, 0) as u64;
    assert(a == a << 0u64) by (bit_vector);
    assert forall|p: int| 0 <= p < 64 implies #[trigger] bit(w, p) == bit(x, p) by {
        crate::bits::lemma_shifted_lane_bit(lane(x, 0), 0, p);
        crate::bits::lemma_shifted_lane_bit(lane(x, 1), 1, p);
        crate::bits::lemma_shifted_lane_bit(lane(x, 2), 2, p);
        crate::bits::lemma_shifted_lane_bit(lane(x, 3), 3, p);
        let s = p / 16;
        crate::bits::lemma_lane_bit(x, s, p - 16 * s);
    }
    crate::bits::lemma_bits_ext(w, x);
}

/// A hand's display text reads back as the hand, for hands of valid cards.
pub proof fn lemma_hand_text_roundtrip(x: u64)
    requires
        crate::bits::subset(x, ALL_BITS),
    ensures
        hand_of_bytes(vstd::utf8::encode_utf8(hand_text(x))) == Ok::<u64, ParseHandError>(x),
{
    let t = hand_text(x);
    if x == 0 {
        assert(vstd::utf8::is_ascii_chars(t));
        lemma_ascii_encoding(t);
        assert(ascii_bytes(t) =~= seq![45u8]);
    } else {
        let h0 = holding_text(lane(x, 0));
        let h1 = holding_text(lane(x, 1));
        let h2 = holding_text(lane(x, 2));
        let h3 = holding_text(lane(x, 3));
        lemma_holding_text_ascii(lane(x, 0), 13);
        lemma_holding_text_ascii(lane(x, 1), 13);
        lemma_holding_text_ascii(lane(x, 2), 13);
        lemma_holding_text_ascii(lane(x, 3), 13);
        let dot = seq!['.'];
        assert(vstd::utf8::is_ascii_chars(t)) by {
            assert forall|i: int| 0 <= i < t.len() implies '\0' <= #[trigger] t[i] <= '\u{7f}' by {
                let n0 = h0.len() as int;
                let n1 = h1.len() as int;
                let n2 = h2.len() as int;
                if i < n0 {
                    assert(t[i] == h0[i]);
                } else if i == n0 {
                } else if i < n0 + 1 + n1 {
                    assert(t[i] == h1[i - n0 - 1]);
                } else if i == n0 + 1 + n1 {
                } else if i < n0 + 1 + n1 + 1 + n2 {
                    assert(t[i] == h2[i - n0 - 2 - n1]);
                } else if i == n0 + 2 + n1 + n2 {
                } else {
                    assert(t[i] == h3[i - n0 - 3 - n1 - n2]);
                }
            }
        }
        lemma_ascii_encoding(t);
        let b0 = ascii_bytes(h0);
        let b1 = ascii_bytes(h1);
        let b2 = ascii_bytes(h2);
        let b3 = ascii_bytes(h3);
        let b = ascii_bytes(t);
        assert(b =~= b0 + seq![46u8] + b1 + seq![46u8] + b2 + seq![46u8] + b3);
        lemma_holding_text_no_dot(lane(x, 0), 13);
        lemma_holding_text_no_dot(lane(x, 1), 13);
        lemma_holding_text_no_dot(lane(x, 2), 13);
        lemma_holding_text_no_dot(lane(x, 3), 13);
        lemma_dot_parts_single(b0);
        lemma_dot_parts_single(b1);
        lemma_dot_parts_single(b2);
        lemma_dot_parts_single(b3);
        lemma_dot_parts_concat(b0 + seq![46u8] + b1 + seq![46u8] + b2, b3);
        lemma_dot_parts_concat(b0 + seq![46u8] + b1, b2);
        lemma_dot_parts_concat(b0, b1);
        let parts = dot_parts(b);
        assert(parts =~= seq![b0, b1, b2, b3]);
        lemma_lane_ranks(x, 0);
        lemma_lane_ranks(x, 1);
        lemma_lane_ranks(x, 2);
        lemma_lane_ranks(x, 3);
        lemma_ascii_encoding(h0);
        lemma_ascii_encoding(h1);
        lemma_ascii_encoding(h2);
        lemma_ascii_encoding(h3);
        lemma_holding_text_roundtrip(lane(x, 0));
        lemma_holding_text_roundtrip(lane(x, 1));
        lemma_holding_text_roundtrip(lane(x, 2));
        lemma_holding_text_roundtrip(lane(x, 3));
        assert(parts_error(parts, 4) is None) by {
            reveal_with_fuel(parts_error, 5);
        }
        assert(b != seq![45u8]) by {
            if b == seq![45u8] {
                assert(b.len() == 1);
            }
        }
        lemma_lanes_word(x);
    }
}

impl Hand {
    /// The display text of the hand: `-` when empty, else the four
    /// holdings separated by dots, clubs first, e.g. `A23.456.789.T`
    ///
    /// This deliberately differs from the descending, spades-first PBN
    /// format of bridge software.
    pub fn to_string(&self) -> (s: String)
        ensures
            s@ == hand_text(self.bits()),
    {
        let mut s = String::new();
        if self.is_empty() {
            push_char(&mut s, '-');
            return s;
        }
        push_all(&mut s, &self.holding(Suit::Clubs).to_string());
        push_char(&mut s, '.');
        push_all(&mut s, &self.holding(Suit::Diamonds).to_string());
        push_char(&mut s, '.');
        push_all(&mut s, &self.holding(Suit::Hearts).to_string());
        push_char(&mut s, '.');
        push_all(&mut s, &self.holding(Suit::Spades).to_string());
        s
    }

    /// Parse a hand: `-` for the empty hand, else four holdings separated
    /// by dots, clubs first
    pub fn parse(s: &str) -> (r: Result<Hand, ParseHandError>)
        ensures
            match hand_of_bytes(s.spec_bytes()) {
                Ok(x) => r matches Ok(h) && h.bits() == x,
                Err(e) => r == Err::<Hand, ParseHandError>(e),
            },
    {
        let b = s.as_bytes();
        let ghost bs = b@;
        let n = b.len();
        if n > 59 {
            return Err(ParseHandError::Holding(ParseHoldingError::TooManyCards));
        }
        if n == 1 && b[0] == 45 {
            assert(bs =~= seq![45u8]);
            return Ok(Hand::EMPTY());
        }
        assert(bs != seq![45u8]) by {
            if bs == seq![45u8] {
                assert(bs[0] == 45u8);
            }
        }
        let mut holdings: Vec<Holding> = Vec::new();
        let ghost mut done: Seq<Seq<u8>> = seq![];
        let mut start: usize = 0;
        let mut i: usize = 0;
        proof {
            assert(bs.take(0) =~= Seq::<u8>::empty());
            assert(bs.subrange(0, 0) =~= Seq::<u8>::empty());
        }
        while i < n
            invariant
                n == bs.len(),
                bs == b@,
                bs == s.spec_bytes(),
                bs != seq![45u8],
                n <= 59,
                start <= i <= n,
                dot_parts(bs.take(i as int)) == done.push(bs.subrange(start as int, i as int)),
                parts_error(done, done.len() as int) is None,
                holdings@.len() == done.len(),
                forall|k: int|
                    0 <= k < done.len() ==> holding_of_bytes(#[trigger] done[k]) == Ok::<
                        u16,
                        ParseHoldingError,
                    >(holdings@[k].bits16()),
            decreases n - i,
        {
            proof {
                assert(bs.take(i + 1).drop_last() =~= bs.take(i as int));
                assert(bs.take(i + 1).last() == bs[i as int]);
            }
            if b[i] == 46 {
                let ghost part = bs.subrange(start as int, i as int);
                match parse_holding_bytes(b, start, i) {
                    Ok(h) => {
                        holdings.push(h);
                        proof {
                            let d2 = done.push(part);
                            assert(d2.take(done.len() as int) =~= done);
                            assert(parts_error(d2, done.len() as int) == parts_error(
                                done,
                                done.len() as int,
                            )) by {
                                lemma_parts_error_prefix(d2, done, done.len() as int);
                            }
                            done = d2;
                        }
                    },
                    Err(e) => {
                        proof {
                            let d2 = done.push(part);
                            lemma_parts_error_prefix(d2, done, done.len() as int);
                            assert(parts_error(d2, d2.len() as int) == Some(e));
                            let all = dot_parts(bs);
                            assert(dot_parts(bs.take(i + 1)) == d2.push(Seq::<u8>::empty()));
                            lemma_dot_parts_extend(bs, (i + 1) as int);
                            lemma_parts_error_prefix(all, d2, d2.len() as int);
                            lemma_parts_error_sticks(all, d2.len() as int, all.len() as int);
                        }
                        return Err(ParseHandError::Holding(e));
                    },
                }
                start = i + 1;
                proof {
                    assert(bs.subrange(start as int, (i + 1) as int) =~= Seq::<u8>::empty());
                }
            } else {
                proof {
                    assert(bs.subrange(start as int, (i + 1) as int) =~= bs.subrange(
                        start as int,
                        i as int,
                    ).push(bs[i as int]));
                }
            }
            i += 1;
        }
        proof {
            assert(bs.take(n as int) =~= bs);
        }
        let ghost last = bs.subrange(start as int, n as int);
        match parse_holding_bytes(b, start, n) {
            Ok(h) => {
                holdings.push(h);
                proof {
                    let d2 = done.push(last);
                    lemma_parts_error_prefix(d2, done, done.len() as int);
                    done = d2;
                }
            },
            Err(e) => {
                proof {
                    let d2 = done.push(last);
                    lemma_parts_error_prefix(d2, done, done.len() as int);
                }
                return Err(ParseHandError::Holding(e));
            },
        }
        if holdings.len() != 4 {
            return Err(ParseHandError::NotFourSuits);
        }
        let h = Hand::new(holdings[0], holdings[1], holdings[2], holdings[3]);
        proof {
            assert(holding_of_bytes(done[0]) == Ok::<u16, ParseHoldingError>(holdings@[0].bits16()));
            assert(holding_of_bytes(done[1]) == Ok::<u16, ParseHoldingError>(holdings@[1].bits16()));
            assert(holding_of_bytes(done[2]) == Ok::<u16, ParseHoldingError>(holdings@[2].bits16()));
            assert(holding_of_bytes(done[3]) == Ok::<u16, ParseHoldingError>(holdings@[3].bits16()));
        }
        Ok(h)
    }
}

impl core::str::FromStr for Hand {
    type Err = ParseHandError;

    fn from_str(s: &str) -> (r: Result<Hand, ParseHandError>)
        ensures
            match hand_of_bytes(s.spec_bytes()) {
                Ok(x) => r matches Ok(h) && h.bits() == x,
                Err(e) => r == Err::<Hand, ParseHandError>(e),
            },
    {
        Hand::parse(s)
    }
}

/// The first error among parts depends only on the parts read.
proof fn lemma_parts_error_prefix(a: Seq<Seq<u8>>, b: Seq<Seq<u8>>, n: int)
    requires
        0 <= n <= b.len(),
        n <= a.len(),
        forall|k: int| 0 <= k < n ==> a[k] == b[k],
    ensures
        parts_error(a, n) == parts_error(b, n),
    decreases n,
{
    if n > 0 {
        lemma_parts_error_prefix(a, b, n - 1);
    }
}

/// An error among the first `n` parts stays the first error among more.
proof fn lemma_parts_error_sticks(a: Seq<Seq<u8>>, n: int, m: int)
    requires
        0 <= n <= m,
        parts_error(a, n) is Some,
    ensures
        parts_error(a, m) == parts_error(a, n),
    decreases m - n,
{
    if n < m {
        lemma_parts_error_sticks(a, n, m - 1);
    }
}

/// The parts of a text begin with the completed parts of any prefix.
proof fn lemma_dot_parts_extend(b: Seq<u8>, m: int)
    requires
        0 <= m <= b.len(),
    ensures
        dot_parts(b).len() >= dot_parts(b.take(m)).len(),
        forall|k: int|
            0 <= k < dot_parts(b.take(m)).len() - 1 ==> #[trigger] dot_parts(b)[k] == dot_parts(
                b.take(m),
            )[k],
    decreases b.len() - m,
{
    if m < b.len() {
        lemma_dot_parts_extend(b, m + 1);
        assert(b.take(m + 1).drop_last() =~= b.take(m));
        assert(b.take(m + 1).last() == b[m]);
    } else {
        assert(b.take(m) =~= b);
    }
}

/// Error returned when parsing a [`Meld`] fails
#[derive(Debug, Clone, Copy, PartialEq, Eq, Structural)]
#[non_exhaustive]
pub enum ParseMeldError {
    /// Error in a card
    Card(ParseCardError),
    /// The same card appears more than once
    RepeatedCard,
    /// The cards do not form a meld
    Invalid(InvalidMeld),
}

/// The cards of `x` among the first `n` positions, as card texts in
/// ascending order.
pub open spec fn cards_text_upto(x: u64, n: int) -> Seq<char>
    decreases n,
{
    if n <= 0 {
        seq![]
    } else {
        cards_text_upto(x, n - 1) + if valid_pos(n - 1) && bit(x, n - 1) {
            card_text(card_at(n - 1))
        } else {
            Seq::<char>::empty()
        }
    }
}

/// The cards of a card set as concatenated card texts in ascending order,
/// e.g. `5♠6♠7♠`; bits that are no card are not shown.
pub open spec fn cards_text(x: u64) -> Seq<char> {
    cards_text_upto(x, 64)
}

/// The melds `ms` as card texts separated by spaces.
pub open spec fn melds_text(ms: Seq<u64>) -> Seq<char>
    decreases ms.len(),
{
    if ms.len() == 0 {
        seq![]
    } else if ms.len() == 1 {
        cards_text(ms[0])
    } else {
        melds_text(ms.drop_last()) + seq![' '] + cards_text(ms.last())
    }
}

/// The display text of an arrangement: its melds separated by spaces, then
/// ` | ` and the deadwood cards `dw` if any.
pub open spec fn arrangement_text(ms: Seq<u64>, dw: u64) -> Seq<char> {
    if dw == 0 {
        melds_text(ms)
    } else {
        melds_text(ms) + (if ms.len() > 0 {
            seq![' ', '|', ' ']
        } else {
            Seq::<char>::empty()
        }) + cards_text(dw)
    }
}

/// Whether `c` is ASCII whitespace.
pub open spec fn is_space(c: char) -> bool {
    c == ' ' || c == '\t' || c == '\n' || c == '\x0C' || c == '\r'
}

/// Whether `c` names a suit.
pub open spec fn is_suit_char(c: char) -> bool {
    suit_of_char(c) is Some
}

/// The first position from `i` on that is not whitespace.
pub open spec fn skip_space(t: Seq<char>, i: int) -> int
    decreases t.len() - i,
{
    if 0 <= i < t.len() && is_space(t[i]) {
        skip_space(t, i + 1)
    } else {
        i
    }
}

/// The first position from `i` on that is not a variation selector.
pub open spec fn skip_selectors(t: Seq<char>, i: int) -> int
    decreases t.len() - i,
{
    if 0 <= i < t.len() && is_selector(t[i]) {
        skip_selectors(t, i + 1)
    } else {
        i
    }
}

/// The first position from `i` on holding a suit character, or the end.
pub open spec fn find_suit(t: Seq<char>, i: int) -> int
    decreases t.len() - i,
{
    if i < 0 || i >= t.len() {
        t.len() as int
    } else if is_suit_char(t[i]) {
        i
    } else {
        find_suit(t, i + 1)
    }
}

/// The end of `t[start..end]` without trailing whitespace.
pub open spec fn trim_end(t: Seq<char>, start: int, end: int) -> int
    decreases end - start,
{
    if start < end && is_space(t[end - 1]) {
        trim_end(t, start, end - 1)
    } else {
        end
    }
}

/// Where the card starting at `j` ends: a card written suit first runs up
/// to the next suit character; one written rank first runs through its
/// suit character and any variation selectors after it.
pub open spec fn token_end(t: Seq<char>, j: int) -> int {
    if is_suit_char(t[j]) {
        find_suit(t, j + 1)
    } else {
        let k = find_suit(t, j);
        if k >= t.len() {
            t.len() as int
        } else {
            skip_selectors(t, k + 1)
        }
    }
}

/// The positions the helpers return never move backwards.
pub proof fn lemma_scan_bounds(t: Seq<char>, i: int)
    requires
        0 <= i <= t.len(),
    ensures
        i <= skip_space(t, i) <= t.len(),
        i <= skip_selectors(t, i) <= t.len(),
        i <= find_suit(t, i) <= t.len(),
    decreases t.len() - i,
{
    if i < t.len() {
        lemma_scan_bounds(t, i + 1);
    }
}

/// The end of trimming lies in the range.
pub proof fn lemma_trim_bounds(t: Seq<char>, start: int, end: int)
    requires
        start <= end,
    ensures
        start <= trim_end(t, start, end) <= end,
    decreases end - start,
{
    if start < end {
        lemma_trim_bounds(t, start, end - 1);
    }
}

/// A token ends after it starts.
pub proof fn lemma_token_end(t: Seq<char>, j: int)
    requires
        0 <= j < t.len(),
    ensures
        j < token_end(t, j) <= t.len(),
{
    lemma_scan_bounds(t, j);
    lemma_scan_bounds(t, j + 1);
    let k = find_suit(t, j);
    if k < t.len() {
        lemma_scan_bounds(t, k + 1);
    }
}

/// Reading cards from position `i` of `t` on into the card set `acc`: each
/// card is read by [`card_of_text`], and none may repeat.
pub open spec fn meld_scan(t: Seq<char>, i: int, acc: u64) -> Result<u64, ParseMeldError>
    decreases t.len() - i,
{
    if i < 0 || i > t.len() {
        Ok(acc)
    } else {
        let j = skip_space(t, i);
        proof {
            lemma_scan_bounds(t, i);
        }
        if j >= t.len() {
            Ok(acc)
        } else {
            let e = token_end(t, j);
            proof {
                lemma_token_end(t, j);
            }
            match card_of_text(t.subrange(j, trim_end(t, j, e))) {
                Err(ce) => Err(ParseMeldError::Card(ce)),
                Ok(c) => if bit(acc, c.pos()) {
                    Err(ParseMeldError::RepeatedCard)
                } else {
                    meld_scan(t, e, acc | (1u64 << (c.pos() as u64)))
                },
            }
        }
    }
}

/// Whether `c` is one of the rank letters `A23456789TJQK`.
pub open spec fn is_rank_letter(c: char) -> bool {
    c == 'A' || ('2' <= c <= '9') || c == 'T' || c == 'J' || c == 'Q' || c == 'K'
}

/// Whether `c` is one of the filled suit glyphs.
pub open spec fn is_glyph(c: char) -> bool {
    c == '♣' || c == '♦' || c == '♥' || c == '♠'
}

/// The text of the cards below `n` alternates rank letters and glyphs.
proof fn lemma_cards_text_shape(x: u64, n: int)
    ensures
        cards_text_upto(x, n).len() % 2 == 0,
        forall|k: int|
            0 <= k < cards_text_upto(x, n).len() ==> if k % 2 == 0 {
                is_rank_letter(#[trigger] cards_text_upto(x, n)[k])
            } else {
                is_glyph(cards_text_upto(x, n)[k])
            },
    decreases n,
{
    if n > 0 {
        lemma_cards_text_shape(x, n - 1);
        let t = cards_text_upto(x, n);
        let u = cards_text_upto(x, n - 1);
        if valid_pos(n - 1) && bit(x, n - 1) {
            let c = card_at(n - 1);
            crate::hand::lemma_card_at(n - 1);
            assert forall|k: int| 0 <= k < t.len() implies if k % 2 == 0 {
                is_rank_letter(#[trigger] t[k])
            } else {
                is_glyph(t[k])
            } by {
                if k < u.len() {
                    assert(t[k] == u[k]);
                } else if k == u.len() {
                    assert(t[k] == rank_letter(c.rank.value()));
                } else {
                    assert(t[k] == c.suit.spec_symbol());
                }
            }
        } else {
            assert(t =~= u);
        }
    }
}

/// A shorter prefix of the cards' text is a prefix of a longer one.
proof fn lemma_cards_text_prefix(x: u64, n: int, m: int)
    requires
        n <= m,
    ensures
        cards_text_upto(x, n).len() <= cards_text_upto(x, m).len(),
        forall|i: int|
            0 <= i < cards_text_upto(x, n).len() ==> #[trigger] cards_text_upto(x, m)[i]
                == cards_text_upto(x, n)[i],
    decreases m - n,
{
    if n < m {
        lemma_cards_text_prefix(x, n, m - 1);
    }
}

/// Reading the cards' text from the card at position `n` on, after the
/// cards below `n`, adds exactly the cards of `x` from `n` up.
proof fn lemma_meld_scan_from(x: u64, n: int, acc: u64)
    requires
        0 <= n <= 64,
        crate::bits::subset(x, ALL_BITS),
        forall|p: int| #[trigger] bit(acc, p) ==> p < n,
    ensures
        meld_scan(cards_text(x), cards_text_upto(x, n).len() as int, acc) is Ok,
        forall|p: int|
            #[trigger] bit(meld_scan(cards_text(x), cards_text_upto(x, n).len() as int, acc)->Ok_0, p)
                == (bit(acc, p) || (n <= p && bit(x, p))),
    decreases 64 - n,
{
    let t = cards_text(x);
    let i = cards_text_upto(x, n).len() as int;
    lemma_cards_text_prefix(x, n, 64);
    lemma_cards_text_shape(x, 64);
    if n == 64 {
        assert(skip_space(t, i) == i);
        assert forall|p: int| #[trigger] bit(acc, p) == (bit(acc, p) || (n <= p && bit(x, p))) by {}
    } else {
        lemma_cards_text_prefix(x, n + 1, 64);
        if valid_pos(n) && bit(x, n) {
            let c = card_at(n);
            crate::hand::lemma_card_at(n);
            assert(t[i] == rank_letter(c.rank.value()));
            assert(t[i + 1] == c.suit.spec_symbol());
            assert(skip_space(t, i) == i);
            assert(find_suit(t, i + 1) == i + 1);
            assert(find_suit(t, i) == i + 1);
            if i + 2 < t.len() {
                assert(is_rank_letter(t[i + 2]));
            }
            assert(skip_selectors(t, i + 2) == i + 2);
            assert(token_end(t, i) == i + 2);
            assert(trim_end(t, i, i + 2) == i + 2);
            assert(t.subrange(i, i + 2) =~= card_text(c));
            lemma_card_text_roundtrip(c);
            let acc2 = acc | (1u64 << (c.pos() as u64));
            lemma_meld_scan_from(x, n + 1, acc2);
        } else {
            lemma_meld_scan_from(x, n + 1, acc);
        }
    }
}

/// A card set's display text reads back as the same cards, and a meld's
/// text reads back as the meld.
pub proof fn lemma_meld_text_roundtrip(x: u64)
    requires
        crate::bits::subset(x, ALL_BITS),
    ensures
        meld_scan(cards_text(x), 0, 0) == Ok::<u64, ParseMeldError>(x),
        is_meld_bits(x) ==> meld_error(x) is None,
{
    assert(cards_text_upto(x, 0).len() == 0);
    lemma_meld_scan_from(x, 0, 0);
    let r = meld_scan(cards_text(x), 0, 0)->Ok_0;
    assert forall|p: int| 0 <= p < 64 implies #[trigger] bit(r, p) == bit(x, p) by {}
    crate::bits::lemma_bits_ext(r, x);
    if is_meld_bits(x) {
        crate::meld::lemma_meld_valid(x);
        crate::meld::lemma_meld_count(x);
    }
}

/// Why a card set is no meld, in the order [`Meld::try_from_cards`] checks.
pub open spec fn meld_error(x: u64) -> Option<InvalidMeld> {
    if !crate::bits::subset(x, ALL_BITS) {
        Some(InvalidMeld::UnknownCards)
    } else if crate::bits::count(x) < 3 {
        Some(InvalidMeld::TooFewCards)
    } else if is_meld_bits(x) {
        None
    } else if one_suit(x) {
        Some(InvalidMeld::NotConsecutive)
    } else {
        Some(InvalidMeld::MixedCards)
    }
}

/// Appends the text of the cards of `h` to `s`.
fn push_cards(s: &mut String, h: Hand)
    ensures
        final(s)@ == old(s)@ + cards_text(h.bits()),
{
    let x = h.to_bits();
    let mut p: u64 = 0;
    while p < 64
        invariant
            p <= 64,
            x == h.bits(),
            s@ == old(s)@ + cards_text_upto(x, p as int),
        decreases 64 - p,
    {
        if p % 16 != 0 && p % 16 <= 13 && (x >> p) & 1 == 1 {
            let c = Card::from_position(p);
            proof {
                crate::hand::lemma_card_at(p as int);
                crate::hand::lemma_pos_injective(c, card_at(p as int));
            }
            push_char(s, c.rank.letter());
            push_char(s, c.suit.symbol());
        }
        p += 1;
        assert(s@ =~= old(s)@ + cards_text_upto(x, p as int));
    }
}

/// The first position from `i` on that is not whitespace.
fn skip_space_at(t: &Vec<char>, i: usize) -> (j: usize)
    requires
        i <= t@.len(),
    ensures
        j == skip_space(t@, i as int),
{
    let mut j = i;
    while j < t.len() && (t[j] == ' ' || t[j] == '\t' || t[j] == '\n' || t[j] == '\x0C' || t[j]
        == '\r')
        invariant
            i <= j <= t@.len(),
            skip_space(t@, i as int) == skip_space(t@, j as int),
        decreases t@.len() - j,
    {
        j += 1;
    }
    j
}

/// The first position from `i` on holding a suit character, or the end.
fn find_suit_at(t: &Vec<char>, i: usize) -> (k: usize)
    requires
        i <= t@.len(),
    ensures
        k == find_suit(t@, i as int),
{
    let mut k = i;
    while k < t.len() && !names_suit(t[k])
        invariant
            i <= k <= t@.len(),
            find_suit(t@, i as int) == find_suit(t@, k as int),
        decreases t@.len() - k,
    {
        k += 1;
    }
    k
}

/// Whether a character names a suit.
fn names_suit(c: char) -> (b: bool)
    ensures
        b == is_suit_char(c),
{
    c == 'C' || c == 'c' || c == '♣' || c == '♧' || c == 'D' || c == 'd' || c == '♦' || c == '♢'
        || c == 'H' || c == 'h' || c == '♥' || c == '♡' || c == 'S' || c == 's' || c == '♠' || c
        == '♤'
}

/// Where the card starting at `j` ends.
fn token_end_at(t: &Vec<char>, j: usize) -> (e: usize)
    requires
        j < t@.len(),
    ensures
        e == token_end(t@, j as int),
        j < e <= t@.len(),
{
    proof {
        lemma_token_end(t@, j as int);
    }
    let n = t.len();
    if names_suit(t[j]) {
        find_suit_at(t, j + 1)
    } else {
        let k = find_suit_at(t, j);
        if k >= t.len() {
            t.len()
        } else {
            let mut e = k + 1;
            while e < t.len() && (t[e] == '\u{FE0F}' || t[e] == '\u{FE0E}')
                invariant
                    k + 1 <= e <= t@.len(),
                    skip_selectors(t@, k + 1) == skip_selectors(t@, e as int),
                decreases t@.len() - e,
            {
                e += 1;
            }
            e
        }
    }
}

/// The end of `t[start..end]` without trailing whitespace.
fn trim_end_at(t: &Vec<char>, start: usize, end: usize) -> (k: usize)
    requires
        start <= end <= t@.len(),
    ensures
        k == trim_end(t@, start as int, end as int),
        start <= k <= end,
{
    proof {
        lemma_trim_bounds(t@, start as int, end as int);
    }
    let mut k = end;
    while k > start && (t[k - 1] == ' ' || t[k - 1] == '\t' || t[k - 1] == '\n' || t[k - 1]
        == '\x0C' || t[k - 1] == '\r')
        invariant
            start <= k <= end,
            end <= t@.len(),
            trim_end(t@, start as int, end as int) == trim_end(t@, start as int, k as int),
        decreases k,
    {
        k -= 1;
    }
    k
}

impl Meld {
    /// The display text of the meld: its cards concatenated in ascending
    /// order, e.g. `5♠6♠7♠`
    pub fn to_string(&self) -> (s: String)
        ensures
            s@ == cards_text(self.bits()),
    {
        let mut s = String::new();
        push_cards(&mut s, self.cards());
        s
    }

    /// Parse a meld from its cards, each written in either order and
    /// optionally separated by whitespace: `5♠6♠7♠`, `♠5♠6♠7`, `S5 S6 S7`
    pub fn parse(s: &str) -> (r: Result<Meld, ParseMeldError>)
        ensures
            match meld_scan(s@, 0, 0) {
                Err(e) => r == Err::<Meld, ParseMeldError>(e),
                Ok(x) => match meld_error(x) {
                    Some(e) => r == Err::<Meld, ParseMeldError>(ParseMeldError::Invalid(e)),
                    None => r matches Ok(m) && m.bits() == x,
                },
            },
    {
        let t = chars_of(s);
        let n = t.len();
        let mut cards = Hand::EMPTY();
        let mut i: usize = 0;
        loop
            invariant
                t@ == s@,
                n == t@.len(),
                i <= n,
                meld_scan(t@, 0, 0) == meld_scan(t@, i as int, cards.bits()),
            ensures
                meld_scan(t@, 0, 0) == Ok::<u64, ParseMeldError>(cards.bits()),
            decreases n - i,
        {
            let j = skip_space_at(&t, i);
            proof {
                lemma_scan_bounds(t@, i as int);
            }
            if j >= n {
                break;
            }
            let e = token_end_at(&t, j);
            let e2 = trim_end_at(&t, j, e);
            let card = match parse_card_chars(&t, j, e2) {
                Ok(c) => c,
                Err(ce) => {
                    return Err(ParseMeldError::Card(ce));
                },
            };
            if !cards.insert(card) {
                return Err(ParseMeldError::RepeatedCard);
            }
            i = e;
        }
        match Meld::try_from_cards(cards) {
            Ok(m) => Ok(m),
            Err(e) => Err(ParseMeldError::Invalid(e)),
        }
    }
}

impl core::str::FromStr for Meld {
    type Err = ParseMeldError;

    fn from_str(s: &str) -> (r: Result<Meld, ParseMeldError>)
        ensures
            match meld_scan(s@, 0, 0) {
                Err(e) => r == Err::<Meld, ParseMeldError>(e),
                Ok(x) => match meld_error(x) {
                    Some(e) => r == Err::<Meld, ParseMeldError>(ParseMeldError::Invalid(e)),
                    None => r matches Ok(m) && m.bits() == x,
                },
            },
    {
        Meld::parse(s)
    }
}

impl Melds {
    /// The display text of the arrangement: the melds separated by spaces,
    /// then ` | ` and the deadwood cards if any, e.g. `7♥8♥9♥ Q♣Q♦Q♠ | A♦5♦`
    ///
    /// This human-oriented format is informal and not parseable.
    pub fn to_string(&self) -> (s: String)
        ensures
            s@ == arrangement_text(
                self.melds_seq(),
                crate::meld::leftover(self.hand_bits(), self.melds_seq()),
            ),
    {
        let v = self.iter();
        let mut s = String::new();
        let mut i: usize = 0;
        while i < v.len()
            invariant
                i <= v@.len(),
                crate::meld::meld_bits(v@) == self.melds_seq(),
                s@ == melds_text(crate::meld::meld_bits(v@).take(i as int)),
            decreases v@.len() - i,
        {
            let ghost ms = crate::meld::meld_bits(v@);
            if i > 0 {
                push_char(&mut s, ' ');
            }
            push_cards(&mut s, v[i].cards());
            proof {
                assert(ms.take(i + 1).drop_last() =~= ms.take(i as int));
                assert(ms.take(i + 1).last() == v@[i as int].bits());
            }
            i += 1;
        }
        proof {
            assert(crate::meld::meld_bits(v@).take(v@.len() as int) =~= crate::meld::meld_bits(v@));
        }
        let deadwood = self.deadwood_cards();
        if !deadwood.is_empty() {
            if v.len() > 0 {
                push_char(&mut s, ' ');
                push_char(&mut s, '|');
                push_char(&mut s, ' ');
            }
            push_cards(&mut s, deadwood);
        }
        s
    }
}

} // verus!
