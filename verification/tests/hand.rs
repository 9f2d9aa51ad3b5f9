//! Ranks, holdings, and hands: bit operations, layout, and iteration

use gin_rummy::hand::InvalidRank;
use gin_rummy::{Card, Hand, Holding, Rank, Suit};

#[test]
fn rank_letters_and_deadwood() {
    let letters: Vec<char> = (1..=13).map(|r| Rank::new(r).letter()).collect();
    assert_eq!(letters.iter().collect::<String>(), "A23456789TJQK");

    let values: Vec<u8> = (1..=13).map(|r| Rank::new(r).deadwood()).collect();
    assert_eq!(values, [1, 2, 3, 4, 5, 6, 7, 8, 9, 10, 10, 10, 10]);

    assert!(Rank::A < Rank::new(2));
    assert!(Rank::T < Rank::J);
    assert_eq!(Rank::try_new(0), Err(InvalidRank(0)));
    assert_eq!(Rank::try_new(14), Err(InvalidRank(14)));
}

#[test]
fn holding_bit_ops() {
    let mut holding = Holding::EMPTY();
    assert!(holding.insert(Rank::A));
    assert!(!holding.insert(Rank::A));
    assert!(holding.insert(Rank::K));
    assert_eq!(holding.len(), 2);
    assert!(holding.contains(Rank::A));
    assert!(!holding.contains(Rank::Q));

    assert!(holding.remove(Rank::A));
    assert!(!holding.remove(Rank::A));
    assert!(holding.toggle(Rank::Q));
    assert!(!holding.toggle(Rank::Q));

    holding.set(Rank::T, true);
    holding.set(Rank::K, false);
    assert_eq!(holding.ranks(), [Rank::T]);

    assert_eq!(!Holding::EMPTY(), Holding::ALL());
    assert_eq!(Holding::ALL().len(), 13);
    assert_eq!(Holding::ALL() - Holding::ALL(), Holding::EMPTY());
}

#[test]
fn holding_iteration_is_ascending() {
    let holding: Holding = "A23TK".parse().unwrap();
    let ranks: Vec<u8> = holding.ranks().into_iter().map(Rank::get).collect();
    assert_eq!(ranks, [1, 2, 3, 10, 13]);

    let mut backwards = holding.iter();
    let mut reversed: Vec<u8> = Vec::new();
    while let Some(rank) = backwards.next_back() {
        reversed.push(rank.get());
    }
    assert_eq!(reversed, [13, 10, 3, 2, 1]);

    let mut iter = holding.iter();
    assert_eq!(iter.len(), 5);
    assert_eq!(iter.next().map(Rank::get), Some(1));
    assert_eq!(iter.next_back().map(Rank::get), Some(13));
    assert_eq!(iter.len(), 3);
    assert_eq!(iter.next().map(Rank::get), Some(2));
    assert_eq!(iter.next_back().map(Rank::get), Some(10));
    assert_eq!(iter.next().map(Rank::get), Some(3));
    assert_eq!(iter.next(), None);
    assert_eq!(iter.next_back(), None);
}

#[test]
fn invalid_bits_are_not_iterated() {
    let holding = Holding::from_bits_retain(0x8001);
    assert!(holding.contains_unknown_bits());
    assert_eq!(holding.ranks().len(), 0);
    assert_eq!(Holding::from_bits(0x8001), None);
    assert_eq!(Holding::from_bits_truncate(0x8001), Holding::EMPTY());
}

#[test]
fn hand_layout() {
    let mut hand = Hand::EMPTY();
    assert!(hand.insert(Card {
        suit: Suit::Clubs,
        rank: Rank::A,
    }));
    assert_eq!(hand.to_bits(), 2);

    assert!(hand.insert(Card {
        suit: Suit::Spades,
        rank: Rank::K,
    }));
    assert_eq!(hand.to_bits(), 2 | 1 << 61);

    assert_eq!(Hand::from_bits_retain(hand.to_bits()), hand);
    assert_eq!(hand.len(), 2);
}

#[test]
fn hand_iteration_is_ascending() {
    let hand: Hand = "A23.456.789.T".parse().unwrap();
    assert_eq!(hand.len(), 10);

    let cards: Vec<Card> = hand.cards();
    assert_eq!(cards.first().map(Card::to_string), Some("A♣".into()));
    assert_eq!(cards.last().map(Card::to_string), Some("T♠".into()));
    assert!(cards.windows(2).all(|w| {
        let (a, b) = (w[0], w[1]);
        a.suit < b.suit || (a.suit == b.suit && a.rank < b.rank)
    }));

    let mut backwards = hand.iter();
    let mut count = 0;
    while backwards.next_back().is_some() {
        count += 1;
    }
    assert_eq!(count, 10);
    assert_eq!(Hand::from_cards(&cards), hand);
}

#[test]
fn hand_iteration_meets_in_the_middle() {
    let hand: Hand = "A..K.5".parse().unwrap();
    let mut iter = hand.iter();
    assert_eq!(iter.len(), 3);
    assert_eq!(iter.next().map(|c| c.to_string()), Some("A♣".into()));
    assert_eq!(iter.next_back().map(|c| c.to_string()), Some("5♠".into()));
    assert_eq!(iter.next().map(|c| c.to_string()), Some("K♥".into()));
    assert_eq!(iter.next_back(), None);
    assert_eq!(iter.next(), None);
}

#[test]
fn hand_set_algebra_on_examples() {
    let a: Hand = "A23.456..".parse().unwrap();
    let b: Hand = "3.4567.8.".parse().unwrap();
    assert_eq!(a - b, a & !b);
    assert_eq!((a | b).len() + (a & b).len(), a.len() + b.len());
    assert_eq!(a ^ b, (a | b) - (a & b));
    assert_eq!((a ^ b).to_string(), "A2.7.8.");
    assert_eq!(Hand::from_bits(a.to_bits()), Some(a));
    assert_eq!(Hand::from_bits(1), None);
    assert_eq!(Hand::from_bits_truncate(a.to_bits() | 1), a);
}

#[test]
fn rank_conversions() {
    assert_eq!(u8::from(Rank::Q), 12);
    assert_eq!(Rank::try_from(7u8), Ok(Rank::new(7)));
    assert_eq!(Rank::try_from(0u8), Err(InvalidRank(0)));
    assert_eq!(Hand::from(Card { suit: Suit::Hearts, rank: Rank::T }).to_bits(), 1 << 42);
    assert_eq!(Holding::from_rank(Rank::A).to_bits(), 2);
}

#[test]
fn replacing_one_suit_keeps_the_others() {
    let mut hand: Hand = "A23.456.789.T".parse().unwrap();
    hand.set_holding(Suit::Hearts, "JQK".parse().unwrap());
    assert_eq!(hand, "A23.456.JQK.T".parse().unwrap());
    assert_eq!(hand.holding(Suit::Hearts).to_string(), "JQK");
    hand.set_holding(Suit::Clubs, Holding::EMPTY());
    assert_eq!(hand.to_string(), ".456.JQK.T");
}
