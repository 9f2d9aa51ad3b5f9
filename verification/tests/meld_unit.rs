//! Meld construction, validation, extension, arrangement, and parsing

use gin_rummy::meld::{meld_table, ArrangeError, InvalidMeld, ParseMeldError};
use gin_rummy::{best_melds, deadwood, pip_sum, Hand, Meld, MeldKind, Melds, Rank, Suit};

#[test]
fn table_is_sound() {
    let table = meld_table();
    assert_eq!(table.len(), 329);

    for (i, meld) in table.iter().enumerate() {
        assert_eq!(Meld::try_from_cards(meld.cards()), Ok(*meld));
        for other in &table[..i] {
            assert_ne!(meld, other);
        }
    }

    let sets = table.iter().filter(|m| m.kind() == MeldKind::Group).count();
    assert_eq!(sets, 65);
}

#[test]
fn meld_constructors() {
    let set = Meld::set(Rank::Q, None);
    assert_eq!(set.kind(), MeldKind::Group);
    assert_eq!(set.len(), 4);
    assert_eq!(set.rank(), Some(Rank::Q));
    assert_eq!((set.suit(), set.low(), set.high()), (None, None, None));

    let set = Meld::set(Rank::A, Some(Suit::Hearts));
    assert_eq!(set.len(), 3);
    assert!(!set.cards().contains("♥A".parse().unwrap()));

    let run = Meld::run(Suit::Spades, Rank::A, Rank::new(3));
    assert_eq!(run.kind(), MeldKind::Run);
    assert_eq!(run.len(), 3);
    assert_eq!(run.suit(), Some(Suit::Spades));
    assert_eq!(run.low(), Some(Rank::A));
    assert_eq!(run.high(), Some(Rank::new(3)));
    assert_eq!(run.rank(), None);

    assert_eq!(
        Meld::try_run(Suit::Clubs, Rank::A, Rank::new(2)),
        Err(InvalidMeld::TooFewCards),
    );

    let all_spades = Meld::run(Suit::Spades, Rank::A, Rank::K);
    assert_eq!(all_spades.len(), 13);
}

#[test]
fn try_from_cards_rejects_non_melds() {
    let parse = |s: &str| Meld::try_from_cards(s.parse::<Hand>().unwrap());

    assert!(parse("567...").is_ok());
    assert!(parse("7.7.7.").is_ok());
    assert!(parse("7.7.7.7").is_ok());
    assert_eq!(parse("57.5.."), Err(InvalidMeld::MixedCards));
    assert_eq!(parse("567.8.."), Err(InvalidMeld::MixedCards));
    assert_eq!(parse("579..."), Err(InvalidMeld::NotConsecutive));
    assert_eq!(parse("56..."), Err(InvalidMeld::TooFewCards));
    assert_eq!(parse("..."), Err(InvalidMeld::TooFewCards));
    assert_eq!(
        Meld::try_from_cards(Hand::from_bits_retain(7 << 14)),
        Err(InvalidMeld::UnknownCards),
    );
}

#[test]
fn extension() {
    let run = Meld::run(Suit::Spades, Rank::new(5), Rank::new(7));
    let extended = run.extended("♠8".parse().unwrap()).unwrap();
    assert_eq!(extended.high(), Some(Rank::new(8)));
    let chained = extended.extended("♠9".parse().unwrap()).unwrap();
    assert_eq!(chained.high(), Some(Rank::new(9)));
    let low_end = run.extended("♠4".parse().unwrap()).unwrap();
    assert_eq!(low_end.low(), Some(Rank::new(4)));

    assert_eq!(run.extended("♠9".parse().unwrap()), None);
    assert_eq!(run.extended("♥8".parse().unwrap()), None);
    assert_eq!(run.extended("♠6".parse().unwrap()), None);

    let low_run = Meld::run(Suit::Clubs, Rank::A, Rank::new(3));
    let high_run = Meld::run(Suit::Clubs, Rank::J, Rank::K);
    assert_eq!(low_run.extended("♣K".parse().unwrap()), None);
    assert_eq!(high_run.extended("♣A".parse().unwrap()), None);

    let set = Meld::set(Rank::Q, Some(Suit::Diamonds));
    let full = set.extended("♦Q".parse().unwrap()).unwrap();
    assert_eq!(full.len(), 4);
    assert_eq!(full.extended("♦Q".parse().unwrap()), None);
    assert_eq!(set.extended("♦J".parse().unwrap()), None);
}

#[test]
fn melds_arrangement() {
    let hand: Hand = "A23.456.789.T".parse().unwrap();
    let runs = [
        Meld::run(Suit::Clubs, Rank::A, Rank::new(3)),
        Meld::run(Suit::Diamonds, Rank::new(4), Rank::new(6)),
        Meld::run(Suit::Hearts, Rank::new(7), Rank::new(9)),
    ];

    let melds = Melds::try_new(hand, &runs).unwrap();
    assert_eq!(melds.iter().len(), 3);
    assert_eq!(melds.deadwood_cards(), "...T".parse().unwrap());
    assert_eq!(melds.deadwood(), 10);
    assert_eq!(melds.to_string(), "A♣2♣3♣ 4♦5♦6♦ 7♥8♥9♥ | T♠");

    assert_eq!(
        Melds::try_new(hand, &runs[1..]).map(|m| m.deadwood()),
        Ok(16),
    );
    assert_eq!(
        Melds::try_new("A23...".parse().unwrap(), &runs[..1]).map(|m| m.deadwood()),
        Ok(0),
    );

    assert_eq!(
        Melds::try_new(hand, &[runs[0], runs[0]]),
        Err(ArrangeError::OverlappingMelds),
    );
    assert_eq!(
        Melds::try_new(Hand::EMPTY(), &runs[..1]),
        Err(ArrangeError::MeldNotInHand),
    );
    assert_eq!(
        Melds::try_new(Hand::ALL(), &runs),
        Err(ArrangeError::TooManyCards),
    );

    let two_runs: Hand = "A23456...".parse().unwrap();
    let split = [
        Meld::run(Suit::Clubs, Rank::A, Rank::new(3)),
        Meld::run(Suit::Clubs, Rank::new(4), Rank::new(6)),
    ];
    assert_eq!(
        Melds::try_new(two_runs, &split).map(|m| m.deadwood()),
        Ok(0)
    );
}

#[test]
fn meld_parsing() {
    let run: Meld = "♠5♠6♠7".parse().unwrap();
    assert_eq!(run, Meld::run(Suit::Spades, Rank::new(5), Rank::new(7)));
    assert_eq!(run.to_string(), "5♠6♠7♠");
    assert_eq!("S5 S6 S7".parse(), Ok(run));
    assert_eq!("s5s6s7".parse(), Ok(run));
    assert_eq!("5♠6♠7♠".parse(), Ok(run));
    assert_eq!("5S 6S 7S".parse(), Ok(run));

    let set: Meld = "♣7♦7♠7".parse().unwrap();
    assert_eq!(set, Meld::set(Rank::new(7), Some(Suit::Hearts)));

    let tens: Meld = "♣10♦10♥10♠10".parse().unwrap();
    assert_eq!(tens, Meld::set(Rank::T, None));

    assert_eq!(
        "♠5♠6".parse::<Meld>(),
        Err(ParseMeldError::Invalid(InvalidMeld::TooFewCards)),
    );
    assert_eq!(
        "♠5♠5♠6♠7".parse::<Meld>(),
        Err(ParseMeldError::RepeatedCard),
    );
    assert_eq!(
        "♠5♠6♥7".parse::<Meld>(),
        Err(ParseMeldError::Invalid(InvalidMeld::MixedCards)),
    );
    assert!(matches!(
        "5♠6♠7".parse::<Meld>(),
        Err(ParseMeldError::Card(_)),
    ));
    assert!(matches!(
        "".parse::<Meld>(),
        Err(ParseMeldError::Invalid(_))
    ));
}

#[test]
fn deadwood_basics() {
    let gin: Hand = "A23.456.789.T".parse().unwrap();
    assert_eq!(deadwood(gin), 10);
    assert_eq!(best_melds(gin).deadwood(), 10);

    assert_eq!(deadwood(Hand::EMPTY()), 0);
    assert_eq!(deadwood(Hand::ALL()), 0);
    assert_eq!(pip_sum(Hand::ALL()), 340);
    assert_eq!(pip_sum(gin), 55);
}

#[test]
fn meld_text_roundtrips_on_the_table() {
    for meld in meld_table() {
        assert_eq!(meld.to_string().parse(), Ok(meld));
        assert_eq!(Meld::try_from(meld.cards()), Ok(meld));
        assert_eq!(Hand::from(meld), meld.cards());
    }
}
