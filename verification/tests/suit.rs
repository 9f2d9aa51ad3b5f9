//! Suits: ordering and parsing

use gin_rummy::{ParseSuitError, Suit};

#[test]
fn suit_order_matches_arrays() {
    assert!(Suit::Clubs < Suit::Diamonds);
    assert!(Suit::Diamonds < Suit::Hearts);
    assert!(Suit::Hearts < Suit::Spades);

    let mut sorted = Suit::DESC;
    sorted.sort();
    assert_eq!(sorted, Suit::ASC);
}

#[test]
fn suit_parsing() {
    for suit in Suit::ASC {
        assert_eq!(suit.to_string().parse(), Ok(suit));
        assert_eq!(suit.letter().to_string().parse(), Ok(suit));
        assert_eq!(
            suit.letter().to_ascii_lowercase().to_string().parse(),
            Ok(suit)
        );
    }

    assert_eq!("SPADES".parse::<Suit>(), Err(ParseSuitError));
    assert_eq!("".parse::<Suit>(), Err(ParseSuitError));
    assert_eq!("♠♠".parse::<Suit>(), Err(ParseSuitError));
    assert_eq!("♠\u{FE0F}".parse(), Ok(Suit::Spades));
    assert_eq!("♤\u{FE0E}".parse(), Ok(Suit::Spades));
}

#[test]
fn suit_display_is_the_filled_glyph() {
    assert_eq!(Suit::Clubs.to_string(), "♣");
    assert_eq!(Suit::Diamonds.to_string(), "♦");
    assert_eq!(Suit::Hearts.to_string(), "♥");
    assert_eq!(Suit::Spades.to_string(), "♠");
    assert_eq!("♡".parse(), Ok(Suit::Hearts));
    assert_eq!("d".parse(), Ok(Suit::Diamonds));
}
