//! The plain values that the encoded forms are made of: variant names, rank
//! numbers, and the text of cards, holdings, hands, and melds

use gin_rummy::{Card, Game, Hand, Holding, Meld, Phase, Player, Rank, Rules, Suit};

#[test]
fn encoding_shapes() {
    // Fieldless enums are named by their variants.
    assert_eq!(format!("{:?}", Suit::Spades), "Spades");
    assert_eq!(format!("{:?}", Player::One), "One");
    assert_eq!(format!("{:?}", Phase::Layoff), "Layoff");

    // Rank is a transparent number.
    assert_eq!(u8::from(Rank::K), 13);

    // Display-backed types read as their text form.
    assert_eq!("♠A".parse::<Card>().unwrap().to_string(), "A♠");
    assert_eq!("A23".parse::<Holding>().unwrap().to_string(), "A23");
    assert_eq!(
        "A23.456.789.T".parse::<Hand>().unwrap().to_string(),
        "A23.456.789.T"
    );
    assert_eq!("♠5♠6♠7".parse::<Meld>().unwrap().to_string(), "5♠6♠7♠");
    assert_eq!(Rules::default().gin_bonus, 25);

    // And they all round-trip.
    let game = Game::new(Rules::palace(), Player::Two);
    let parts = Game::from_parts(
        *game.rules(),
        [game.score(Player::One), game.score(Player::Two)],
        [game.boxes(Player::One), game.boxes(Player::Two)],
        game.next_dealer(),
    );
    assert_eq!(parts, game);
    assert_eq!(Rank::try_from(u8::from(Rank::A)), Ok(Rank::A));
    assert!(Rank::try_from(14u8).is_err());
    assert!("32A...".parse::<Hand>().is_err());
}
