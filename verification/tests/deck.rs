//! Shuffled dealing from a lazily drawn deck

use gin_rummy::deck::Deck;
use gin_rummy::{Game, Hand, Phase, Player, Round, Rules};
use rand::SeedableRng;
use rand::rngs::StdRng;

#[test]
fn drawing_partitions_the_deck() {
    let mut rng = StdRng::seed_from_u64(2026);
    let mut deck = Deck::ALL();

    let first = deck.draw(&mut rng, 10);
    let second = deck.draw(&mut rng, 10);
    let upcard = deck.pop(&mut rng).unwrap();

    assert_eq!(first.len(), 10);
    assert_eq!(second.len(), 10);
    assert_eq!(deck.len(), 31);
    assert!((first & second).is_empty());
    assert!(!first.contains(upcard) && !second.contains(upcard));

    let rest = deck.take();
    assert!(deck.is_empty());
    assert_eq!(first | second | Hand::from(upcard) | rest, Hand::ALL());

    assert_eq!(deck.pop(&mut rng), None);
    assert!(deck.insert(upcard));
    assert!(!deck.insert(upcard));
    deck.clear();
    assert_eq!(deck, Deck::EMPTY());
}

#[test]
fn drawing_more_than_the_deck_takes_it_all() {
    let mut rng = StdRng::seed_from_u64(7);
    let mut deck = Deck::from("A23...".parse::<Hand>().unwrap());
    let all = deck.draw(&mut rng, 5);
    assert_eq!(all.to_string(), "A23...");
    assert!(deck.is_empty());
    assert_eq!(Hand::from(deck), Hand::EMPTY());
    assert_eq!(Deck::ALL().to_string(), Hand::ALL().to_string());
    assert_eq!("A..K.".parse::<Deck>().map(|d| d.len()), Ok(2));
}

#[test]
fn dealt_rounds_start_at_the_upcard() {
    let mut rng = StdRng::seed_from_u64(99);
    let round = Round::deal(Rules::default(), Player::One, &mut rng);
    assert_eq!(round.phase(), Phase::Upcard);
    assert_eq!(round.turn(), Some(Player::Two));
    assert_eq!(round.hand(Player::One).len(), 10);
    assert_eq!(round.hand(Player::Two).len(), 10);
    assert_eq!(round.stock().len(), 31);
    assert_eq!(round.discard_pile(), [round.initial_upcard()]);

    let mut everything = round.hand(Player::One) | round.hand(Player::Two);
    for &card in round.stock().iter().chain(round.discard_pile()) {
        assert!(everything.insert(card));
    }
    assert_eq!(everything, Hand::ALL());

    let game = Game::new(Rules::palace(), Player::Two);
    let next = game.deal(&mut rng);
    assert_eq!(next.dealer(), Player::Two);
    assert_eq!(next.rules(), &Rules::palace());
}

#[test]
fn a_default_deck_is_empty() {
    let deck = Deck::default();
    assert!(deck.is_empty());
    assert_eq!(deck, Deck::EMPTY());
    assert_eq!(deck.to_string(), "-");
}
