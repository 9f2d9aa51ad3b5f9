//! Scripted legal playouts: every action keeps each card in exactly one
//! place, and every finished round records a consistent result

use gin_rummy::{
    best_melds, deadwood, Card, Hand, OklahomaAce, Phase, Player, Rank, Round, RoundResult, Rules,
    Suit,
};

/// A tiny deterministic generator for choosing among legal actions
struct Lcg(u64);

impl Lcg {
    fn next(&mut self) -> u8 {
        self.0 = self
            .0
            .wrapping_mul(6_364_136_223_846_793_005)
            .wrapping_add(1_442_695_040_888_963_407);
        (self.0 >> 56) as u8
    }
}

fn deck() -> Vec<Card> {
    let mut cards = Vec::new();
    for suit in Suit::ASC {
        for rank in 1..=13 {
            cards.push(Card {
                suit,
                rank: Rank::new(rank),
            });
        }
    }
    cards
}

fn shuffled(rng: &mut Lcg) -> Vec<Card> {
    let mut cards = deck();
    for i in (1..cards.len()).rev() {
        let j = (u64::from(rng.next()) * 256 + u64::from(rng.next())) as usize % (i + 1);
        cards.swap(i, j);
    }
    cards
}

/// Every card is in exactly one place: a hand, the stock, the pile, or laid
/// off onto the spread.
fn conserved(round: &Round) -> bool {
    let stock = Hand::from_cards(round.stock());
    let pile = Hand::from_cards(round.discard_pile());
    let union = round.hand(Player::One) | round.hand(Player::Two) | stock | pile | round.laid_off();
    let count = round.hand(Player::One).len()
        + round.hand(Player::Two).len()
        + round.stock().len()
        + round.discard_pile().len()
        + round.laid_off().len();
    union == Hand::ALL() && count == 52
}

/// Advance the round by one action chosen from the legal set by `seed`.
fn step(round: &mut Round, seed: u8) {
    let turn = round.turn().expect("an unfinished round has a turn");
    let hand = round.hand(turn);

    match round.phase() {
        Phase::Upcard => {
            if seed % 2 == 0 {
                round.pass().unwrap();
            } else {
                round.take_discard().unwrap();
            }
        }
        Phase::Draw => {
            if seed % 3 != 0 || round.take_discard().is_err() {
                round.draw_stock().unwrap();
            }
        }
        Phase::Discard => {
            if deadwood(hand) == 0 && round.declare_big_gin(best_melds(hand)).is_ok() {
                return;
            }
            let candidates: Vec<Card> = hand.cards();
            let knockable = candidates
                .iter()
                .map(|&card| (card, deadwood(hand - card.into())))
                .filter(|&(_, dw)| dw <= round.knock_limit())
                .min_by_key(|&(_, dw)| dw);
            if let Some((card, _)) = knockable {
                if seed % 4 != 0 && round.knock(card, best_melds(hand - card.into())).is_ok() {
                    return;
                }
            }
            let start = seed as usize % candidates.len();
            for offset in 0..candidates.len() {
                let card = candidates[(start + offset) % candidates.len()];
                if round.discard(card).is_ok() {
                    return;
                }
            }
            panic!("some discard is always legal");
        }
        Phase::Layoff => {
            if seed % 3 != 0 {
                for card in hand.cards() {
                    for index in 0..3 {
                        if round.lay_off(card, index).is_ok() {
                            return;
                        }
                    }
                }
            }
            round.finish_layoffs().unwrap();
        }
        Phase::Finished => panic!("the driver stops on finished rounds"),
    }
}

#[test]
fn scripted_playouts_stay_consistent() {
    let mut rng = Lcg(2026);
    for game in 0..60 {
        let mut rules = Rules::default();
        rules.oklahoma = match game % 3 {
            0 => None,
            1 => Some(OklahomaAce::One),
            _ => Some(OklahomaAce::GinOnly),
        };
        let order = shuffled(&mut rng);
        let hands = [
            Hand::from_cards(&order[..10]),
            Hand::from_cards(&order[10..20]),
        ];
        let mut round =
            Round::from_deal(rules, Player::One, hands, order[20], order[21..].to_vec()).unwrap();
        assert!(conserved(&round));

        for _ in 0..400 {
            if round.result().is_some() {
                break;
            }
            step(&mut round, rng.next());
            assert!(conserved(&round));
            let snapshot = round.clone().to_repr();
            assert_eq!(Round::from_repr(snapshot).as_ref(), Ok(&round));
        }

        let result = round.result().expect("the playout terminates");
        match result {
            RoundResult::Dead => {
                assert_eq!(round.knocker(), None);
                assert_eq!(round.stock().len(), 2);
            }
            RoundResult::Knock { winner, margin } => {
                assert_eq!(round.knocker(), Some(winner));
                assert!(margin > 0);
            }
            RoundResult::Undercut { winner, .. } => {
                assert_eq!(round.knocker(), Some(winner.opponent()));
            }
            RoundResult::Gin { winner, .. } | RoundResult::BigGin { winner, .. } => {
                assert_eq!(round.knocker(), Some(winner));
                assert_eq!(round.laid_off(), Hand::EMPTY());
            }
            _ => {}
        }
    }
}
