//! Deadwood fixtures with hand-computed answers

use gin_rummy::{Hand, Meld, MeldKind, Rank, Suit, best_melds, deadwood, pip_sum};

fn hand(s: &str) -> Hand {
    s.parse().unwrap()
}

#[test]
fn run_beats_set_when_cheaper() {
    // 4♠5♠6♠ competes with the set of fours for 4♠.  The run strands 4♦ 4♥
    // (8 points); the set strands 5♠ 6♠ (11 points).  The run wins.
    let conflicted = hand("TQ.49.49J.456");
    assert_eq!(deadwood(conflicted), 56);

    let melds = best_melds(conflicted);
    assert_eq!(melds.deadwood(), 56);
    let run = melds.iter()[0];
    assert_eq!(run.kind(), MeldKind::Run);
    assert_eq!(run.suit(), Some(Suit::Spades));
}

#[test]
fn set_beats_run_when_cheaper() {
    // 5♥ sits in both the 3♥4♥5♥ run and the set of fives.  The set strands
    // 3♥ 4♥ (7 points); the run strands 5♦ 5♠ (10 points).  The set wins.
    let conflicted = hand("JK.5JK.345.25");
    assert_eq!(deadwood(conflicted), 49);

    let melds = best_melds(conflicted);
    let set = melds.iter()[0];
    assert_eq!(set.kind(), MeldKind::Group);
    assert_eq!(set.len(), 3);
}

#[test]
fn gin_hands() {
    // 4 + 3 + 3
    assert_eq!(deadwood(hand("A234.567.9TJ.")), 0);
    // 3 + 4 + 4 (big gin shape)
    assert_eq!(deadwood(hand("A23.4567.89TJ.")), 0);
    // 3 + 3 + 5 (big gin shape)
    assert_eq!(deadwood(hand("A23.456.789TJ.")), 0);

    let big_gin = best_melds(hand("A23.456.789TJ."));
    assert_eq!(big_gin.iter().len(), 3);
    assert!(big_gin.deadwood_cards().is_empty());
}

#[test]
fn eleven_card_single_suit_run() {
    // The worst case for the solver: 45 applicable melds.
    let run = hand("A23456789TJ...");
    assert_eq!(run.len(), 11);
    assert_eq!(deadwood(run), 0);
    assert_eq!(best_melds(run).iter().len(), 3);
}

#[test]
fn near_misses() {
    // No three cards meld anywhere.
    let nothing = hand("A47.28J.35Q.6K");
    assert_eq!(deadwood(nothing), u8::try_from(pip_sum(nothing)).unwrap());
    assert_eq!(best_melds(nothing).iter().len(), 0);

    // One meld, mixed leftovers: A♣2♣3♣ melds, the rest is deadwood.
    let one_run = hand("A23.2TJ.5Q.9K");
    assert_eq!(deadwood(one_run), 2 + 10 + 10 + 5 + 10 + 9 + 10);
}

#[test]
fn best_melds_partition_the_hand() {
    let h = hand("A234.567.9TJ.K");
    let melds = best_melds(h);
    assert_eq!(melds.hand(), h);
    assert_eq!(melds.deadwood(), deadwood(h));
    assert_eq!(melds.melded() | melds.deadwood_cards(), h);
    assert!((melds.melded() & melds.deadwood_cards()).is_empty());
    assert_eq!(melds.deadwood_cards(), hand("...K"));
}

#[test]
fn adding_a_card_costs_at_most_its_value() {
    let h = hand("A23.45.9.K");
    let before = deadwood(h);
    for card in Hand::ALL().cards() {
        let mut bigger = h;
        if bigger.insert(card) {
            assert!(deadwood(bigger) <= before + card.rank.deadwood());
        }
    }
    assert!(deadwood(h) as u16 <= pip_sum(h));
    assert_eq!(deadwood(Hand::ALL()), 0);
}

#[test]
fn equal_deadwood_prefers_the_run() {
    // ♣6 ♦6 ♠5 ♠6 ♠7: the set of sixes or the run 5-6-7 both leave 12.
    let hand: Hand = "6.6..567".parse().unwrap();
    let melds = best_melds(hand);
    assert_eq!(
        melds.iter(),
        vec![Meld::run(Suit::Spades, Rank::new(5), Rank::new(7))]
    );
    assert_eq!(melds.deadwood_cards(), "6.6..".parse().unwrap());
    assert_eq!(melds.deadwood(), 12);
    assert_eq!(melds.to_string(), "5♠6♠7♠ | 6♣6♦");
}
