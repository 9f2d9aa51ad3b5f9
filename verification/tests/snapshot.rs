//! Round snapshots: round-trips and rejection of corrupt positions

use gin_rummy::round::{InvalidRound, RoundRepr};
use gin_rummy::{
    best_melds, Card, Hand, OklahomaAce, Phase, Player, Round, RoundResult, Rules,
};

fn card(s: &str) -> Card {
    s.parse().unwrap()
}

fn hand(s: &str) -> Hand {
    s.parse().unwrap()
}

/// A fresh deal still in the upcard phase, with the J♠ on offer.
fn fresh_round() -> Round {
    let hands: [Hand; 2] = [hand("A23.456.789.T"), hand("45.89J.JQK.23")];
    let upcard = card("♠J");
    let stock: Vec<Card> = Hand::ALL()
        .cards()
        .into_iter()
        .filter(|&c| !hands[0].contains(c) && !hands[1].contains(c) && c != upcard)
        .collect();
    Round::from_deal(Rules::default(), Player::Two, hands, upcard, stock).unwrap()
}

/// A mid-layoff round: One knocked with J♠ deadwood, Two laid off the 4♣.
fn layoff_round() -> Round {
    let mut round = fresh_round();
    round.take_discard().unwrap();
    let melds = best_melds(round.hand(Player::One) - card("♠T").into());
    round.knock(card("♠T"), melds).unwrap();
    round.lay_off(card("♣4"), 0).unwrap();
    round
}

fn restore(repr: RoundRepr) -> Result<Round, InvalidRound> {
    Round::from_repr(repr)
}

#[test]
fn round_snapshots_roundtrip() {
    // A fresh deal.
    let fresh = fresh_round();
    let repr = fresh.clone().to_repr();
    assert_eq!(repr.initial_upcard.to_string(), "J♠");
    assert_eq!(restore(repr).unwrap(), fresh);

    // Mid-layoff, with a spread and a laid-off card.
    let live = layoff_round();
    let repr = live.clone().to_repr();
    assert_eq!(repr.phase, Phase::Layoff);
    assert_eq!(repr.knock.as_ref().unwrap().laid_off.to_string(), "4...");
    let back = restore(repr).unwrap();
    assert_eq!(back, live);

    // Play the restored round to the end: it is fully functional.
    let mut back = back;
    back.lay_off(card("♣5"), 0).unwrap();
    let result = back.finish_layoffs().unwrap();
    assert_eq!(
        result,
        RoundResult::Knock {
            winner: Player::One,
            margin: 22,
        },
    );

    // A finished round round-trips too.
    assert_eq!(restore(back.clone().to_repr()).unwrap(), back);
}

#[test]
fn corrupt_snapshots_are_rejected() {
    let live = layoff_round();
    let repr = live.clone().to_repr();

    let patched = |patch: &dyn Fn(&mut RoundRepr)| {
        let mut copy = repr.clone();
        patch(&mut copy);
        restore(copy)
    };

    // The unpatched snapshot is fine.
    assert!(patched(&|_| ()).is_ok());

    // Duplicate cards across the hands (A♣) and the layoffs (4♣).
    assert_eq!(
        patched(&|v| v.hands[1] = hand("A45.89J.JQK.23")),
        Err(InvalidRound::NotAPartition),
    );
    // Lose the 8♦ entirely.
    assert_eq!(
        patched(&|v| v.hands[1] = hand("5.9J.JQK.23")),
        Err(InvalidRound::NotAPartition),
    );
    // A knock lingering in the draw phase (and short hands to boot).
    assert!(patched(&|v| v.phase = Phase::Draw).is_err());
    // A spread without a knock.
    assert!(patched(&|v| v.knock = None).is_err());
    // A result without the finished phase.
    assert_eq!(
        patched(&|v| {
            v.result = Some(RoundResult::Knock {
                winner: Player::One,
                margin: 22,
            })
        }),
        Err(InvalidRound::PhaseMismatch),
    );
    // A knocker whose spread cards are not theirs: swap the acting player.
    assert_eq!(
        patched(&|v| v.knock.as_mut().unwrap().knocker = Player::Two),
        Err(InvalidRound::BadSpread),
    );
    // Deadwood over the knock limit: shrink the spread to one meld.
    assert!(patched(&|v| v.knock.as_mut().unwrap().spread.truncate(1)).is_err());
    // Corrupt pass counter.
    assert_eq!(
        patched(&|v| v.passes = 9),
        Err(InvalidRound::BadUpcardState),
    );
    // A stray forced-stock flag.
    assert_eq!(
        patched(&|v| v.forced_stock = true),
        Err(InvalidRound::PhaseMismatch),
    );

    // Oklahoma reads the knock limit from the initial upcard: the J♠
    // upcard allows One's 10-point knock, a rewritten 4♦ upcard does not.
    assert!(patched(&|v| v.rules.oklahoma = Some(OklahomaAce::One)).is_ok());
    assert_eq!(
        patched(&|v| {
            v.rules.oklahoma = Some(OklahomaAce::One);
            v.initial_upcard = card("4♦");
        }),
        Err(InvalidRound::BadDeadwood),
    );
    // Without Oklahoma, a taken upcard is unverifiable — and harmless.
    assert!(patched(&|v| v.initial_upcard = card("4♦")).is_ok());

    // While the upcard is on offer, it must head the discard pile.
    let mut wrong = fresh_round().to_repr();
    wrong.initial_upcard = card("2♥");
    assert_eq!(restore(wrong), Err(InvalidRound::BadInitialUpcard));

    // A finished round with a falsified margin is rejected.
    let mut done = layoff_round();
    done.lay_off(card("♣5"), 0).unwrap();
    done.finish_layoffs().unwrap();
    let repr = done.to_repr();

    let mut wrong = repr.clone();
    wrong.result = Some(RoundResult::Knock {
        winner: Player::One,
        margin: 1,
    });
    assert_eq!(restore(wrong), Err(InvalidRound::BadResult));

    let mut flipped = repr.clone();
    flipped.result = Some(RoundResult::Undercut {
        winner: Player::Two,
        margin: 22,
    });
    assert_eq!(restore(flipped), Err(InvalidRound::BadResult));

    assert!(restore(repr).is_ok());
}

#[test]
fn invalid_snapshot_counts_and_pile() {
    // A fresh deal whose stock lost a card to the discard pile.
    let mut repr = fresh_round().to_repr();
    let moved = repr.stock.pop().unwrap();
    repr.discards.push(moved);
    assert_eq!(restore(repr), Err(InvalidRound::WrongCounts));

    // A result recorded on an unfinished snapshot of a dead hand.
    let mut repr = fresh_round().to_repr();
    repr.phase = Phase::Finished;
    repr.result = Some(RoundResult::Dead);
    assert_eq!(restore(repr), Err(InvalidRound::WrongCounts));

    // The upcard offer must go to the non-dealer first.
    let mut repr = fresh_round().to_repr();
    repr.turn = Player::Two;
    assert_eq!(restore(repr), Err(InvalidRound::BadUpcardState));
}
