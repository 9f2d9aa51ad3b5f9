//! Rule presets and the Oklahoma knock limit

use gin_rummy::{Card, OklahomaAce, Rules, Shutout};

#[test]
fn presets() {
    let modern = Rules::default();
    assert_eq!(modern, Rules::new());
    assert_eq!(modern.knock_limit, 10);
    assert_eq!(modern.gin_bonus, 25);
    assert_eq!(modern.big_gin_bonus, Some(31));
    assert_eq!(modern.undercut_bonus, 25);
    assert_eq!(modern.box_bonus, 25);
    assert!(!modern.immediate_boxes);
    assert_eq!(modern.game_bonus, 100);
    assert_eq!(modern.game_target, 100);
    assert_eq!(modern.shutout, Shutout::Double);

    let classic = Rules::classic();
    assert_eq!(classic.gin_bonus, 20);
    assert_eq!(classic.big_gin_bonus, None);
    assert_eq!(classic.undercut_bonus, 10);
    assert_eq!(classic.box_bonus, 20);
    assert!(!classic.immediate_boxes);
    assert_eq!(classic.shutout, Shutout::Flat(100));

    let palace = Rules::palace();
    assert_eq!(palace.gin_bonus, 25);
    assert_eq!(palace.big_gin_bonus, None);
    assert_eq!(palace.undercut_bonus, 20);
    assert_eq!(palace.box_bonus, 10);
    assert!(palace.immediate_boxes);
    assert_eq!(palace.game_bonus, 0);
    assert_eq!(palace.shutout, Shutout::Flat(0));

    for rules in [modern, classic, palace] {
        assert_eq!(rules.knock_limit, 10);
        assert_eq!(rules.oklahoma, None);
        assert!(rules.undercut_on_tie);
        assert_eq!(rules.game_target, 100);
    }
}

#[test]
fn oklahoma_knock_limits() {
    let card = |s: &str| s.parse::<Card>().unwrap();
    let mut rules = Rules::default();
    assert_eq!(rules.knock_limit_for(card("7♦")), 10);

    rules.oklahoma = Some(OklahomaAce::One);
    assert_eq!(rules.knock_limit_for(card("7♦")), 7);
    assert_eq!(rules.knock_limit_for(card("Q♥")), 10);
    assert_eq!(rules.knock_limit_for(card("A♣")), 1);

    rules.oklahoma = Some(OklahomaAce::GinOnly);
    assert_eq!(rules.knock_limit_for(card("7♦")), 7);
    assert_eq!(rules.knock_limit_for(card("A♣")), 0);

    // The upcard only caps the limit; a stricter house limit stays.
    rules.knock_limit = 3;
    assert_eq!(rules.knock_limit_for(card("7♦")), 3);
}
