//! Players

use gin_rummy::Player;

#[test]
fn opponents() {
    assert_eq!(Player::One.opponent(), Player::Two);
    assert_eq!(Player::Two.opponent(), Player::One);
    assert_eq!(Player::ALL[Player::One as usize], Player::One);
    assert_eq!(Player::One.to_string(), "Player 1");
}

#[test]
fn player_indices() {
    assert_eq!(Player::One.index(), 0);
    assert_eq!(Player::Two.index(), 1);
    assert_eq!(Player::Two.to_string(), "Player 2");
}
