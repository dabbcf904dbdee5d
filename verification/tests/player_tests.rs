use dicey_dice::game::Player;
use dicey_dice::game::Players;

const MAX_PLAYERS: usize = 8;

#[test]
fn initialize() {
    let players = Players::new(1);
    assert!(players.player_count() == 2);

    let players = Players::new(MAX_PLAYERS * 10);
    assert!(players.player_count() == MAX_PLAYERS);
}

#[test]
fn next_player() {
    let players = Players::new(4);
    let player1 = Player::new(1, 'A');
    let player2 = Player::new(2, 'B');
    let player3 = Player::new(3, 'C');
    let player4 = Player::new(4, 'D');

    assert!(player1 == players.current());
    let players = players.next();
    assert!(player2 == players.current());
    let players = players.next();
    assert!(player3 == players.current());
    let players = players.next();
    assert!(player4 == players.current());
    let players = players.next();
    assert!(player1 == players.current());
}

#[test]
fn remove_players() {
    let players = Players::new(4);
    let player1 = Player::new(1, 'A');
    let player2 = Player::new(2, 'B');
    let player3 = Player::new(3, 'C');
    let player4 = Player::new(4, 'D');

    assert!(player1 == players.current());
    let players = players.remove_current();
    assert!(players.player_count() == 3);
    assert!(player2 == players.current());
    let players = players.next();
    assert!(player3 == players.current());
    let players = players.remove_current();
    assert!(players.player_count() == 2);
    assert!(player4 == players.current());
    let players = players.next();
    assert!(player2 == players.current());
}
