use dicey_dice::game;
use dicey_dice::game::model::Action;
use dicey_dice::game::model::Board;
use dicey_dice::game::model::Consequence;
use dicey_dice::game::rules::all_legal_attacks_from;
use dicey_dice::game::rules::choices_from_board_only_pass_at_end;
use dicey_dice::game::rules::loser;
use dicey_dice::game::rules::stalemate;
use dicey_dice::game::rules::winner;
use dicey_dice::game::Holding;
use dicey_dice::game::Player;
use dicey_dice::game::Players;
use dicey_dice::hexagon::coordinate::Axial;
use dicey_dice::hexagon::coordinate::Cube;
use dicey_dice::hexagon::grid::Grid;
use dicey_dice::hexagon::grid::Rectangular;

fn hex(column: i32, row: i32) -> Cube {
    Axial::new(column, row).cube().unwrap()
}

#[test]
fn winner_wins() {
    let players = Players::new(2);
    let hold: u8 = Holding::new(players.current(), 1, true);
    let grid: Grid<u8> = Rectangular::generate(100, 100, hold).to_grid();

    let board = Board::new(players, grid, 0, 0);

    assert!(winner(&board));
}

#[test]
fn loser_loses() {
    let players = Players::new(2);
    let hold: u8 = Holding::new(players.current(), 1, true);
    let grid: Grid<u8> = Rectangular::generate(100, 100, hold).to_grid();

    let board = Board::new(players.next(), grid, 0, 0);

    assert!(loser(&board));
}

#[test]
fn no_attacking_moves_available() {
    let board = game::canned_2x2_start01();
    let attacks = all_legal_attacks_from(board.grid(), &board.players().current());

    assert!(attacks.is_empty());
}

#[test]
fn one_attacking_move_available() {
    let board = game::canned_2x2_start02();
    let attacks = all_legal_attacks_from(board.grid(), &board.players().current());

    assert!(attacks.len() == 1);
}

#[test]
fn two_attacking_moves_available() {
    let board = game::canned_2x2_start03();
    let attacks = all_legal_attacks_from(board.grid(), &board.players().current());

    assert!(attacks.len() == 2);
}

#[test]
fn test_turn_over() {
    let player2 = Player::new(2, 'B');
    let board = game::canned_2x2_start01();
    let mut choices = choices_from_board_only_pass_at_end(&board, 6);

    assert!(choices.len() == 1);
    let choice = choices.pop().unwrap();
    assert!(*choice.action() == Action::Pass);
    let consequence = choice.consequence();
    match consequence {
        Consequence::TurnOver(board) => {
            assert!(board.players().current() == player2);
        },
        _ => panic!("Invalid consequence."),
    }
}

#[test]
fn no_stalemate01() {
    assert!(!stalemate(&game::canned_1x1_start()));
}

#[test]
fn no_stalemate02() {
    let player1 = Player::new(1, 'A');
    let player2 = Player::new(2, 'B');
    let players = Players::new(2);
    let hexes: Vec<(Cube, u8)> = vec![
        (hex(0, 0), Holding::new(player1, 2, true)),
        (hex(0, 1), Holding::new(player2, 1, true)),
    ];
    let grid = Grid::from_tiles(hexes).change_to_rectangle(2, 1);
    let board = Board::new(players, grid, 0, 0);

    assert!(!stalemate(&board));
}

#[test]
fn no_stalemate03() {
    let player1 = Player::new(1, 'A');
    let player2 = Player::new(2, 'B');
    let players = Players::new(2);
    let hexes: Vec<(Cube, u8)> = vec![
        (hex(0, 0), Holding::new(player1, 1, true)),
        (hex(0, 1), Holding::new(player2, 2, true)),
    ];
    let grid = Grid::from_tiles(hexes).change_to_rectangle(2, 1);
    let board = Board::new(players, grid, 0, 0);

    assert!(!stalemate(&board));
}

#[test]
fn no_stalemate04() {
    let player1 = Player::new(1, 'A');
    let player2 = Player::new(2, 'B');
    let players = Players::new(2);
    let hexes: Vec<(Cube, u8)> = vec![
        (hex(0, 0), Holding::new(player1, 2, true)),
        (hex(0, 1), Holding::new(player2, 2, true)),
        (hex(1, 0), Holding::new(player1, 2, true)),
        (hex(1, 1), Holding::new(player2, 2, true)),
    ];
    let grid = Grid::from_tiles(hexes).change_to_rectangle(2, 2);
    let board = Board::new(players, grid, 0, 0);

    assert!(!stalemate(&board));
}

#[test]
fn no_stalemate05() {
    let board = game::canned_3x3_start02();

    assert!(!stalemate(&board));
}

#[test]
fn stalemate01() {
    let player1 = Player::new(1, 'A');
    let player2 = Player::new(2, 'B');
    let players = Players::new(2);
    let hexes: Vec<(Cube, u8)> = vec![
        (hex(0, 0), Holding::new(player1, 1, true)),
        (hex(0, 1), Holding::new(player2, 1, true)),
    ];
    let grid = Grid::from_tiles(hexes).change_to_rectangle(2, 1);
    let board = Board::new(players, grid, 0, 0);

    assert!(stalemate(&board));
}

#[test]
fn stalemate02() {
    let player1 = Player::new(1, 'A');
    let player2 = Player::new(2, 'B');
    let players = Players::new(2);
    let hexes: Vec<(Cube, u8)> = vec![
        (hex(0, 0), Holding::new(player1, 1, true)),
        (hex(0, 1), Holding::new(player2, 1, true)),
        (hex(1, 0), Holding::new(player1, 1, true)),
        (hex(1, 1), Holding::new(player2, 1, true)),
    ];
    let grid = Grid::from_tiles(hexes).change_to_rectangle(2, 2);
    let board = Board::new(players, grid, 0, 0);

    assert!(stalemate(&board));
}

#[test]
fn stalemate04() {
    let player1 = Player::new(1, 'A');
    let player2 = Player::new(2, 'B');
    let players = Players::new(2);
    let hexes: Vec<(Cube, u8)> = vec![
        (hex(0, 0), Holding::new(player1, 1, true)),
        (hex(1, 0), Holding::new(player2, 1, true)),
        (hex(2, 0), Holding::new(player1, 1, true)),
        (hex(0, 1), Holding::new(player1, 1, true)),
        (hex(1, 1), Holding::new(player1, 1, true)),
        (hex(2, 1), Holding::new(player1, 1, true)),
        (hex(0, 2), Holding::new(player1, 2, true)),
        (hex(1, 2), Holding::new(player1, 5, true)),
        (hex(2, 0), Holding::new(player1, 1, true)),
    ];
    let grid = Grid::from_tiles(hexes);
    let board = Board::new(players, grid.change_to_rectangle(3, 3), 0, 0);

    assert!(stalemate(&board));
}

#[test]
fn stalemate05() {
    let player1 = Player::new(1, 'A');
    let player2 = Player::new(2, 'B');
    let players = Players::new(2);
    let hexes: Vec<(Cube, u8)> = vec![
        (hex(0, 0), Holding::new(player2, 1, true)),
        (hex(1, 0), Holding::new(player1, 1, true)),
        (hex(2, 0), Holding::new(player1, 2, true)),
    ];

    let grid = Grid::from_tiles(hexes);
    let board = Board::new(players, grid.change_to_rectangle(3, 1), 0, 0);

    assert!(stalemate(&board));
}

#[test]
fn attack_choices_read_off_the_board() {
    // Every attack choice carries the exact source dice, target dice and
    // adjacency of the board it came from, and its consequence board moves
    // the dice as the rules say.
    let board = game::canned_2x2_start03();
    let current = board.players().current();
    let choices = choices_from_board_only_pass_at_end(&board, 100);
    assert!(choices.len() == 2);
    for choice in choices.iter() {
        match *choice.action() {
            Action::Attack(from, to, ad, dd) => {
                let source = *board.grid().fetch(&from).unwrap();
                let target = *board.grid().fetch(&to).unwrap();
                assert!(source.owner() == current);
                assert!(source.mobile());
                assert!(source.dice() == ad);
                assert!(ad > 1);
                assert!(target.owner() != current);
                assert!(target.dice() == dd);
                assert!(dd <= ad);
                assert!(from.neighbours().iter().any(|n| *n == to));
                // The consequence board after the attack.
                let next = choice.consequence().board();
                let next_source = *next.grid().fetch(&from).unwrap();
                let next_target = *next.grid().fetch(&to).unwrap();
                assert!(next_source.dice() == 1);
                assert!(next_source.owner() == current);
                assert!(next_target.dice() == ad - 1);
                assert!(next_target.owner() == current);
                // No other tile changed.
                for (before, after) in board.grid().iter().iter().zip(next.grid().iter().iter()) {
                    if before.coordinate() != from && before.coordinate() != to {
                        assert!(before.data() == after.data());
                        assert!(before.coordinate() == after.coordinate());
                    }
                }
            },
            Action::Pass => panic!("expected attacks only"),
        }
    }
}
