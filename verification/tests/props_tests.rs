use dicey_dice::game;
use dicey_dice::hexagon::coordinate::Axial;
use dicey_dice::hexagon::coordinate::Cube;
use dicey_dice::game::build_tree;
use dicey_dice::game::model::Action;
use dicey_dice::game::model::Consequence;
use dicey_dice::game::score_tree;
use dicey_dice::game::Holding;
use dicey_dice::game::Players;
use dicey_dice::game::Score;

fn destination(score: &Score) -> f64 {
    score.destination_num() as f64 / score.destination_den() as f64
}

#[test]
fn one_tile_start_passes_to_a_win() {
    // A single tile owned by player A with two dice, two players: the only
    // choice is the pass to a win, scored (1.0, 0).
    let mut tree = build_tree(game::canned_1x1_start(), 100);
    score_tree(&mut tree);

    let root = tree.root().clone();
    let choices = tree.fetch_choices(&root).unwrap();
    assert!(choices.len() == 1);
    assert!(*choices[0].action() == Action::Pass);
    assert!(matches!(choices[0].consequence(), Consequence::Winner(_)));
    let score = choices[0].score().unwrap();
    assert!(destination(&score) == 1.0_f64);
    assert!(score.distance() == 0);
}

#[test]
fn two_tile_instant_win() {
    // Both tiles already belong to player A: one pass to a win, (1.0, 0).
    let mut tree = build_tree(game::canned_2x1_start03(), 100);
    score_tree(&mut tree);

    let root = tree.root().clone();
    let choices = tree.fetch_choices(&root).unwrap();
    assert!(choices.len() == 1);
    assert!(*choices[0].action() == Action::Pass);
    assert!(matches!(choices[0].consequence(), Consequence::Winner(_)));
    let score = choices[0].score().unwrap();
    assert!(destination(&score) == 1.0_f64);
    assert!(score.distance() == 0);
}

#[test]
fn two_tile_instant_stalemate() {
    // A(1) | B(1): one pass into a stalemate, destination 0.5, distance 0.
    let mut tree = build_tree(game::canned_2x1_start02(), 100);
    score_tree(&mut tree);

    let root = tree.root().clone();
    let choices = tree.fetch_choices(&root).unwrap();
    assert!(choices.len() == 1);
    assert!(*choices[0].action() == Action::Pass);
    assert!(matches!(choices[0].consequence(), Consequence::Stalemate(_)));
    let score = choices[0].score().unwrap();
    assert!(destination(&score) == 0.5_f64);
    assert!(score.distance() == 0);
}

#[test]
fn two_tile_forced_loss_for_the_opener() {
    // A(2) | B(3): A has no attack, so the turn passes; B then takes the
    // board and wins. A's pass scores (0.0, 0); B's winning pass (1.0, 0).
    let mut tree = build_tree(game::canned_2x1_start01(), 100);
    score_tree(&mut tree);

    let root = tree.root().clone();
    let choices = tree.fetch_choices(&root).unwrap();
    assert!(choices.len() == 1);
    assert!(*choices[0].action() == Action::Pass);
    assert!(choices[0].score().unwrap() == Score::new(0, 1, 0));

    let after_pass = choices[0].consequence().board().clone();
    let choices = tree.fetch_choices(&after_pass).unwrap();
    assert!(choices.len() == 1);
    assert!(matches!(choices[0].action(), Action::Attack(..)));
    let after_attack = choices[0].consequence().board().clone();
    let choices = tree.fetch_choices(&after_attack).unwrap();
    assert!(choices.len() == 1);
    assert!(matches!(choices[0].consequence(), Consequence::Winner(_)));
    assert!(choices[0].score().unwrap() == Score::new(1, 1, 0));
}

#[test]
fn all_enemy_line_knocks_the_opener_out() {
    // B(2) | B(3) | B(3) with A to move: A is already eliminated, so the
    // root choice scores (0.0, 0) and the next state's choice (1.0, 0).
    let mut tree = build_tree(game::canned_3x1_start02(), 100);
    score_tree(&mut tree);

    let root = tree.root().clone();
    let choices = tree.fetch_choices(&root).unwrap();
    assert!(choices.len() == 1);
    assert!(matches!(choices[0].consequence(), Consequence::GameOver(_)));
    assert!(choices[0].score().unwrap() == Score::new(0, 1, 0));

    let next_board = choices[0].consequence().board().clone();
    let choices = tree.fetch_choices(&next_board).unwrap();
    assert!(choices.len() == 1);
    assert!(matches!(choices[0].consequence(), Consequence::Winner(_)));
    assert!(choices[0].score().unwrap() == Score::new(1, 1, 0));
}

#[test]
fn three_player_line_stalls_immediately() {
    // A(1) | B(1) | C(1): an immediate stalemate; the current player owns
    // a third of the board, so the choice scores exactly one third at
    // distance zero.
    let mut tree = build_tree(game::canned_3x1_start04(), 100);
    score_tree(&mut tree);

    let root = tree.root().clone();
    let choices = tree.fetch_choices(&root).unwrap();
    assert!(choices.len() == 1);
    assert!(matches!(choices[0].consequence(), Consequence::Stalemate(_)));
    let score = choices[0].score().unwrap();
    assert!(score.destination_num() * 3 == score.destination_den());
    assert!(score.distance() == 0);
}

#[test]
fn random_boards_respect_the_generator_interface() {
    // Each tile gets a playing owner and a die count drawn from one to
    // five; the first player of the roster moves first.
    let players = Players::new(3);
    let board = game::generate_random_board(3, 3, players.clone());
    assert!(board.players().current().number() == 1);
    assert!(board.grid().len() == 9);
    for tile in board.grid().iter() {
        let hold = tile.data();
        let dice = hold.dice();
        assert!(1 <= dice && dice <= 5);
        let owner = hold.owner().number();
        assert!(1 <= owner && owner <= 3);
        assert!(hold.mobile());
    }
}

#[test]
fn every_api_cube_sums_to_zero() {
    // Cube coordinates from construction, conversion, layout and play all
    // keep x + y + z = 0.
    let c = Cube::construct(2, -5, 3).unwrap();
    assert!(c.x() + c.y() + c.z() == 0);
    let c = Axial::new(4, 7).cube().unwrap();
    assert!(c.x() + c.y() + c.z() == 0);
    let board = game::canned_3x3_start01();
    for tile in board.grid().iter() {
        let cube = tile.coordinate();
        assert!(cube.x() + cube.y() + cube.z() == 0);
        for n in cube.neighbours().iter() {
            assert!(n.x() + n.y() + n.z() == 0);
        }
    }
}
