use dicey_dice::game;
use dicey_dice::game::Holding;
use dicey_dice::game::generate::breadth_first_calc_consequences;
use dicey_dice::game::generate::calculate_all_consequences;
use dicey_dice::game::model::states_contain;

#[test]
fn breadth_first_on_canned_2x1_start01() {
    let board = game::canned_2x1_start01();
    let (states, _stats) = breadth_first_calc_consequences(board.clone(), 10);
    assert!(states.len() == 3);
    assert!(states_contain(&states, &board));
}

#[test]
fn breadth_first_on_canned_2x2_start01() {
    let board = game::canned_2x2_start01();
    let (states, _stats) = breadth_first_calc_consequences(board.clone(), 10);
    assert!(states.len() == 4);
    assert!(states_contain(&states, &board));
}

#[test]
fn consequences_3x1_2player() {
    let board = game::canned_3x1_start01();
    let consequences = calculate_all_consequences(board.clone(), 10);

    assert!(consequences.len() == 2);
}

#[test]
fn consequences_3x1_3player() {
    let board = game::canned_3x1_start05();
    let consequences = calculate_all_consequences(board.clone(), 20);

    assert!(consequences.len() == 14);
}

#[test]
fn full_expansion_is_deterministic() {
    // The same root and move limit give identical key sets and identical
    // choice lists, call after call.
    let board = game::canned_2x2_start01();
    let a = game::build_tree(board.clone(), 10);
    let b = game::build_tree(board.clone(), 10);
    assert!(a.states.len() == b.states.len());
    for (key, choices) in a.states.iter() {
        let other = b.fetch_choices(key).expect("key set must agree");
        assert!(choices.len() == other.len());
        for (x, y) in choices.iter().zip(other.iter()) {
            assert!(x.action() == y.action());
            assert!(x.consequence().board() == y.consequence().board());
            assert!(x.score() == y.score());
        }
    }
}

#[test]
fn every_reachable_board_keeps_the_dice_cap() {
    // Each tile holds at most five dice, so the dice summed over any
    // reachable board stay within five per tile.
    let board = game::canned_3x1_start01();
    let tree = game::build_tree(board, 10);
    for (key, choices) in tree.states.iter() {
        let mut sum: u64 = 0;
        let tiles = key.grid().len() as u64;
        for tile in key.grid().iter() {
            let dice = tile.data().dice() as u64;
            assert!(dice <= 5);
            sum += dice;
        }
        assert!(sum <= 5 * tiles);
        for choice in choices.iter() {
            let _ = choice;
        }
    }
}

#[test]
fn budgeted_expansion_keeps_the_first_layer() {
    // Even a zero-choice budget leaves every legal first move visible
    // once any layer is taken at all.
    let board = game::canned_2x2_start03();
    let tree = game::start_tree_insert_budgeted(board.clone(), 1, 100);
    let choices = tree.fetch_choices(&board).expect("the root layer always completes");
    assert!(choices.len() == 2);
}

#[test]
fn horizon_zero_expands_nothing() {
    let board = game::canned_2x1_start01();
    let tree = game::start_tree_horizon_limited(board.clone(), 0, 10);
    assert!(tree.fetch_choices(&board).is_none());
    assert!(tree.states.len() == 0);
}

#[test]
fn grow_tree_adds_missing_states() {
    let board = game::canned_2x1_start01();
    let mut tree = game::start_tree_horizon_limited(board.clone(), 1, 10);
    assert!(tree.states.len() == 1);
    let grown = game::grow_tree_horizon_limited(board.clone(), 50, &mut tree, 10);
    assert!(grown.is_ok());
    assert!(tree.states.len() == 3);
    assert!(tree.fetch_choices(&board).is_some());
}
