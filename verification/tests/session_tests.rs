use dicey_dice::game;
use dicey_dice::session;
use dicey_dice::session::state_from_board;
use dicey_dice::session::handle_ai_turn;
use dicey_dice::session::LastAttack;

#[test]
fn state_from_board_2x1() {
    let start = game::canned_2x1_start01();
    let s_grid = start.grid().clone();
    let tree = game::build_tree(start.clone(), 6);

    let state = state_from_board(start, &tree, LastAttack::default()).unwrap();
    let f_grid = state.board().grid().clone();

    assert!(s_grid == f_grid);
}

#[test]
fn state_from_board_2x2() {
    let start = game::canned_2x2_start01();
    let s_grid = start.grid().clone();
    let tree = game::build_tree(start.clone(), 6);

    let state = state_from_board(start, &tree, LastAttack::default()).unwrap();
    let f_grid = state.board().grid().clone();

    assert!(s_grid == f_grid);
}

#[test]
fn start_grid_matches_2x1() {
    let start = game::canned_2x1_start01();
    let s_grid = start.grid().clone();

    let session = session::Setup::new().set_board(start).session().unwrap();

    let state = session.current_turn().clone();
    let f_grid = state.board().grid().clone();

    assert!(s_grid == f_grid);
}

#[test]
fn start_grid_matches_2x2() {
    let start = game::canned_2x2_start01();
    let s_grid = start.grid().clone();

    let session = session::Setup::new().set_board(start).session().unwrap();

    let state = session.current_turn().clone();
    let f_grid = state.board().grid().clone();

    assert!(s_grid == f_grid);
}

#[test]
fn session_without_board_is_refused() {
    let result = session::Setup::new().session();
    assert!(result.is_err());
    assert!(result.unwrap_err() == "No board set.");
}

#[test]
fn advance_rejects_a_bad_index() {
    let start = game::canned_2x2_start03();
    let mut session = session::Setup::new().set_board(start).session().unwrap();
    let count = session.current_turn().choices().len();
    assert!(count == 2);
    let result = session.advance(9);
    assert!(result.is_err());
}

#[test]
fn advance_resolves_an_attack() {
    // Either the attack wins and the board advances, or it loses and the
    // attacking tile freezes; both leave a playable session.
    let start = game::canned_2x2_start03();
    let mut session = session::Setup::new().set_board(start.clone()).session().unwrap();
    assert!(session.current_turn().choices().len() == 2);
    let result = session.advance(0);
    assert!(result.is_ok());
    assert!(session.current_turn().board().grid().len() == 4);
}

#[test]
fn ai_picks_the_highest_scoring_choice() {
    let start = game::canned_2x2_start03();
    let mut session = session::Setup::new().set_board(start).session().unwrap();
    let state = session.score_with_depth_horizon(4);
    let choices = state.choices().clone();
    assert!(choices.len() == 2);
    let pick = handle_ai_turn(&choices).unwrap();
    assert!(pick < 2);
    let picked = choices[pick].score().unwrap();
    for choice in choices.iter() {
        let s = choice.score().unwrap();
        // No choice strictly beats the picked one.
        assert!(!(s > picked));
    }
}

#[test]
fn budget_scoring_keeps_all_choices() {
    let start = game::canned_2x2_start03();
    let mut session = session::Setup::new().set_board(start).session().unwrap();
    let state = session.score_with_insert_budget(50);
    assert!(state.choices().len() == 2);
    for choice in state.choices().iter() {
        assert!(choice.score().is_some());
    }
}
