use dicey_dice::game;
use dicey_dice::game::build_tree;
use dicey_dice::game::clear_all_scoring;
use dicey_dice::game::score::pairs_get;
use dicey_dice::game::score::score_board;
use dicey_dice::game::score_tree;
use dicey_dice::game::Score;

fn destination(score: &Score) -> f64 {
    score.destination_num() as f64 / score.destination_den() as f64
}

#[test]
fn score_three_quarters_two_player() {
    let board = game::canned_2x2_start01();
    let scores = score_board(&board);
    let mut players = board.players().playing();
    let player2 = players.pop().unwrap();
    let player1 = players.pop().unwrap();

    assert!(scores.len() == 2);
    assert!(destination(&pairs_get(&scores, &player1).unwrap()) == 0.25_f64);
    assert!(destination(&pairs_get(&scores, &player2).unwrap()) == 0.75_f64);
}

#[test]
fn score_insta_win_1x1() {
    let mut tree = build_tree(game::canned_1x1_start(), 100);
    score_tree(&mut tree);

    let root = tree.root().clone();
    let choices = tree.fetch_choices(&root).unwrap();
    assert!(choices.len() == 1);
    let score = choices[0].score().unwrap();
    assert!(destination(&score) == 1_f64);
    assert!(score.distance() == 0);
}

#[test]
fn score_insta_win_2x1() {
    let mut tree = build_tree(game::canned_2x1_start03(), 100);
    score_tree(&mut tree);

    let root = tree.root().clone();
    let choices = tree.fetch_choices(&root).unwrap();
    assert!(choices.len() == 1);
    let score = choices[0].score().unwrap();
    assert!(destination(&score) == 1_f64);
    assert!(score.distance() == 0);
}

#[test]
fn score_stalemate_2x1() {
    let mut tree = build_tree(game::canned_2x1_start02(), 20);
    score_tree(&mut tree);

    let root = tree.root().clone();
    let choices = tree.fetch_choices(&root).unwrap();
    assert!(choices.len() == 1);
    let score = choices[0].score().unwrap();
    assert!(destination(&score) == 0.5_f64);
    assert!(score.distance() == 0);
}

#[test]
fn score_game_2x1() {
    let mut tree = build_tree(game::canned_2x1_start01(), 20);
    score_tree(&mut tree);

    // First move
    let root = tree.root().clone();
    let choices = tree.fetch_choices(&root).unwrap();
    assert!(choices.len() == 1);
    assert!(choices[0].score().unwrap() == Score::new(0, 1, 0));

    // Second move
    let next_board = choices[0].consequence().board().clone();
    let choices = tree.fetch_choices(&next_board).unwrap();
    assert!(choices.len() == 1);
    assert!(choices[0].score().unwrap() == Score::new(1, 1, 1));

    // Last move
    let next_board = choices[0].consequence().board().clone();
    let choices = tree.fetch_choices(&next_board).unwrap();
    assert!(choices.len() == 1);
    assert!(choices[0].score().unwrap() == Score::new(1, 1, 0));
}

#[test]
fn score_insta_win_3x1() {
    let mut tree = build_tree(game::canned_3x1_start02(), 10);
    score_tree(&mut tree);

    // Player 'B' is the winner, but player 'A' has to game over first.
    let root = tree.root().clone();
    let choices = tree.fetch_choices(&root).unwrap();
    assert!(choices.len() == 1);
    let score = choices[0].score().unwrap();
    assert!(destination(&score) == 0_f64);
    assert!(score.distance() == 0);

    // Second move.
    let next_board = choices[0].consequence().board().clone();
    let choices = tree.fetch_choices(&next_board).unwrap();
    assert!(choices.len() == 1);
    assert!(choices[0].score().unwrap() == Score::new(1, 1, 0));
}

#[test]
fn score_stalemate_3x1() {
    let mut tree = build_tree(game::canned_3x1_start03(), 20);
    score_tree(&mut tree);

    let root = tree.root().clone();
    let choices = tree.fetch_choices(&root).unwrap();
    assert!(choices.len() == 1);
    let score = choices[0].score().unwrap();
    assert!(destination(&score) >= 0.6_f64);
    assert!(score.distance() == 0);
}

#[test]
fn score_game_3x1() {
    let mut tree = build_tree(game::canned_3x1_start01(), 20);
    score_tree(&mut tree);

    let root = tree.root().clone();
    let choices = tree.fetch_choices(&root).unwrap();
    assert!(choices.len() == 1);
    assert!(choices[0].score().unwrap() == Score::new(1, 1, 1));
}

#[test]
fn score_stalemate_3x1_v2() {
    let mut tree = build_tree(game::canned_3x1_start04(), 100);
    score_tree(&mut tree);

    let root = tree.root().clone();
    let choices = tree.fetch_choices(&root).unwrap();
    assert!(choices.len() == 1);
    let score = choices[0].score().unwrap();
    assert!(destination(&score) >= 0.3_f64);
    assert!(score.distance() == 0);
}

#[test]
fn scoring_twice_changes_nothing() {
    // Scorer idempotence: a second pass returns the same scores.
    let mut tree = build_tree(game::canned_3x1_start01(), 20);
    score_tree(&mut tree);
    let once: Vec<_> = tree
        .states
        .iter()
        .map(|(_, cs)| cs.iter().map(|c| c.score()).collect::<Vec<_>>())
        .collect();
    score_tree(&mut tree);
    let twice: Vec<_> = tree
        .states
        .iter()
        .map(|(_, cs)| cs.iter().map(|c| c.score()).collect::<Vec<_>>())
        .collect();
    assert!(once == twice);
}

#[test]
fn clear_then_score_equals_one_pass() {
    let mut tree = build_tree(game::canned_3x1_start01(), 20);
    score_tree(&mut tree);
    let fresh: Vec<_> = tree
        .states
        .iter()
        .map(|(_, cs)| cs.iter().map(|c| c.score()).collect::<Vec<_>>())
        .collect();
    clear_all_scoring(&mut tree);
    let root = tree.root().clone();
    for choice in tree.fetch_choices(&root).unwrap().iter() {
        assert!(choice.score().is_none());
    }
    score_tree(&mut tree);
    let again: Vec<_> = tree
        .states
        .iter()
        .map(|(_, cs)| cs.iter().map(|c| c.score()).collect::<Vec<_>>())
        .collect();
    assert!(fresh == again);
}
