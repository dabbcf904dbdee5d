use dicey_dice::game;
use dicey_dice::game::build_tree;
use dicey_dice::game::Holding;
use dicey_dice::game::Player;
use dicey_dice::game::Score;

#[test]
fn board_matches_board_2x1() {
    let start = game::canned_2x1_start01();
    let tree = build_tree(start.clone(), 1);

    assert!(*tree.root() == start);
}

#[test]
fn board_matches_board_2x2() {
    let start = game::canned_2x2_start01();
    let tree = build_tree(start.clone(), 1);

    assert!(*tree.root() == start);
}

#[test]
fn u8_holding_01() {
    let player1 = Player::new(1, 'A');
    let holding: u8 = Holding::new(player1, 2, true);

    assert!(holding.owner() == player1);
    assert!(holding.dice() == 2);
    assert!(holding.mobile() == true);
}

#[test]
fn u8_holding_02() {
    let player1 = Player::new(5, 'E');
    let holding: u8 = Holding::new(player1, 1, false);

    assert!(holding.owner() == player1);
    assert!(holding.dice() == 1);
    assert!(holding.mobile() == false);
}

#[test]
fn u8_holding_03() {
    let player1 = Player::new(6, 'F');
    let holding: u8 = Holding::new(player1, 5, true);

    assert!(holding.owner() == player1);
    assert!(holding.dice() == 5);
    assert!(holding.mobile() == true);
}

#[test]
fn score_ordering_prefers_destination_then_closeness() {
    // Destination dominates.
    assert!(Score::new(1, 1, 9) > Score::new(0, 1, 0));
    assert!(Score::new(1, 2, 0) > Score::new(1, 4, 0));
    // At equal destination the smaller distance is greater.
    assert!(Score::new(1, 2, 0) > Score::new(1, 2, 5));
    assert!(Score::new(1, 2, 5) < Score::new(1, 2, 0));
    // Equal fractions with different denominators compare equal.
    assert!(Score::new(1, 2, 3).partial_cmp(&Score::new(2, 4, 3)) == Some(std::cmp::Ordering::Equal));
    // Reflexive, and total on a few samples.
    let samples = [Score::new(0, 1, 0), Score::new(1, 3, 2), Score::new(1, 1, 0)];
    for a in samples.iter() {
        assert!(a.partial_cmp(a) == Some(std::cmp::Ordering::Equal));
        for b in samples.iter() {
            assert!(a.partial_cmp(b).is_some());
        }
    }
}

#[test]
fn default_score_is_worst_at_hand() {
    let d = Score::default();
    assert!(d.destination_num() == 0);
    assert!(d.destination_den() == 1);
    assert!(d.distance() == 0);
    assert!(d.increment_distance() == Score::new(0, 1, 1));
}
