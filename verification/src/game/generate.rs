//! Tree generation functions.
use vstd::prelude::*;

use crate::game::model::assoc_map;
use crate::game::model::choices_views;
use crate::game::model::states_contain;
use crate::game::model::Board;
use crate::game::model::BoardView;
use crate::game::model::Choice;
use crate::game::model::ChoiceView;
use crate::game::model::LayerStats;
use crate::game::model::Tree;
use crate::game::rules::choices_from_board_only_pass_at_end;
use crate::game::rules::spec_choices;
use crate::game::rules::tiles_coords_unique;
use crate::hexagon::coordinate::Cube;

verus! {

/// The board models of a board list, in order.
pub open spec fn boards_views(s: Seq<Board>) -> Seq<BoardView> {
    s.map_values(|b: Board| b@)
}

/// The consequence boards of a choice list, in order: the next breadth
/// layer that these choices open up.
pub open spec fn choice_boards(cs: Seq<ChoiceView>) -> Seq<BoardView> {
    cs.map_values(|c: ChoiceView| c.board)
}

/// One breadth layer of expansion: each board of the layer, in order, is
/// looked up; a board not yet in the dictionary is asked for its choices,
/// stored, and contributes its consequence boards to the next layer.
pub open spec fn expand_boards(
    m: Map<BoardView, Seq<ChoiceView>>,
    layer: Seq<BoardView>,
    move_limit: u8,
) -> (Map<BoardView, Seq<ChoiceView>>, Seq<BoardView>)
    decreases layer.len(),
{
    if layer.len() == 0 {
        (m, Seq::empty())
    } else {
        let b = layer.first();
        if m.contains_key(b) {
            expand_boards(m, layer.drop_first(), move_limit)
        } else {
            let cs = spec_choices(b, move_limit);
            let r = expand_boards(m.insert(b, cs), layer.drop_first(), move_limit);
            (r.0, choice_boards(cs) + r.1)
        }
    }
}

/// Breadth-first expansion, layer by layer, until the frontier empties or
/// the layer allowance runs out. This is the whole meaning of tree
/// generation: the result is a function of the starting layer, the move
/// limit and the allowance alone.
pub open spec fn expand_layers(
    m: Map<BoardView, Seq<ChoiceView>>,
    layer: Seq<BoardView>,
    move_limit: u8,
    fuel: nat,
) -> Map<BoardView, Seq<ChoiceView>>
    decreases fuel,
{
    if fuel == 0 || layer.len() == 0 {
        m
    } else {
        let r = expand_boards(m, layer, move_limit);
        expand_layers(r.0, r.1, move_limit, (fuel - 1) as nat)
    }
}

/// What expansion guarantees of every state list it builds: keys are
/// unique and well formed, and each entry holds exactly the choices the
/// rules give its board.
pub open spec fn states_ok(s: Seq<(Board, Vec<Choice>)>, move_limit: u8) -> bool {
    &&& forall|i: int, j: int|
        0 <= i < j < s.len() ==> (#[trigger] s[i]).0@ != (#[trigger] s[j]).0@
    &&& forall|i: int|
        0 <= i < s.len() ==> (#[trigger] s[i]).0@.wf() && tiles_coords_unique(s[i].0@.tiles)
    &&& forall|i: int|
        0 <= i < s.len() ==> choices_views((#[trigger] s[i]).1@) == spec_choices(
            s[i].0@,
            move_limit,
        )
}

/// Every board of a frontier layer is well formed with unique coordinates.
pub open spec fn layer_ok(layer: Seq<Board>) -> bool {
    forall|i: int|
        0 <= i < layer.len() ==> (#[trigger] layer[i])@.wf() && tiles_coords_unique(
            layer[i]@.tiles,
        )
}

/// Calculate consequences going layer by layer, keeping per-layer counts,
/// until the frontier is empty or `fuel` layers have been taken.
#[verifier::rlimit(100)]
fn expand_states(start: &Board, fuel: usize, move_limit: u8) -> (r: (
    Vec<(Board, Vec<Choice>)>,
    Vec<LayerStats>,
))
    requires
        start.wf(),
        tiles_coords_unique(start@.tiles),
    ensures
        assoc_map(r.0@) == expand_layers(
            Map::empty(),
            seq![start@],
            move_limit,
            fuel as nat,
        ),
        states_ok(r.0@, move_limit),
{
    let mut states: Vec<(Board, Vec<Choice>)> = Vec::new();
    let mut current_layer: Vec<Board> = Vec::new();
    current_layer.push(start.duplicate());
    let mut layer_stats: Vec<LayerStats> = Vec::new();
    let mut layer_count: usize = 0;
    let mut remaining: usize = fuel;
    proof {
        assert(boards_views(current_layer@) =~= seq![start@]);
        assert(assoc_map(states@) == Map::<BoardView, Seq<ChoiceView>>::empty());
    }
    while remaining > 0 && current_layer.len() > 0
        invariant
            states_ok(states@, move_limit),
            layer_ok(current_layer@),
            layer_count + remaining == fuel,
            expand_layers(
                assoc_map(states@),
                boards_views(current_layer@),
                move_limit,
                remaining as nat,
            ) == expand_layers(Map::empty(), seq![start@], move_limit, fuel as nat),
        decreases remaining,
    {
        layer_count += 1;
        let layer_boards = current_layer.len();
        let mut board_inserts: usize = 0;
        let mut next_layer: Vec<Board> = Vec::new();
        let ghost m_start = assoc_map(states@);
        let ghost layer_views = boards_views(current_layer@);
        let n = current_layer.len();
        proof {
            let r0 = expand_boards(m_start, layer_views, move_limit);
            assert(layer_views.skip(0) =~= layer_views);
            assert(boards_views(next_layer@) =~= Seq::<BoardView>::empty());
            assert(boards_views(next_layer@) + r0.1 =~= r0.1);
        }
        let mut i: usize = 0;
        while i < n
            invariant
                states_ok(states@, move_limit),
                layer_ok(current_layer@),
                layer_ok(next_layer@),
                0 <= i <= n,
                n == current_layer@.len(),
                board_inserts <= i,
                layer_views == boards_views(current_layer@),
                expand_boards(m_start, layer_views, move_limit) == {
                    let rest = expand_boards(
                        assoc_map(states@),
                        layer_views.skip(i as int),
                        move_limit,
                    );
                    (rest.0, boards_views(next_layer@) + rest.1)
                },
            decreases n - i,
        {
            let board = current_layer[i].duplicate();
            let ghost rest_layer = layer_views.skip(i as int);
            proof {
                assert(rest_layer.len() == n - i);
                assert(rest_layer.first() == layer_views[i as int]);
                assert(layer_views[i as int] == board@);
                assert(rest_layer.drop_first() =~= layer_views.skip(i as int + 1));
            }
            let present = states_contain(&states, &board);
            if !present {
                let choices = choices_from_board_only_pass_at_end(&board, move_limit);
                let ghost cviews = choices_views(choices@);
                let ghost next_before = next_layer@;
                let m = choices.len();
                let mut j: usize = 0;
                while j < m
                    invariant
                        0 <= j <= m,
                        m == choices@.len(),
                        cviews == choices_views(choices@),
                        forall|q: int|
                            0 <= q < m ==> (#[trigger] choices@[q])@.board.wf()
                                && tiles_coords_unique(choices@[q]@.board.tiles),
                        next_layer@.len() == next_before.len() + j,
                        forall|q: int|
                            0 <= q < next_before.len() ==> (#[trigger] next_layer@[q])@
                                == next_before[q]@,
                        forall|q: int|
                            0 <= q < j ==> (#[trigger] next_layer@[next_before.len() + q])@
                                == cviews[q].board,
                        layer_ok(next_layer@),
                    decreases m - j,
                {
                    let nb = choices[j].consequence().board().duplicate();
                    next_layer.push(nb);
                    proof {
                        assert(cviews[j as int] == choices@[j as int]@);
                        assert(nb@ == cviews[j as int].board);
                    }
                    j += 1;
                }
                proof {
                    assert(boards_views(next_layer@).len() == next_layer@.len());
                    assert(boards_views(next_before).len() == next_before.len());
                    assert(choice_boards(cviews).len() == m);
                    assert forall|q: int| 0 <= q < next_layer@.len() implies boards_views(
                        next_layer@,
                    )[q] == (boards_views(next_before) + choice_boards(cviews))[q] by {
                        assert(boards_views(next_layer@)[q] == next_layer@[q]@);
                        if q < next_before.len() {
                            assert(boards_views(next_before)[q] == next_before[q]@);
                        } else {
                            let q2 = q - next_before.len();
                            assert(next_layer@[next_before.len() + q2]@ == cviews[q2].board);
                            assert(choice_boards(cviews)[q2] == cviews[q2].board);
                        }
                    }
                    assert(boards_views(next_layer@) =~= boards_views(next_before) + choice_boards(
                        cviews,
                    ));
                    crate::game::model::lemma_assoc_map_contains(states@, board@);
                }
                let ghost mid_states = states@;
                states.push((board, choices));
                board_inserts += 1;
                proof {
                    assert(states@.drop_last() =~= mid_states);
                    assert(states@.last().0@ == rest_layer.first());
                    assert(assoc_map(states@) == assoc_map(mid_states).insert(
                        rest_layer.first(),
                        cviews,
                    ));
                    assert(cviews == spec_choices(rest_layer.first(), move_limit));
                    let r2 = expand_boards(
                        assoc_map(states@),
                        rest_layer.drop_first(),
                        move_limit,
                    );
                    assert(expand_boards(assoc_map(mid_states), rest_layer, move_limit) == (
                        r2.0,
                        choice_boards(cviews) + r2.1,
                    ));
                    assert((boards_views(next_before) + choice_boards(cviews)) + r2.1
                        =~= boards_views(next_before) + (choice_boards(cviews) + r2.1));
                    assert(boards_views(next_layer@) =~= boards_views(next_before)
                        + choice_boards(cviews));
                }
            } else {
                proof {
                    assert(expand_boards(assoc_map(states@), rest_layer, move_limit)
                        == expand_boards(
                        assoc_map(states@),
                        rest_layer.drop_first(),
                        move_limit,
                    ));
                }
            }
            i += 1;
        }
        layer_stats.push(LayerStats::new(layer_count, layer_boards, board_inserts));
        proof {
            assert(layer_views.skip(n as int).len() == 0);
            assert(expand_boards(
                assoc_map(states@),
                layer_views.skip(n as int),
                move_limit,
            ) == (assoc_map(states@), Seq::<BoardView>::empty()));
            assert(boards_views(next_layer@) + Seq::<BoardView>::empty() =~= boards_views(
                next_layer@,
            ));
            assert(expand_boards(m_start, layer_views, move_limit) == (
                assoc_map(states@),
                boards_views(next_layer@),
            ));
            assert(layer_views.len() > 0);
        }
        current_layer = next_layer;
        remaining -= 1;
    }
    (states, layer_stats)
}

/// One budgeted breadth layer: as `expand_boards`, except that each insert
/// outside the first layer spends one board of the budget, and the layer
/// stops early once the budget is overdrawn.
pub open spec fn expand_boards_budgeted(
    m: Map<BoardView, Seq<ChoiceView>>,
    layer: Seq<BoardView>,
    move_limit: u8,
    spent: int,
    budget: int,
    counting: bool,
) -> (Map<BoardView, Seq<ChoiceView>>, Seq<BoardView>, int)
    decreases layer.len(),
{
    if layer.len() == 0 {
        (m, Seq::empty(), spent)
    } else {
        let b = layer.first();
        if m.contains_key(b) {
            if spent > budget {
                (m, Seq::empty(), spent)
            } else {
                expand_boards_budgeted(m, layer.drop_first(), move_limit, spent, budget, counting)
            }
        } else {
            let cs = spec_choices(b, move_limit);
            let m1 = m.insert(b, cs);
            let spent1 = if counting {
                spent + 1
            } else {
                spent
            };
            if spent1 > budget {
                (m1, choice_boards(cs), spent1)
            } else {
                let r = expand_boards_budgeted(
                    m1,
                    layer.drop_first(),
                    move_limit,
                    spent1,
                    budget,
                    counting,
                );
                (r.0, choice_boards(cs) + r.1, r.2)
            }
        }
    }
}

/// Budgeted breadth-first expansion: layers are taken until the distinct
/// inserts exceed the budget, except that the first layer never spends,
/// so every legal first move is always present.
pub open spec fn expand_layers_budgeted(
    m: Map<BoardView, Seq<ChoiceView>>,
    layer: Seq<BoardView>,
    move_limit: u8,
    spent: int,
    budget: int,
    counting: bool,
    fuel: nat,
) -> Map<BoardView, Seq<ChoiceView>>
    decreases fuel,
{
    if fuel == 0 || layer.len() == 0 || spent >= budget {
        m
    } else {
        let r = expand_boards_budgeted(m, layer, move_limit, spent, budget, counting);
        expand_layers_budgeted(r.0, r.1, move_limit, r.2, budget, true, (fuel - 1) as nat)
    }
}

/// Calculate consequences layer by layer under a board-insert budget.
#[verifier::rlimit(100)]
fn expand_states_budgeted(start: &Board, budget: usize, move_limit: u8) -> (r: (
    Vec<(Board, Vec<Choice>)>,
    Vec<LayerStats>,
))
    requires
        start.wf(),
        tiles_coords_unique(start@.tiles),
        budget < usize::MAX,
    ensures
        assoc_map(r.0@) == expand_layers_budgeted(
            Map::empty(),
            seq![start@],
            move_limit,
            0,
            budget as int,
            false,
            usize::MAX as nat,
        ),
        states_ok(r.0@, move_limit),
{
    let mut states: Vec<(Board, Vec<Choice>)> = Vec::new();
    let mut current_layer: Vec<Board> = Vec::new();
    current_layer.push(start.duplicate());
    let mut layer_stats: Vec<LayerStats> = Vec::new();
    let mut layer_count: usize = 0;
    let mut spent: usize = 0;
    let mut counting: bool = false;
    let mut remaining: usize = usize::MAX;
    proof {
        assert(boards_views(current_layer@) =~= seq![start@]);
        assert(assoc_map(states@) == Map::<BoardView, Seq<ChoiceView>>::empty());
    }
    while remaining > 0 && spent < budget && current_layer.len() > 0
        invariant
            states_ok(states@, move_limit),
            layer_ok(current_layer@),
            layer_count + remaining == usize::MAX,
            spent <= budget + 1,
            budget < usize::MAX,
            counting <==> layer_count >= 1,
            expand_layers_budgeted(
                assoc_map(states@),
                boards_views(current_layer@),
                move_limit,
                spent as int,
                budget as int,
                counting,
                remaining as nat,
            ) == expand_layers_budgeted(
                Map::empty(),
                seq![start@],
                move_limit,
                0,
                budget as int,
                false,
                usize::MAX as nat,
            ),
        decreases remaining,
    {
        layer_count += 1;
        let layer_boards = current_layer.len();
        let mut board_inserts: usize = 0;
        let mut next_layer: Vec<Board> = Vec::new();
        let ghost m_start = assoc_map(states@);
        let ghost layer_views = boards_views(current_layer@);
        let ghost spent_start = spent as int;
        let n = current_layer.len();
        proof {
            let r0 = expand_boards_budgeted(
                m_start,
                layer_views,
                move_limit,
                spent_start,
                budget as int,
                counting,
            );
            assert(layer_views.skip(0) =~= layer_views);
            assert(boards_views(next_layer@) =~= Seq::<BoardView>::empty());
            assert(boards_views(next_layer@) + r0.1 =~= r0.1);
        }
        let mut stopped: bool = false;
        let mut i: usize = 0;
        while i < n && !stopped
            invariant
                states_ok(states@, move_limit),
                layer_ok(current_layer@),
                layer_ok(next_layer@),
                0 <= i <= n,
                n == current_layer@.len(),
                board_inserts <= i,
                spent <= budget + 1,
                budget < usize::MAX,
                !stopped ==> spent <= budget,
                layer_views == boards_views(current_layer@),
                !stopped ==> expand_boards_budgeted(
                    m_start,
                    layer_views,
                    move_limit,
                    spent_start,
                    budget as int,
                    counting,
                ) == {
                    let rest = expand_boards_budgeted(
                        assoc_map(states@),
                        layer_views.skip(i as int),
                        move_limit,
                        spent as int,
                        budget as int,
                        counting,
                    );
                    (rest.0, boards_views(next_layer@) + rest.1, rest.2)
                },
                stopped ==> expand_boards_budgeted(
                    m_start,
                    layer_views,
                    move_limit,
                    spent_start,
                    budget as int,
                    counting,
                ) == (assoc_map(states@), boards_views(next_layer@), spent as int),
            decreases n - i,
        {
            let board = current_layer[i].duplicate();
            let ghost rest_layer = layer_views.skip(i as int);
            let ghost m_cur = assoc_map(states@);
            let ghost spent0 = spent as int;
            let ghost nb0 = boards_views(next_layer@);
            proof {
                assert(rest_layer.len() == n - i);
                assert(rest_layer.first() == layer_views[i as int]);
                assert(layer_views[i as int] == board@);
                assert(rest_layer.drop_first() =~= layer_views.skip(i as int + 1));
            }
            let present = states_contain(&states, &board);
            if !present {
                let choices = choices_from_board_only_pass_at_end(&board, move_limit);
                let ghost cviews = choices_views(choices@);
                let ghost next_before = next_layer@;
                let m = choices.len();
                let mut j: usize = 0;
                while j < m
                    invariant
                        0 <= j <= m,
                        m == choices@.len(),
                        cviews == choices_views(choices@),
                        forall|q: int|
                            0 <= q < m ==> (#[trigger] choices@[q])@.board.wf()
                                && tiles_coords_unique(choices@[q]@.board.tiles),
                        next_layer@.len() == next_before.len() + j,
                        forall|q: int|
                            0 <= q < next_before.len() ==> (#[trigger] next_layer@[q])@
                                == next_before[q]@,
                        forall|q: int|
                            0 <= q < j ==> (#[trigger] next_layer@[next_before.len() + q])@
                                == cviews[q].board,
                        layer_ok(next_layer@),
                    decreases m - j,
                {
                    let nb = choices[j].consequence().board().duplicate();
                    next_layer.push(nb);
                    proof {
                        assert(cviews[j as int] == choices@[j as int]@);
                        assert(nb@ == cviews[j as int].board);
                    }
                    j += 1;
                }
                proof {
                    assert(boards_views(next_layer@).len() == next_layer@.len());
                    assert(boards_views(next_before).len() == next_before.len());
                    assert(choice_boards(cviews).len() == m);
                    assert forall|q: int| 0 <= q < next_layer@.len() implies boards_views(
                        next_layer@,
                    )[q] == (boards_views(next_before) + choice_boards(cviews))[q] by {
                        assert(boards_views(next_layer@)[q] == next_layer@[q]@);
                        if q < next_before.len() {
                            assert(boards_views(next_before)[q] == next_before[q]@);
                        } else {
                            let q2 = q - next_before.len();
                            assert(next_layer@[next_before.len() + q2]@ == cviews[q2].board);
                            assert(choice_boards(cviews)[q2] == cviews[q2].board);
                        }
                    }
                    assert(boards_views(next_layer@) =~= boards_views(next_before) + choice_boards(
                        cviews,
                    ));
                    crate::game::model::lemma_assoc_map_contains(states@, board@);
                }
                let ghost mid_states = states@;
                states.push((board, choices));
                board_inserts += 1;
                if counting {
                    spent += 1;
                }
                proof {
                    assert(states@.drop_last() =~= mid_states);
                    assert(states@.last().0@ == rest_layer.first());
                    assert(assoc_map(states@) == assoc_map(mid_states).insert(
                        rest_layer.first(),
                        cviews,
                    ));
                    assert(cviews == spec_choices(rest_layer.first(), move_limit));
                }
            }
            if spent > budget {
                stopped = true;
            }
            proof {
                let b = rest_layer.first();
                let cs = spec_choices(b, move_limit);
                if present {
                    assert(m_cur.contains_key(b));
                    assert(assoc_map(states@) == m_cur);
                    assert(!stopped);
                    assert(expand_boards_budgeted(
                        m_cur,
                        rest_layer,
                        move_limit,
                        spent0,
                        budget as int,
                        counting,
                    ) == expand_boards_budgeted(
                        m_cur,
                        rest_layer.drop_first(),
                        move_limit,
                        spent0,
                        budget as int,
                        counting,
                    ));
                } else {
                    assert(!m_cur.contains_key(b));
                    assert(assoc_map(states@) == m_cur.insert(b, cs));
                    assert(boards_views(next_layer@) =~= nb0 + choice_boards(cs));
                    let spent1: int = if counting {
                        spent0 + 1
                    } else {
                        spent0
                    };
                    assert(spent as int == spent1);
                    if stopped {
                        assert(spent1 > budget);
                        assert(expand_boards_budgeted(
                            m_cur,
                            rest_layer,
                            move_limit,
                            spent0,
                            budget as int,
                            counting,
                        ) == (m_cur.insert(b, cs), choice_boards(cs), spent1));
                    } else {
                        assert(spent1 <= budget);
                        let r = expand_boards_budgeted(
                            m_cur.insert(b, cs),
                            rest_layer.drop_first(),
                            move_limit,
                            spent1,
                            budget as int,
                            counting,
                        );
                        assert(expand_boards_budgeted(
                            m_cur,
                            rest_layer,
                            move_limit,
                            spent0,
                            budget as int,
                            counting,
                        ) == (r.0, choice_boards(cs) + r.1, r.2));
                        assert((nb0 + choice_boards(cs)) + r.1 =~= nb0 + (choice_boards(cs)
                            + r.1));
                    }
                }
            }
            i += 1;
        }
        layer_stats.push(LayerStats::new(layer_count, layer_boards, board_inserts));
        proof {
            if !stopped {
                assert(layer_views.skip(n as int).len() == 0);
                assert(expand_boards_budgeted(
                    assoc_map(states@),
                    layer_views.skip(n as int),
                    move_limit,
                    spent as int,
                    budget as int,
                    counting,
                ) == (assoc_map(states@), Seq::<BoardView>::empty(), spent as int));
                assert(boards_views(next_layer@) + Seq::<BoardView>::empty() =~= boards_views(
                    next_layer@,
                ));
            }
            assert(expand_boards_budgeted(
                m_start,
                layer_views,
                move_limit,
                spent_start,
                budget as int,
                counting,
            ) == (assoc_map(states@), boards_views(next_layer@), spent as int));
            assert(layer_views.len() > 0);
        }
        current_layer = next_layer;
        counting = true;
        remaining -= 1;
    }
    (states, layer_stats)
}

/// Calculate all consequences going layer by layer. Each layer is reported
/// with how many boards it weighed and how many were new.
pub fn breadth_first_calc_consequences(start: Board, move_limit: u8) -> (r: (
    Vec<(Board, Vec<Choice>)>,
    Vec<LayerStats>,
))
    requires
        start.wf(),
        tiles_coords_unique(start@.tiles),
    ensures
        assoc_map(r.0@) == expand_layers(
            Map::empty(),
            seq![start@],
            move_limit,
            usize::MAX as nat,
        ),
        states_ok(r.0@, move_limit),
{
    expand_states(&start, usize::MAX, move_limit)
}

/// As above, but stopping at the depth the horizon names.
pub fn bounded_breadth_first_calc_consequences(start: Board, horizon: usize, move_limit: u8) -> (r:
    (Vec<(Board, Vec<Choice>)>, Vec<LayerStats>))
    requires
        start.wf(),
        tiles_coords_unique(start@.tiles),
    ensures
        assoc_map(r.0@) == expand_layers(Map::empty(), seq![start@], move_limit, horizon as nat),
        states_ok(r.0@, move_limit),
{
    expand_states(&start, horizon, move_limit)
}

/// As above, but budgeted on board inserts rather than depth; a partially
/// computed layer is kept rather than cancelled.
pub fn insert_budgeted_breadth_first_calc_consequences(
    start: Board,
    boards: usize,
    move_limit: u8,
) -> (r: (Vec<(Board, Vec<Choice>)>, Vec<LayerStats>))
    requires
        start.wf(),
        tiles_coords_unique(start@.tiles),
        boards < usize::MAX,
    ensures
        assoc_map(r.0@) == expand_layers_budgeted(
            Map::empty(),
            seq![start@],
            move_limit,
            0,
            boards as int,
            false,
            usize::MAX as nat,
        ),
        states_ok(r.0@, move_limit),
{
    expand_states_budgeted(&start, boards, move_limit)
}

/// Build all board states reachable from `start`. Will not stop until the
/// frontier is exhausted.
pub fn calculate_all_consequences(start: Board, move_limit: u8) -> (r: Vec<(Board, Vec<Choice>)>)
    requires
        start.wf(),
        tiles_coords_unique(start@.tiles),
    ensures
        assoc_map(r@) == expand_layers(
            Map::empty(),
            seq![start@],
            move_limit,
            usize::MAX as nat,
        ),
        states_ok(r@, move_limit),
{
    let (states, _stats) = breadth_first_calc_consequences(start, move_limit);
    states
}

/// Build board states from `from` down to the given horizon.
pub fn calculate_consequences(from: Board, horizon: usize, move_limit: u8) -> (r: Vec<
    (Board, Vec<Choice>),
>)
    requires
        from.wf(),
        tiles_coords_unique(from@.tiles),
    ensures
        assoc_map(r@) == expand_layers(Map::empty(), seq![from@], move_limit, horizon as nat),
        states_ok(r@, move_limit),
{
    let (states, _stats) = bounded_breadth_first_calc_consequences(from, horizon, move_limit);
    states
}

/// Build board states from `from` under a board-insert budget.
pub fn calculate_consequences_insert_limited(
    from: Board,
    board_budget: usize,
    move_limit: u8,
) -> (r: Vec<(Board, Vec<Choice>)>)
    requires
        from.wf(),
        tiles_coords_unique(from@.tiles),
        board_budget < usize::MAX,
    ensures
        assoc_map(r@) == expand_layers_budgeted(
            Map::empty(),
            seq![from@],
            move_limit,
            0,
            board_budget as int,
            false,
            usize::MAX as nat,
        ),
        states_ok(r@, move_limit),
{
    let (states, _stats) = insert_budgeted_breadth_first_calc_consequences(
        from,
        board_budget,
        move_limit,
    );
    states
}

/// Attempt construction of the entire tree: breadth-first until the
/// frontier is empty. The dictionary that comes back is a function of the
/// root and the move limit alone, so repeated calls agree on every key and
/// every choice list.
pub fn build_tree(root: Board, move_limit: u8) -> (r: Tree)
    requires
        root.wf(),
        tiles_coords_unique(root@.tiles),
    ensures
        r.root@ == root@,
        r.wf(),
        states_ok(r.states@, move_limit),
        r.states_map() == expand_layers(
            Map::empty(),
            seq![root@],
            move_limit,
            usize::MAX as nat,
        ),
{
    let states = calculate_all_consequences(root.duplicate(), move_limit);
    Tree { root, states }
}

/// A tree expanded breadth-first down to the given horizon.
pub fn start_tree_horizon_limited(root: Board, horizon: usize, move_limit: u8) -> (r: Tree)
    requires
        root.wf(),
        tiles_coords_unique(root@.tiles),
    ensures
        r.root@ == root@,
        r.wf(),
        states_ok(r.states@, move_limit),
        r.states_map() == expand_layers(Map::empty(), seq![root@], move_limit, horizon as nat),
{
    let states = calculate_consequences(root.duplicate(), horizon, move_limit);
    Tree { root, states }
}

/// A tree expanded breadth-first under a board-insert budget; the first
/// layer always completes, so the caller sees every legal first move.
pub fn start_tree_insert_budgeted(root: Board, board_budget: usize, move_limit: u8) -> (r: Tree)
    requires
        root.wf(),
        tiles_coords_unique(root@.tiles),
        board_budget < usize::MAX,
    ensures
        r.root@ == root@,
        r.wf(),
        states_ok(r.states@, move_limit),
        r.states_map() == expand_layers_budgeted(
            Map::empty(),
            seq![root@],
            move_limit,
            0,
            board_budget as int,
            false,
            usize::MAX as nat,
        ),
{
    let states = calculate_consequences_insert_limited(root.duplicate(), board_budget, move_limit);
    Tree { root, states }
}

/// Add to the sent tree from a new starting board, down to the horizon.
/// Positions already present are kept as they are.
pub fn grow_tree_horizon_limited(
    from: Board,
    horizon: usize,
    tree: &mut Tree,
    move_limit: u8,
) -> (r: Result<(), Board>)
    requires
        old(tree).wf(),
        from.wf(),
        tiles_coords_unique(from@.tiles),
    ensures
        r is Ok,
        final(tree).wf(),
        final(tree).root@ == old(tree).root@,
        ({
            let grown = expand_layers(Map::empty(), seq![from@], move_limit, horizon as nat);
            &&& forall|k: BoardView|
                final(tree).states_map().contains_key(k) <==> (#[trigger] old(tree).states_map().contains_key(k) || grown.contains_key(k))
            &&& forall|k: BoardView|
                old(tree).states_map().contains_key(k) ==> final(tree).states_map()[k]
                    == #[trigger] old(tree).states_map()[k]
            &&& forall|k: BoardView|
                !old(tree).states_map().contains_key(k) && grown.contains_key(k) ==> final(tree).states_map()[k] == #[trigger] grown[k]
        }),
{
    let new_states = calculate_consequences(from, horizon, move_limit);
    tree.append(new_states);
    Ok(())
}

/// Every board a state list mentions, key or consequence, is well formed
/// with unique coordinates.
pub open spec fn states_boards_wf(s: Seq<(Board, Vec<Choice>)>) -> bool {
    &&& forall|i: int|
        0 <= i < s.len() ==> (#[trigger] s[i]).0@.wf() && tiles_coords_unique(s[i].0@.tiles)
    &&& forall|i: int, c: int|
        #![trigger s[i].1@[c]]
        0 <= i < s.len() && 0 <= c < s[i].1@.len() ==> s[i].1@[c]@.board.wf()
            && tiles_coords_unique(s[i].1@[c]@.board.tiles)
}

/// The boards of a rules-consistent state list, keys and consequences
/// alike, are well formed with unique coordinates.
#[verifier::rlimit(100)]
pub proof fn lemma_states_ok_boards_wf(s: Seq<(Board, Vec<Choice>)>, move_limit: u8)
    requires
        states_ok(s, move_limit),
    ensures
        states_boards_wf(s),
{
    assert forall|i: int, c: int|
        #![trigger s[i].1@[c]]
        0 <= i < s.len() && 0 <= c < s[i].1@.len() implies s[i].1@[c]@.board.wf()
        && tiles_coords_unique(s[i].1@[c]@.board.tiles) by {
        let b = s[i].0@;
        let cs = spec_choices(b, move_limit);
        assert(choices_views(s[i].1@) == cs);
        assert(choices_views(s[i].1@)[c] == s[i].1@[c]@);
        let ch = s[i].1@[c]@;
        assert(s[i].1@.len() == cs.len());
        assert(ch == cs[c]);
        assert(b.wf());
        assert(tiles_coords_unique(b.tiles));
        let player = b.players.current_player();
        let attacks = crate::game::rules::spec_all_attacks(b.tiles, player);
        if attacks.len() == 0 {
            if crate::game::rules::spec_winner(b) {
                assert(ch.board == b);
            } else if crate::game::rules::spec_loser(b) {
                crate::game::player::lemma_removed_current_wf(b.players);
                assert(ch.board == crate::game::rules::game_over_board(b));
            } else if crate::game::rules::spec_stalemate(b) {
                assert(ch.board == b);
            } else {
                crate::game::player::lemma_advanced_wf(b.players);
                crate::game::rules::lemma_reinforced_wf(b.tiles, player, b.captured_dice as int);
                let out = crate::game::rules::spec_reinforced(
                    b.tiles,
                    player,
                    b.captured_dice as int,
                );
                assert forall|t1: int, t2: int| 0 <= t1 < t2 < out.len() implies (
                #[trigger] out[t1]).0 != (#[trigger] out[t2]).0 by {
                    assert(out[t1].0 == b.tiles[t1].0);
                    assert(out[t2].0 == b.tiles[t2].0);
                }
                assert forall|t: int| 0 <= t < out.len() implies (#[trigger] out[t]).0.zero_sum()
                    && out[t].0.bounded() by {
                    assert(out[t].0 == b.tiles[t].0);
                }
                assert(ch.board == crate::game::rules::turn_over_board(b));
            }
        } else if b.moved + 1 > move_limit {
            crate::game::player::lemma_advanced_wf(b.players);
            crate::game::rules::lemma_reinforced_wf(b.tiles, player, b.captured_dice as int);
            let out = crate::game::rules::spec_reinforced(b.tiles, player, b.captured_dice as int);
            assert forall|t1: int, t2: int| 0 <= t1 < t2 < out.len() implies (#[trigger] out[t1]).0
                != (#[trigger] out[t2]).0 by {
                assert(out[t1].0 == b.tiles[t1].0);
                assert(out[t2].0 == b.tiles[t2].0);
            }
            assert forall|t: int| 0 <= t < out.len() implies (#[trigger] out[t]).0.zero_sum()
                && out[t].0.bounded() by {
                assert(out[t].0 == b.tiles[t].0);
            }
            assert(ch.board == crate::game::rules::turn_over_board(b));
        } else {
            let f = |a: crate::game::model::Action| crate::game::rules::choice_view(
                a,
                crate::game::model::ConsequenceKind::Continue,
                crate::game::rules::attack_board(b, a),
            );
            assert(cs == attacks.map_values(f));
            assert(cs[c] == f(attacks[c]));
            let a = attacks[c];
            crate::game::rules::lemma_all_attacks_legal(b.tiles, player);
            assert(crate::game::rules::attack_is_legal(b.tiles, player, a));
            crate::hexagon::grid::lemma_tile_index_for(b.tiles, a->0);
            crate::hexagon::grid::lemma_tile_index_for(b.tiles, a->1);
            let w = choose|t: int|
                0 <= t < b.tiles.len() && (#[trigger] b.tiles[t]).0 == a->0
                    && crate::game::rules::owner_of(b.tiles[t].1) == player
                    && crate::game::rules::mobile_of(b.tiles[t].1)
                    && crate::game::rules::dice_of(b.tiles[t].1) == a->2;
            crate::game::rules::lemma_unique_tile_index(b.tiles, w);
            assert(crate::hexagon::grid::tile_index_for(b.tiles, a->0) == w);
            assert(crate::game::rules::dice_of(b.tiles[w].1) == a->2 > 1);
            let out = crate::game::rules::spec_attacked_tiles(b.tiles, a->0, a->1);
            assert forall|t1: int, t2: int| 0 <= t1 < t2 < out.len() implies (#[trigger] out[t1]).0
                != (#[trigger] out[t2]).0 by {
                assert(out[t1].0 == b.tiles[t1].0);
                assert(out[t2].0 == b.tiles[t2].0);
            }
            assert forall|t: int| 0 <= t < out.len() implies (#[trigger] out[t]).0.zero_sum()
                && out[t].0.bounded() && crate::game::model::packed_dice(out[t].1) <= 5 by {
                assert(out[t].0 == b.tiles[t].0);
                let h = b.tiles[crate::hexagon::grid::tile_index_for(b.tiles, a->0)].1;
                assert(crate::game::rules::dice_of(h) <= 5);
                if b.tiles[t].0 == a->0 {
                } else if b.tiles[t].0 == a->1 {
                } else {
                }
            }
            let dd = a->3;
            assert(dd == crate::game::rules::dice_of(
                b.tiles[crate::hexagon::grid::tile_index_for(b.tiles, a->1)].1,
            ));
            assert(dd <= 5);
            assert(b.moved <= 254);
            assert(b.captured_dice <= 255 + 5 * b.moved);
            assert(ch.board.captured_dice == b.captured_dice + dd);
            assert(ch.board.moved == b.moved + 1);
        }
    }
}

/// For every board reachable in a tree, the dice summed over the grid
/// stay within five per tile.
pub proof fn lemma_tree_dice_bounded(s: Seq<(Board, Vec<Choice>)>, move_limit: u8)
    requires
        states_ok(s, move_limit),
    ensures
        forall|i: int|
            0 <= i < s.len() ==> crate::game::rules::spec_dice_sum((#[trigger] s[i]).0@.tiles) <= 5
                * s[i].0@.tiles.len(),
{
    assert forall|i: int| 0 <= i < s.len() implies crate::game::rules::spec_dice_sum(
        (#[trigger] s[i]).0@.tiles,
    ) <= 5 * s[i].0@.tiles.len() by {
        crate::game::rules::lemma_dice_sum_bounded(s[i].0@.tiles);
    }
}

/// The same tile count and the same coordinate at every position.
pub open spec fn same_layout(tiles: Seq<(Cube, u8)>, root: Seq<(Cube, u8)>) -> bool {
    tiles.len() == root.len() && forall|i: int|
        0 <= i < tiles.len() ==> (#[trigger] tiles[i]).0 == root[i].0
}

/// Every consequence board of the rules keeps its board's layout: no rule
/// adds, removes or moves a tile.
pub proof fn lemma_choices_same_layout(b: BoardView, move_limit: u8)
    ensures
        forall|c: int|
            0 <= c < spec_choices(b, move_limit).len() ==> same_layout(
                (#[trigger] spec_choices(b, move_limit)[c]).board.tiles,
                b.tiles,
            ),
{
    let cs = spec_choices(b, move_limit);
    assert forall|c: int| 0 <= c < cs.len() implies same_layout(
        (#[trigger] cs[c]).board.tiles,
        b.tiles,
    ) by {
        let player = b.players.current_player();
        let attacks = crate::game::rules::spec_all_attacks(b.tiles, player);
        if attacks.len() == 0 {
            if crate::game::rules::spec_winner(b) {
            } else if crate::game::rules::spec_loser(b) {
            } else if crate::game::rules::spec_stalemate(b) {
            } else {
                let out = crate::game::rules::spec_reinforced(
                    b.tiles,
                    player,
                    b.captured_dice as int,
                );
                assert forall|t: int| 0 <= t < out.len() implies (#[trigger] out[t]).0
                    == b.tiles[t].0 by {}
            }
        } else if b.moved + 1 > move_limit {
            let out = crate::game::rules::spec_reinforced(b.tiles, player, b.captured_dice as int);
            assert forall|t: int| 0 <= t < out.len() implies (#[trigger] out[t]).0
                == b.tiles[t].0 by {}
        } else {
            let f = |a: crate::game::model::Action| crate::game::rules::choice_view(
                a,
                crate::game::model::ConsequenceKind::Continue,
                crate::game::rules::attack_board(b, a),
            );
            assert(cs == attacks.map_values(f));
            assert(cs[c] == f(attacks[c]));
            let a = attacks[c];
            let out = crate::game::rules::spec_attacked_tiles(b.tiles, a->0, a->1);
            assert forall|t: int| 0 <= t < out.len() implies (#[trigger] out[t]).0
                == b.tiles[t].0 by {}
        }
    }
}

/// One budget-free layer of expansion keeps every key and every frontier
/// board on the root's layout.
proof fn lemma_expand_boards_layout(
    m: Map<BoardView, Seq<ChoiceView>>,
    layer: Seq<BoardView>,
    move_limit: u8,
    root: Seq<(Cube, u8)>,
)
    requires
        forall|k: BoardView| #[trigger] m.contains_key(k) ==> same_layout(k.tiles, root),
        forall|i: int| 0 <= i < layer.len() ==> same_layout((#[trigger] layer[i]).tiles, root),
    ensures
        forall|k: BoardView|
            #[trigger] expand_boards(m, layer, move_limit).0.contains_key(k) ==> same_layout(
                k.tiles,
                root,
            ),
        forall|i: int|
            0 <= i < expand_boards(m, layer, move_limit).1.len() ==> same_layout(
                (#[trigger] expand_boards(m, layer, move_limit).1[i]).tiles,
                root,
            ),
    decreases layer.len(),
{
    if layer.len() > 0 {
        let b = layer.first();
        assert(same_layout(b.tiles, root));
        assert(forall|i: int|
            0 <= i < layer.drop_first().len() ==> (#[trigger] layer.drop_first()[i]) == layer[i
                + 1]);
        if m.contains_key(b) {
            lemma_expand_boards_layout(m, layer.drop_first(), move_limit, root);
        } else {
            let cs = spec_choices(b, move_limit);
            lemma_choices_same_layout(b, move_limit);
            let m1 = m.insert(b, cs);
            assert forall|k: BoardView| #[trigger] m1.contains_key(k) implies same_layout(
                k.tiles,
                root,
            ) by {
                if k != b {
                    assert(m.contains_key(k));
                }
            }
            lemma_expand_boards_layout(m1, layer.drop_first(), move_limit, root);
            let r = expand_boards(m1, layer.drop_first(), move_limit);
            assert forall|i: int|
                0 <= i < (choice_boards(cs) + r.1).len() implies same_layout(
                (#[trigger] (choice_boards(cs) + r.1)[i]).tiles,
                root,
            ) by {
                if i < choice_boards(cs).len() {
                    assert(choice_boards(cs)[i] == cs[i].board);
                    assert(same_layout(cs[i].board.tiles, b.tiles));
                }
            }
        }
    }
}

/// Full expansion keeps every reachable board on the root's layout.
proof fn lemma_expand_layers_layout(
    m: Map<BoardView, Seq<ChoiceView>>,
    layer: Seq<BoardView>,
    move_limit: u8,
    fuel: nat,
    root: Seq<(Cube, u8)>,
)
    requires
        forall|k: BoardView| #[trigger] m.contains_key(k) ==> same_layout(k.tiles, root),
        forall|i: int| 0 <= i < layer.len() ==> same_layout((#[trigger] layer[i]).tiles, root),
    ensures
        forall|k: BoardView|
            #[trigger] expand_layers(m, layer, move_limit, fuel).contains_key(k) ==> same_layout(
                k.tiles,
                root,
            ),
    decreases fuel,
{
    if fuel == 0 || layer.len() == 0 {
        assert(expand_layers(m, layer, move_limit, fuel) == m);
        assert forall|k: BoardView|
            #[trigger] expand_layers(m, layer, move_limit, fuel).contains_key(k) implies
            same_layout(k.tiles, root) by {
            assert(m.contains_key(k));
        }
    } else {
        lemma_expand_boards_layout(m, layer, move_limit, root);
        let r = expand_boards(m, layer, move_limit);
        lemma_expand_layers_layout(r.0, r.1, move_limit, (fuel - 1) as nat, root);
        assert(expand_layers(m, layer, move_limit, fuel) == expand_layers(
            r.0,
            r.1,
            move_limit,
            (fuel - 1) as nat,
        ));
        assert forall|k: BoardView|
            #[trigger] expand_layers(m, layer, move_limit, fuel).contains_key(k) implies
            same_layout(k.tiles, root) by {
            assert(expand_layers(r.0, r.1, move_limit, (fuel - 1) as nat).contains_key(k));
        }
    }
}

/// Every board that full expansion reaches keeps the root's coordinate
/// layout and tile count; with the dice cap this bounds each board's dice
/// sum by five per root tile.
pub proof fn lemma_expansion_keeps_layout(root: BoardView, move_limit: u8, fuel: nat)
    ensures
        forall|k: BoardView|
            #[trigger] expand_layers(
                Map::empty(),
                seq![root],
                move_limit,
                fuel,
            ).contains_key(k) ==> k.tiles.len() == root.tiles.len() && (forall|i: int|
                0 <= i < k.tiles.len() ==> (#[trigger] k.tiles[i]).0 == root.tiles[i].0),
{
    lemma_expand_layers_layout(
        Map::empty(),
        seq![root],
        move_limit,
        fuel,
        root.tiles,
    );
}

/// Expander determinism: expansion is a function of the root, the move
/// limit and the allowance alone, so two trees built from them agree on
/// their key sets and on every choice list.
pub proof fn lemma_expander_deterministic(
    a: Tree,
    b: Tree,
    root: BoardView,
    move_limit: u8,
    fuel: nat,
)
    requires
        a.states_map() == expand_layers(Map::empty(), seq![root], move_limit, fuel),
        b.states_map() == expand_layers(Map::empty(), seq![root], move_limit, fuel),
    ensures
        a.states_map() == b.states_map(),
        a.states_map().dom() =~= b.states_map().dom(),
{
}

} // verus!
