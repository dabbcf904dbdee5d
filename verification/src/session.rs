//! Handle a game: own the tree, collapse forced moves, resolve attacks
//! with dice rolls, and expand or score the tree on demand.
use vstd::prelude::*;
use vstd::string::*;

use crate::game::generate::lemma_states_ok_boards_wf;
use crate::game::generate::start_tree_horizon_limited;
use crate::game::generate::start_tree_insert_budgeted;
use crate::game::generate::states_boards_wf;
use crate::game::model::choices_views;
use crate::game::model::BoardView;
use crate::game::model::ChoiceView;
use crate::game::model::pack_holding;
use crate::game::model::packed_dice;
use crate::game::model::Action;
use crate::game::model::Board;
use crate::game::model::Choice;
use crate::game::model::Consequence;
use crate::game::model::Holding;
use crate::game::model::Tree;
use crate::game::player::Player;
use crate::game::player::Players;
use crate::game::rng_range;
use crate::game::rules::dice_of;
use crate::game::rules::owner_of;
use crate::game::rules::tiles_coords_unique;
use crate::game::score::lemma_states_ok_scorable;
use crate::game::score::scorable;
use crate::game::score::score_tree;
use crate::hexagon::coordinate::Cube;
use crate::hexagon::grid::Grid;

verus! {

/// Roll the given number of six-sided dice and sum them.
fn roll_d6s(d6s: u8, random: &mut rand::rngs::ThreadRng) -> (r: usize)
    ensures
        d6s <= r <= 6 * d6s,
{
    let mut sum: usize = 0;
    let mut i: u8 = 0;
    while i < d6s
        invariant
            0 <= i <= d6s,
            i <= sum <= 6 * i,
        decreases d6s - i,
    {
        let roll = rng_range(random, 1, 7);
        sum = sum + roll;
        i += 1;
    }
    sum
}

/// The dice and rolls of the attack that last resolved; the all-zero
/// value is the sentinel for a turn with no preceding attack.
#[derive(Debug, Copy, Clone, PartialEq, Eq, Structural)]
pub struct LastAttack {
    pub attacker_dice: u8,
    pub attacker_rolled: usize,
    pub defender_dice: u8,
    pub defender_rolled: usize,
}

impl LastAttack {
    pub fn new(attacker_dice: u8, attacker_rolled: usize, defender_dice: u8, defender_rolled: usize) -> (r: Self)
        ensures
            r == (LastAttack { attacker_dice, attacker_rolled, defender_dice, defender_rolled }),
    {
        LastAttack { attacker_dice, attacker_rolled, defender_dice, defender_rolled }
    }
}

impl Default for LastAttack {
    fn default() -> (r: Self)
        ensures
            r == (LastAttack {
                attacker_dice: 0u8,
                attacker_rolled: 0usize,
                defender_dice: 0u8,
                defender_rolled: 0usize,
            }),
    {
        LastAttack::new(0, 0, 0, 0)
    }
}

/// State of game progression: whether the game is on, over and what kind
/// of over.
#[derive(Debug, Clone)]
pub enum Progression {
    PlayOn(LastAttack),
    GameOverWinner(Player),
    GameOverStalemate(Vec<Player>),
}

/// The state of the session that the caller sees: how the game stands,
/// the forced moves that were auto-played to get here, the current board,
/// and the choices open to its current player.
#[derive(Debug, Clone)]
pub struct State {
    pub game: Progression,
    pub traversal: Vec<(Board, Choice)>,
    pub board: Board,
    pub choices: Vec<Choice>,
}

/// Every choice board is fit to become a root of further expansion.
pub open spec fn choices_boards_wf(cs: Seq<Choice>) -> bool {
    forall|c: int|
        0 <= c < cs.len() ==> (#[trigger] cs[c])@.board.wf() && tiles_coords_unique(
            cs[c]@.board.tiles,
        )
}

impl State {
    /// A state is well formed when its board and every choice board are.
    pub open spec fn wf(&self) -> bool {
        &&& self.board@.wf()
        &&& tiles_coords_unique(self.board@.tiles)
        &&& choices_boards_wf(self.choices@)
    }

    pub fn game(&self) -> (r: &Progression)
        ensures
            r == &self.game,
    {
        &self.game
    }

    pub fn traversal(&self) -> (r: &Vec<(Board, Choice)>)
        ensures
            r == &self.traversal,
    {
        &self.traversal
    }

    pub fn board(&self) -> (r: &Board)
        ensures
            r@ == self.board@,
    {
        &self.board
    }

    pub fn choices(&self) -> (r: &Vec<Choice>)
        ensures
            choices_views(r@) == choices_views(self.choices@),
    {
        &self.choices
    }
}

/// A copy of a choice list, view for view.
fn duplicate_choices(cs: &Vec<Choice>) -> (r: Vec<Choice>)
    ensures
        r@.len() == cs@.len(),
        choices_views(r@) == choices_views(cs@),
        forall|c: int| 0 <= c < cs@.len() ==> (#[trigger] r@[c])@ == cs@[c]@,
{
    let n = cs.len();
    let mut r: Vec<Choice> = Vec::new();
    let mut i: usize = 0;
    while i < n
        invariant
            0 <= i <= n,
            n == cs@.len(),
            r@.len() == i,
            forall|c: int| 0 <= c < i ==> (#[trigger] r@[c])@ == cs@[c]@,
        decreases n - i,
    {
        r.push(cs[i].duplicate());
        i += 1;
    }
    proof {
        assert(choices_views(r@) =~= choices_views(cs@));
    }
    r
}

impl Tree {
    /// A copy of the choice list of the entry at `ix`.
    fn read_choices(&self, ix: usize) -> (r: Vec<Choice>)
        requires
            ix < self.states@.len(),
        ensures
            r@.len() == self.states@[ix as int].1@.len(),
            choices_views(r@) == choices_views(self.states@[ix as int].1@),
            forall|c: int|
                0 <= c < r@.len() ==> (#[trigger] r@[c])@ == self.states@[ix as int].1@[c]@,
    {
        duplicate_choices(&self.states[ix].1)
    }
}

/// How a forced-move walk can end: at a real decision, at a win, locked
/// in a stalemate, or at a board the tree does not hold.
#[derive(Debug, Copy, Clone, PartialEq, Eq, Structural)]
pub enum CollapseKind {
    Decision,
    Won,
    Stalled,
    Missing,
}

/// Where a forced-move walk ends: how, at which board, with which choices,
/// which forced passes it consumed, and how deep it looked.
pub ghost struct CollapseView {
    pub kind: CollapseKind,
    pub board: BoardView,
    pub choices: Seq<ChoiceView>,
    pub traversal: Seq<(BoardView, ChoiceView)>,
    pub depth: int,
}

/// The walk allowance for a tree of `n` states: enough to visit every
/// state and still detect the end.
pub open spec fn collapse_fuel(n: nat) -> nat {
    if n < usize::MAX - 2 {
        n + 2
    } else {
        usize::MAX as nat
    }
}

/// One more step of depth, holding still at the counter's end.
pub open spec fn bump_depth(d: int) -> int {
    if d < usize::MAX {
        d + 1
    } else {
        d
    }
}

/// The models of the consumed (board, choice) pairs, in order.
pub open spec fn traversal_views(t: Seq<(Board, Choice)>) -> Seq<(BoardView, ChoiceView)> {
    t.map_values(|p: (Board, Choice)| (p.0@, p.1@))
}

/// The players still in a roster, in ring order.
pub open spec fn playing_views(p: crate::game::player::PlayersView) -> Seq<Player> {
    Seq::new(p.count as nat, |i: int| p.playing[i].unwrap())
}

/// The forced-move collapse, step by step: look the board up — a miss
/// reports the depth reached; a single passing choice into a win or a
/// stalemate ends the game there; a single passing turn-over or knock-out
/// is consumed, recorded, and the walk continues; anything else is a
/// decision point with the board's own choices.
pub open spec fn spec_collapse(
    m: Map<BoardView, Seq<ChoiceView>>,
    b: BoardView,
    depth: int,
    trav: Seq<(BoardView, ChoiceView)>,
    fuel: nat,
) -> CollapseView
    decreases fuel,
{
    if fuel == 0 || !m.contains_key(b) {
        CollapseView {
            kind: CollapseKind::Missing,
            board: b,
            choices: Seq::empty(),
            traversal: trav,
            depth,
        }
    } else {
        let cs = m[b];
        if cs.len() == 1 {
            let d2 = bump_depth(depth);
            let c = cs[0];
            if c.action is Pass {
                if c.kind is Stalemate {
                    CollapseView {
                        kind: CollapseKind::Stalled,
                        board: c.board,
                        choices: cs,
                        traversal: trav,
                        depth: d2,
                    }
                } else if c.kind is Winner {
                    CollapseView {
                        kind: CollapseKind::Won,
                        board: c.board,
                        choices: cs,
                        traversal: trav,
                        depth: d2,
                    }
                } else if c.kind is GameOver || c.kind is TurnOver {
                    spec_collapse(m, c.board, d2, trav.push((b, c)), (fuel - 1) as nat)
                } else {
                    CollapseView {
                        kind: CollapseKind::Decision,
                        board: b,
                        choices: cs,
                        traversal: trav,
                        depth: d2,
                    }
                }
            } else {
                CollapseView {
                    kind: CollapseKind::Decision,
                    board: b,
                    choices: cs,
                    traversal: trav,
                    depth: d2,
                }
            }
        } else {
            CollapseView {
                kind: CollapseKind::Decision,
                board: b,
                choices: cs,
                traversal: trav,
                depth,
            }
        }
    }
}

/// What a state at the end of a collapse walk holds: the walk's board and
/// choices, its consumed passes as the traversal, and the progression the
/// walk's ending dictates.
pub open spec fn collapsed_state(state: State, w: CollapseView, outcome: LastAttack) -> bool {
    &&& !(w.kind is Missing)
    &&& state.board@ == w.board
    &&& choices_views(state.choices@) == w.choices
    &&& traversal_views(state.traversal@) == w.traversal
    &&& (w.kind is Decision ==> (state.game matches Progression::PlayOn(o) && o == outcome))
    &&& (w.kind is Won ==> (state.game matches Progression::GameOverWinner(p) && p
        == w.board.players.current_player()))
    &&& (w.kind is Stalled ==> (state.game matches Progression::GameOverStalemate(ps) && ps@
        == playing_views(w.board.players)))
}

/// Generate a `State` from a chosen board and the tree where that board
/// should live. Skips over states that leave only one passing move, except
/// for winning ones; detects won and locked games. A missing board, or a
/// forced chain that outruns the tree, reports the depth to expand to.
pub fn state_from_board(current_board: Board, tree: &Tree, outcome: LastAttack) -> (r: Result<
    State,
    usize,
>)
    requires
        tree.wf(),
        states_boards_wf(tree.states@),
        current_board.wf(),
        tiles_coords_unique(current_board@.tiles),
    ensures
        ({
            let w = spec_collapse(
                tree.states_map(),
                current_board@,
                1,
                Seq::empty(),
                collapse_fuel(tree.states@.len()),
            );
            match r {
                Ok(state) => state.wf() && collapsed_state(state, w, outcome),
                Err(d) => w.kind is Missing && d == w.depth && d >= 1,
            }
        }),
{
    let ghost m = tree.states_map();
    let mut current = current_board.duplicate();
    let mut traversal: Vec<(Board, Choice)> = Vec::new();
    let mut depth: usize = 1;
    let states_len = tree.states.len();
    let mut fuel: usize = if states_len < usize::MAX - 2 {
        states_len + 2
    } else {
        usize::MAX
    };
    proof {
        assert(traversal_views(traversal@) =~= Seq::<(BoardView, ChoiceView)>::empty());
    }
    while fuel > 0
        invariant
            tree.wf(),
            states_boards_wf(tree.states@),
            current.wf(),
            tiles_coords_unique(current@.tiles),
            m == tree.states_map(),
            spec_collapse(
                m,
                current_board@,
                1,
                Seq::empty(),
                collapse_fuel(tree.states@.len()),
            ) == spec_collapse(
                m,
                current@,
                depth as int,
                traversal_views(traversal@),
                fuel as nat,
            ),
            depth >= 1,
        decreases fuel,
    {
        let ghost w0 = spec_collapse(
            m,
            current_board@,
            1,
            Seq::empty(),
            collapse_fuel(tree.states@.len()),
        );
        let ghost cur = current@;
        let ghost tv = traversal_views(traversal@);
        let ghost pre_depth = depth as int;
        let ix = match tree.find_state_index(&current) {
            None => {
                proof {
                    assert(w0 == CollapseView {
                        kind: CollapseKind::Missing,
                        board: cur,
                        choices: Seq::empty(),
                        traversal: tv,
                        depth: pre_depth,
                    });
                }
                return Err(depth);
            },
            Some(ix) => ix,
        };
        proof {
            crate::game::model::lemma_assoc_map_value(tree.states@, ix as int);
            assert(m[cur] == choices_views(tree.states@[ix as int].1@));
        }
        let ghost cs = m[cur];
        let count = tree.choice_count(ix);
        if count == 1 {
            depth = if depth < usize::MAX {
                depth + 1
            } else {
                depth
            };
            proof {
                assert(depth as int == bump_depth(pre_depth));
            }
            let choice = tree.read_choice(ix, 0);
            proof {
                assert(choices_views(tree.states@[ix as int].1@)[0] == tree.states@[ix as int].1@[0]@);
                assert(cs[0] == choice@);
            }
            match choice.action {
                Action::Attack(_, _, _, _) => {
                    // One last attack remains; taking it for the player
                    // would overstep, so present it.
                    let choices = tree.read_choices(ix);
                    proof {
                        assert(w0 == CollapseView {
                            kind: CollapseKind::Decision,
                            board: cur,
                            choices: cs,
                            traversal: tv,
                            depth: depth as int,
                        });
                    }
                    return Ok(
                        State {
                            game: Progression::PlayOn(outcome),
                            traversal,
                            board: current,
                            choices,
                        },
                    );
                },
                Action::Pass => {
                    match &choice.consequence {
                        Consequence::Stalemate(next_board) => {
                            let players = next_board.players().playing();
                            let choices = tree.read_choices(ix);
                            proof {
                                assert(w0 == CollapseView {
                                    kind: CollapseKind::Stalled,
                                    board: cs[0].board,
                                    choices: cs,
                                    traversal: tv,
                                    depth: depth as int,
                                });
                                assert(next_board@ == cs[0].board);
                                assert(players@ =~= playing_views(next_board@.players));
                            }
                            return Ok(
                                State {
                                    game: Progression::GameOverStalemate(players),
                                    traversal,
                                    board: next_board.duplicate(),
                                    choices,
                                },
                            );
                        },
                        Consequence::Winner(next_board) => {
                            let winner = next_board.players().current();
                            let choices = tree.read_choices(ix);
                            proof {
                                assert(w0 == CollapseView {
                                    kind: CollapseKind::Won,
                                    board: cs[0].board,
                                    choices: cs,
                                    traversal: tv,
                                    depth: depth as int,
                                });
                                assert(next_board@ == cs[0].board);
                            }
                            return Ok(
                                State {
                                    game: Progression::GameOverWinner(winner),
                                    traversal,
                                    board: next_board.duplicate(),
                                    choices,
                                },
                            );
                        },
                        Consequence::GameOver(next_board) => {
                            // Iterate the progression.
                            let next_board = next_board.duplicate();
                            let dup = choice.duplicate();
                            proof {
                                assert(w0 == spec_collapse(
                                    m,
                                    cs[0].board,
                                    depth as int,
                                    tv.push((cur, cs[0])),
                                    (fuel - 1) as nat,
                                ));
                                assert(dup@ == cs[0]);
                            }
                            traversal.push((current, dup));
                            current = next_board;
                            proof {
                                assert(traversal_views(traversal@) =~= tv.push((cur, cs[0])));
                            }
                        },
                        Consequence::TurnOver(next_board) => {
                            // It would be cumbersome to pass manually, so
                            // deal with it automatically.
                            let next_board = next_board.duplicate();
                            let dup = choice.duplicate();
                            proof {
                                assert(w0 == spec_collapse(
                                    m,
                                    cs[0].board,
                                    depth as int,
                                    tv.push((cur, cs[0])),
                                    (fuel - 1) as nat,
                                ));
                                assert(dup@ == cs[0]);
                            }
                            traversal.push((current, dup));
                            current = next_board;
                            proof {
                                assert(traversal_views(traversal@) =~= tv.push((cur, cs[0])));
                            }
                        },
                        Consequence::Continue(_) => {
                            // A single continuing choice never leaves the
                            // rules with a passing action; present it.
                            let choices = tree.read_choices(ix);
                            proof {
                                assert(w0 == CollapseView {
                                    kind: CollapseKind::Decision,
                                    board: cur,
                                    choices: cs,
                                    traversal: tv,
                                    depth: depth as int,
                                });
                            }
                            return Ok(
                                State {
                                    game: Progression::PlayOn(outcome),
                                    traversal,
                                    board: current,
                                    choices,
                                },
                            );
                        },
                    }
                },
            }
        } else {
            // Choices need to be made here.
            let choices = tree.read_choices(ix);
            proof {
                assert(w0 == CollapseView {
                    kind: CollapseKind::Decision,
                    board: cur,
                    choices: cs,
                    traversal: tv,
                    depth: pre_depth,
                });
            }
            return Ok(
                State {
                    game: Progression::PlayOn(outcome),
                    traversal,
                    board: current,
                    choices,
                },
            );
        }
        fuel -= 1;
    }
    proof {
        assert(spec_collapse(
            m,
            current_board@,
            1,
            Seq::empty(),
            collapse_fuel(tree.states@.len()),
        ) == CollapseView {
            kind: CollapseKind::Missing,
            board: current@,
            choices: Seq::empty(),
            traversal: traversal_views(traversal@),
            depth: depth as int,
        });
    }
    Err(depth)
}

/// What the scoring entry points leave behind: a fresh tree rooted at the
/// current board whose dictionary has exactly the skeleton of the given
/// expansion, every terminal score at its defined value, the root's entry
/// wholly scored, and those root choices installed into the current turn,
/// which otherwise stands as it was.
pub open spec fn scored_turn_installed(
    pre: Session,
    post: Session,
    grown: Map<BoardView, Seq<ChoiceView>>,
) -> bool {
    let base = pre.turns@.last().board@;
    &&& post.move_limit == pre.move_limit
    &&& (forall|i: int|
        0 <= i < pre.turns@.len() - 1 ==> (#[trigger] post.turns@[i]) == pre.turns@[i])
    &&& post.tree matches Some(t) && {
        &&& t.root@ == base
        &&& crate::game::score::map_skeleton_eq(grown, t.states_map())
        &&& crate::game::score::terminal_values_ok(t.states@)
        &&& (forall|ix: int|
            0 <= ix < t.states@.len() && (#[trigger] t.states@[ix]).0@ == base
                ==> crate::game::score::all_scored_at(t.states@, ix))
        &&& choices_views(post.turns@.last().choices@) == (if t.states_map().contains_key(base) {
            t.states_map()[base]
        } else {
            Seq::<ChoiceView>::empty()
        })
    }
    &&& post.turns@.last().board@ == base
    &&& post.turns@.last().game == pre.turns@.last().game
    &&& post.turns@.last().traversal@ == pre.turns@.last().traversal@
}

/// What settling a board leaves behind: either the collapsed state of the
/// walk over the tree that came back, or — only when the bounded retries
/// ran out — the board itself presented with no choices.
pub open spec fn settle_post(state: State, t: Tree, base: BoardView, outcome: LastAttack) -> bool {
    ||| collapsed_state(
        state,
        spec_collapse(t.states_map(), base, 1, Seq::empty(), collapse_fuel(t.states@.len())),
        outcome,
    )
    ||| (state.game matches Progression::PlayOn(o) && o == outcome && state.choices@.len() == 0
        && state.traversal@.len() == 0 && state.board@ == base)
}

/// The tiles with the hex at `at` frozen in place and all else unchanged.
pub open spec fn frozen_tiles(tiles: Seq<(Cube, u8)>, at: Cube) -> Seq<(Cube, u8)> {
    Seq::new(
        tiles.len(),
        |k: int|
            if tiles[k].0 == at {
                (tiles[k].0, pack_holding(owner_of(tiles[k].1), dice_of(tiles[k].1), false))
            } else {
                tiles[k]
            },
    )
}

/// The board an attack resolution hands to the collapse: the choice's
/// consequence board on a winning roll; on a losing roll the same board
/// with the attacking tile frozen and one more move taken.
pub open spec fn advance_base(cur: BoardView, ch: ChoiceView, won: bool) -> BoardView {
    if won {
        ch.board
    } else {
        BoardView {
            players: cur.players,
            shape: cur.shape,
            tiles: frozen_tiles(cur.tiles, ch.action->0),
            captured_dice: cur.captured_dice,
            moved: if cur.moved < u16::MAX {
                (cur.moved + 1) as u16
            } else {
                cur.moved
            },
        }
    }
}

/// An attack resolution consistent with the chosen attack: each side
/// rolled its own dice, and the attacker wins exactly on the greater sum.
pub open spec fn advance_outcome_ok(ch: ChoiceView, o: LastAttack, won: bool) -> bool {
    &&& ch.action matches Action::Attack(_, _, ad, dd) && o.attacker_dice == ad
        && o.defender_dice == dd && ad <= o.attacker_rolled <= 6 * ad && dd <= o.defender_rolled
        <= 6 * dd && (won <==> o.attacker_rolled > o.defender_rolled)
}

/// What a session demands of its tree: sound keys, scorable entries and
/// expandable boards throughout.
pub open spec fn tree_ok(t: Tree) -> bool {
    &&& t.wf()
    &&& scorable(t.states@)
    &&& states_boards_wf(t.states@)
}

/// Scoring leaves every board in place, so a tree fit for expansion stays
/// fit for expansion.
pub proof fn lemma_skeleton_boards_wf(
    a: Seq<(Board, Vec<Choice>)>,
    b: Seq<(Board, Vec<Choice>)>,
)
    requires
        crate::game::score::same_skeleton(a, b),
        states_boards_wf(a),
    ensures
        states_boards_wf(b),
{
    assert forall|i: int, c: int|
        #![trigger b[i].1@[c]]
        0 <= i < b.len() && 0 <= c < b[i].1@.len() implies b[i].1@[c]@.board.wf()
        && tiles_coords_unique(b[i].1@[c]@.board.tiles) by {
        assert(a[i].1@[c]@.board == b[i].1@[c]@.board);
    }
}

/// Settle the state for a board, growing a fresh tree to the reported
/// depth whenever the present one is too shallow. The attempts are
/// bounded; when they run out, the board is presented with no choices.
fn settle_state(start: &Board, tree: Tree, move_limit: u8, outcome: LastAttack) -> (r: (
    State,
    Tree,
))
    requires
        start.wf(),
        tiles_coords_unique(start@.tiles),
        tree_ok(tree),
    ensures
        r.0.wf(),
        tree_ok(r.1),
        settle_post(r.0, r.1, start@, outcome),
{
    let mut tree = tree;
    let mut attempt: usize = 0;
    let mut result: Option<State> = None;
    while attempt < 8 && result.is_none()
        invariant
            start.wf(),
            tiles_coords_unique(start@.tiles),
            tree_ok(tree),
            0 <= attempt <= 8,
            result matches Some(s) ==> s.wf() && settle_post(s, tree, start@, outcome),
        decreases 8 - attempt,
    {
        match state_from_board(start.duplicate(), &tree, outcome) {
            Ok(state) => {
                result = Some(state);
            },
            Err(depth) => {
                let grown = start_tree_horizon_limited(start.duplicate(), depth, move_limit);
                proof {
                    lemma_states_ok_scorable(grown.states@, move_limit);
                    lemma_states_ok_boards_wf(grown.states@, move_limit);
                }
                tree = grown;
            },
        }
        attempt += 1;
    }
    match result {
        Some(state) => (state, tree),
        None => (
            State {
                game: Progression::PlayOn(outcome),
                traversal: Vec::new(),
                board: start.duplicate(),
                choices: Vec::new(),
            },
            tree,
        ),
    }
}

/// A game in progress; the turns record every decision point reached.
#[derive(Debug)]
pub struct Session {
    pub turns: Vec<State>,
    pub tree: Option<Tree>,
    pub move_limit: u8,
    pub rand: rand::rngs::ThreadRng,
}

impl Session {
    /// A session always holds at least one turn, a positive move limit,
    /// and a sound tree; every recorded turn is well formed.
    pub open spec fn wf(&self) -> bool {
        &&& self.turns@.len() >= 1
        &&& self.move_limit >= 1
        &&& self.tree matches Some(t) && tree_ok(t)
        &&& forall|i: int| 0 <= i < self.turns@.len() ==> (#[trigger] self.turns@[i]).wf()
    }

    pub fn new(start: Board, tree: Tree, move_limit: u8) -> (r: Session)
        requires
            start.wf(),
            tiles_coords_unique(start@.tiles),
            tree_ok(tree),
            move_limit >= 1,
        ensures
            r.wf(),
            r.turns@.len() == 1,
            r.move_limit == move_limit,
            r.tree matches Some(t) && settle_post(
                r.turns@[0],
                t,
                start@,
                LastAttack {
                    attacker_dice: 0,
                    attacker_rolled: 0,
                    defender_dice: 0,
                    defender_rolled: 0,
                },
            ),
    {
        let (first_turn, tree) = settle_state(&start, tree, move_limit, LastAttack::default());
        let mut turns: Vec<State> = Vec::new();
        turns.push(first_turn);
        Session { turns, tree: Some(tree), move_limit, rand: crate::game::fresh_rng() }
    }

    /// A fresh session from this one's starting position.
    pub fn reset(self) -> (r: Session)
        requires
            self.wf(),
        ensures
            r.wf(),
    {
        let first = self.turns[0].board.duplicate();
        let tree = start_tree_horizon_limited(first.duplicate(), 1, self.move_limit);
        proof {
            lemma_states_ok_scorable(tree.states@, self.move_limit);
            lemma_states_ok_boards_wf(tree.states@, self.move_limit);
        }
        Session::new(first, tree, self.move_limit)
    }

    /// The decision point the game stands at.
    pub fn current_turn(&self) -> (r: &State)
        requires
            self.wf(),
        ensures
            r == self.turns@.last(),
            r.wf(),
    {
        &self.turns[self.turns.len() - 1]
    }

    /// Take the indexed attack choice and advance the game: both sides
    /// roll their dice; the attacker advances the board on a win and
    /// freezes the attacking tile on a loss. The tree grows on demand to
    /// keep up.
    pub fn advance(&mut self, index: usize) -> (r: Result<&State, String>)
        requires
            old(self).wf(),
        ensures
            final(self).wf(),
            ({
                let st = old(self).turns@.last();
                &&& (index >= st.choices@.len() ==> r is Err)
                &&& (r is Err ==> *final(self) == *old(self))
                &&& (index < st.choices@.len() && st.choices@[index as int]@.action is Attack
                    ==> r is Ok)
                &&& (r is Ok ==> {
                    &&& index < st.choices@.len()
                    &&& st.choices@[index as int]@.action is Attack
                    &&& final(self).turns@.len() == old(self).turns@.len() + 1
                    &&& forall|i: int|
                        0 <= i < old(self).turns@.len() ==> (#[trigger] final(self).turns@[i])
                            == old(self).turns@[i]
                    &&& final(self).move_limit == old(self).move_limit
                    &&& exists|won: bool, o: LastAttack|
                        #[trigger] advance_outcome_ok(
                            old(self).turns@.last().choices@[index as int]@,
                            o,
                            won,
                        ) && (final(self).tree matches Some(t) && settle_post(
                            final(self).turns@.last(),
                            t,
                            advance_base(
                                old(self).turns@.last().board@,
                                old(self).turns@.last().choices@[index as int]@,
                                won,
                            ),
                            o,
                        ))
                })
            }),
    {
        let ghost st = old(self).turns@.last();
        let turn_count = self.turns.len();
        let current = &self.turns[turn_count - 1];
        if index >= current.choices.len() {
            return Err(String::from_str("Index out of bounds."));
        }
        let choice = current.choices[index].duplicate();
        let (attacker_coordinate, attacker_dice, defender_dice) = match choice.action {
            Action::Attack(ac, _, ad, dd) => (ac, ad, dd),
            Action::Pass => {
                // A session only ever presents attack choices to take.
                return Err(String::from_str("Choice is not an attack."));
            },
        };

        let attacker_roll = roll_d6s(attacker_dice, &mut self.rand);
        let defender_roll = roll_d6s(defender_dice, &mut self.rand);
        let outcome = LastAttack::new(attacker_dice, attacker_roll, defender_dice, defender_roll);

        let current = &self.turns[turn_count - 1];
        let next_board = if attacker_roll > defender_roll {
            // The board advances due to the win.
            choice.consequence().board().duplicate()
        } else {
            // The board stays, less one move, with the losing hex frozen
            // until its owner's next turn.
            let frozen = freeze_tile(&current.board.grid, attacker_coordinate);
            let moved = current.board.moved;
            Board {
                players: current.board.players.duplicate(),
                grid: frozen,
                captured_dice: current.board.captured_dice,
                moved: if moved < u16::MAX {
                    moved + 1
                } else {
                    moved
                },
            }
        };

        let tree = match self.tree.take() {
            Some(t) => t,
            None => {
                // a well-formed session always holds a tree
                proof {
                    assert(false);
                }
                Tree::empty(next_board.duplicate())
            },
        };
        let ghost ch = st.choices@[index as int]@;
        let ghost won = attacker_roll > defender_roll;
        proof {
            assert(choice@ == ch);
            assert(advance_outcome_ok(ch, outcome, won));
            if attacker_roll > defender_roll {
                assert(next_board@ == advance_base(st.board@, ch, won));
            } else {
                assert(attacker_coordinate == ch.action->0);
                assert(next_board@.tiles == frozen_tiles(st.board@.tiles, ch.action->0));
                assert(next_board@ == advance_base(st.board@, ch, won));
            }
        }
        let (state, tree) = settle_state(&next_board, tree, self.move_limit, outcome);
        self.tree = Some(tree);
        self.turns.push(state);
        proof {
            let fs = self.turns@.last();
            assert(settle_post(fs, self.tree.unwrap(), advance_base(st.board@, ch, won), outcome));
            assert(advance_outcome_ok(ch, outcome, won));
        }
        Ok(self.current_turn())
    }

    /// Rebuild and score the tree from the current board down to the given
    /// horizon, then put the scored choices into the current state.
    pub fn score_with_depth_horizon(&mut self, horizon: usize) -> (r: &State)
        requires
            old(self).wf(),
        ensures
            final(self).wf(),
            final(self).turns@.len() == old(self).turns@.len(),
            scored_turn_installed(
                *old(self),
                *final(self),
                crate::game::generate::expand_layers(
                    Map::empty(),
                    seq![old(self).turns@.last().board@],
                    old(self).move_limit,
                    horizon as nat,
                ),
            ),
    {
        let current_board = self.current_turn().board.duplicate();
        let mut tree = start_tree_horizon_limited(current_board, horizon, self.move_limit);
        proof {
            lemma_states_ok_scorable(tree.states@, self.move_limit);
            lemma_states_ok_boards_wf(tree.states@, self.move_limit);
        }
        let ghost pre = tree.states@;
        let _ = score_tree(&mut tree);
        proof {
            lemma_skeleton_boards_wf(pre, tree.states@);
            crate::game::score::lemma_skeleton_maps_eq(pre, tree.states@);
            assert forall|ix: int|
                0 <= ix < tree.states@.len() && (#[trigger] tree.states@[ix]).0@
                    == tree.root@ implies crate::game::score::all_scored_at(
                tree.states@,
                ix,
            ) by {
                assert(pre[ix].0@ == tree.states@[ix].0@);
            }
        }
        self.install_scored(tree)
    }

    /// Rebuild and score the tree from the current board under the given
    /// board-insert budget, then put the scored choices into the current
    /// state. The first layer ignores the budget so that every available
    /// choice is present.
    pub fn score_with_insert_budget(&mut self, insert_budget: usize) -> (r: &State)
        requires
            old(self).wf(),
            insert_budget < usize::MAX,
        ensures
            final(self).wf(),
            final(self).turns@.len() == old(self).turns@.len(),
            scored_turn_installed(
                *old(self),
                *final(self),
                crate::game::generate::expand_layers_budgeted(
                    Map::empty(),
                    seq![old(self).turns@.last().board@],
                    old(self).move_limit,
                    0,
                    insert_budget as int,
                    false,
                    usize::MAX as nat,
                ),
            ),
    {
        let current_board = self.current_turn().board.duplicate();
        let mut tree = start_tree_insert_budgeted(current_board, insert_budget, self.move_limit);
        proof {
            lemma_states_ok_scorable(tree.states@, self.move_limit);
            lemma_states_ok_boards_wf(tree.states@, self.move_limit);
        }
        let ghost pre = tree.states@;
        let _ = score_tree(&mut tree);
        proof {
            lemma_skeleton_boards_wf(pre, tree.states@);
            crate::game::score::lemma_skeleton_maps_eq(pre, tree.states@);
            assert forall|ix: int|
                0 <= ix < tree.states@.len() && (#[trigger] tree.states@[ix]).0@
                    == tree.root@ implies crate::game::score::all_scored_at(
                tree.states@,
                ix,
            ) by {
                assert(pre[ix].0@ == tree.states@[ix].0@);
            }
        }
        self.install_scored(tree)
    }

    /// Put the root choices of a freshly scored tree into the current
    /// state and keep the tree.
    fn install_scored(&mut self, tree: Tree) -> (r: &State)
        requires
            old(self).wf(),
            tree_ok(tree),
        ensures
            final(self).wf(),
            final(self).turns@.len() == old(self).turns@.len(),
            final(self).move_limit == old(self).move_limit,
            forall|i: int|
                0 <= i < old(self).turns@.len() - 1 ==> (#[trigger] final(self).turns@[i]) == old(
                    self,
                ).turns@[i],
            final(self).tree matches Some(t) && t == tree,
            choices_views(final(self).turns@.last().choices@) == (if tree.states_map().contains_key(
                tree.root@,
            ) {
                tree.states_map()[tree.root@]
            } else {
                Seq::<ChoiceView>::empty()
            }),
            final(self).turns@.last().board@ == old(self).turns@.last().board@,
            final(self).turns@.last().game == old(self).turns@.last().game,
            final(self).turns@.last().traversal@ == old(self).turns@.last().traversal@,
    {
        let choices = match tree.find_state_index(&tree.root) {
            Some(ix) => {
                let cs = tree.read_choices(ix);
                proof {
                    crate::game::model::lemma_assoc_map_value(tree.states@, ix as int);
                    assert(choices_views(cs@) == tree.states_map()[tree.root@]);
                    assert forall|c: int|
                        0 <= c < cs@.len() implies (#[trigger] cs@[c])@.board.wf()
                        && tiles_coords_unique(cs@[c]@.board.tiles) by {
                        assert(cs@[c]@ == tree.states@[ix as int].1@[c]@);
                    }
                }
                cs
            },
            None => {
                proof {
                    assert(choices_views(Seq::<Choice>::empty()) =~= Seq::<ChoiceView>::empty());
                }
                Vec::new()
            },
        };
        let mut last_state = match self.turns.pop() {
            Some(s) => s,
            None => {
                // a well-formed session always holds a turn
                proof {
                    assert(false);
                }
                State {
                    game: Progression::PlayOn(LastAttack::default()),
                    traversal: Vec::new(),
                    board: tree.root.duplicate(),
                    choices: Vec::new(),
                }
            },
        };
        last_state.choices = choices;
        self.turns.push(last_state);
        self.tree = Some(tree);
        self.current_turn()
    }
}

/// The grid with the hex at `at` frozen in place and all else unchanged.
fn freeze_tile(grid: &Grid<u8>, at: Cube) -> (r: Grid<u8>)
    ensures
        r.shape == grid.shape,
        r.tiles@ == frozen_tiles(grid.tiles@, at),
        crate::game::model::tiles_dice_bounded(grid.tiles@)
            ==> crate::game::model::tiles_dice_bounded(r.tiles@),
{
    let n = grid.tiles.len();
    let mut tiles: Vec<(Cube, u8)> = Vec::new();
    let mut i: usize = 0;
    while i < n
        invariant
            0 <= i <= n,
            n == grid.tiles@.len(),
            tiles@.len() == i,
            forall|k: int|
                0 <= k < i ==> (#[trigger] tiles@[k]).0 == grid.tiles@[k].0 && tiles@[k].1 == (
                if grid.tiles@[k].0 == at {
                    pack_holding(
                        owner_of(grid.tiles@[k].1),
                        dice_of(grid.tiles@[k].1),
                        false,
                    )
                } else {
                    grid.tiles@[k].1
                }),
        decreases n - i,
    {
        let (c, hold) = grid.tiles[i];
        if c == at {
            tiles.push((c, Holding::new(hold.owner(), hold.dice(), false)));
        } else {
            tiles.push((c, hold));
        }
        i += 1;
    }
    proof {
        assert(tiles@ =~= frozen_tiles(grid.tiles@, at));
        assert forall|k: int|
            0 <= k < n && crate::game::model::tiles_dice_bounded(grid.tiles@) implies packed_dice(
            tiles@[k].1,
        ) <= 5 by {
            assert(packed_dice(grid.tiles@[k].1) <= 5);
            if grid.tiles@[k].0 == at {
                assert(packed_dice(
                    pack_holding(owner_of(grid.tiles@[k].1), dice_of(grid.tiles@[k].1), false),
                ) == dice_of(grid.tiles@[k].1) % 8);
            }
        }
    }
    Grid { shape: grid.shape, tiles }
}

/// Setup a game session: the number of players, a board, and the move
/// limit per turn.
#[derive(Debug, Clone)]
pub struct Setup {
    pub players: Players,
    pub board: Option<Board>,
    pub move_limit: u8,
}

impl Setup {
    /// A setup holds a well-formed roster, a positive move limit, and, if
    /// set, a board fit to expand from.
    pub open spec fn wf(&self) -> bool {
        &&& self.players.wf()
        &&& self.move_limit >= 1
        &&& self.board matches Some(b) ==> b.wf() && tiles_coords_unique(b@.tiles)
    }

    pub fn new() -> (r: Self)
        ensures
            r.wf(),
            r.board is None,
            r.move_limit == 6,
    {
        Setup { players: Players::new(2), board: None, move_limit: 6 }
    }

    /// Change the roster. A change of players invalidates any board.
    pub fn set_players(self, players: Players) -> (r: Self)
        requires
            self.wf(),
            players.wf(),
        ensures
            r.wf(),
    {
        let board = if self.players == players {
            self.board
        } else {
            None
        };
        Setup { players, board, move_limit: self.move_limit }
    }

    pub fn set_move_limit(self, move_limit: u8) -> (r: Self)
        requires
            self.wf(),
            move_limit >= 1,
        ensures
            r.wf(),
            r.move_limit == move_limit,
    {
        Setup { players: self.players, board: self.board, move_limit }
    }

    /// Set the board; this also sets the players, since the board lists
    /// all state.
    pub fn set_board(self, board: Board) -> (r: Self)
        requires
            self.wf(),
            board.wf(),
            tiles_coords_unique(board@.tiles),
        ensures
            r.wf(),
            r.board is Some,
    {
        let players = board.players.duplicate();
        Setup { players, board: Some(board), move_limit: self.move_limit }
    }

    /// Generate a new random board from the loaded players setting.
    pub fn gen_board(self, columns: u32, rows: u32) -> (r: Self)
        requires
            self.wf(),
            columns <= crate::hexagon::grid::DIM_LIMIT,
            rows <= crate::hexagon::grid::DIM_LIMIT,
        ensures
            r.wf(),
            r.board is Some,
    {
        let board = crate::game::generate_random_board(columns, rows, self.players.duplicate());
        Setup { players: self.players, board: Some(board), move_limit: self.move_limit }
    }

    /// Produce a game session. Reports an error when no board is set up;
    /// a set board yields a session standing at its collapsed first turn.
    pub fn session(&self) -> (r: Result<Session, String>)
        requires
            self.wf(),
        ensures
            self.board is None ==> r is Err,
            self.board is Some ==> r is Ok,
            r matches Ok(sess) ==> sess.wf() && sess.turns@.len() == 1 && sess.move_limit
                == self.move_limit && (self.board matches Some(b) ==> (sess.tree matches Some(t)
                && settle_post(
                sess.turns@[0],
                t,
                b@,
                LastAttack {
                    attacker_dice: 0,
                    attacker_rolled: 0,
                    defender_dice: 0,
                    defender_rolled: 0,
                },
            ))),
    {
        match &self.board {
            Some(board) => {
                let board = board.duplicate();
                let tree = start_tree_horizon_limited(board.duplicate(), 1, self.move_limit);
                proof {
                    lemma_states_ok_scorable(tree.states@, self.move_limit);
                    lemma_states_ok_boards_wf(tree.states@, self.move_limit);
                }
                Ok(Session::new(board, tree, self.move_limit))
            },
            None => Err(String::from_str("No board set.")),
        }
    }
}

/// The fold that move selection runs: walk the choices from `i` keeping
/// the index of the best score seen, where ties keep the earlier index.
pub open spec fn spec_best_choice(
    cs: Seq<crate::game::model::ChoiceView>,
    i: int,
    bi: int,
    bs: crate::game::model::Score,
) -> (int, crate::game::model::Score)
    decreases cs.len() - i,
{
    if i >= cs.len() {
        (bi, bs)
    } else {
        let s = cs[i].score.unwrap();
        if crate::game::model::score_cmp(s, bs) is Greater {
            spec_best_choice(cs, i + 1, i, s)
        } else {
            spec_best_choice(cs, i + 1, bi, bs)
        }
    }
}

/// Rely on the choice scoring to move: the first choice whose score beats
/// every earlier one, starting from the worst possible score.
pub fn handle_ai_turn(choices: &Vec<Choice>) -> (r: Option<usize>)
    requires
        forall|i: int| 0 <= i < choices@.len() ==> (#[trigger] choices@[i])@.score is Some,
    ensures
        r matches Some(ix) && ix == spec_best_choice(
            choices_views(choices@),
            0,
            0,
            crate::game::model::Score { destination_num: 0, destination_den: 1, distance: 0 },
        ).0,
{
    let ghost cs = choices_views(choices@);
    let mut index: usize = 0;
    let mut best = crate::game::model::Score::new(0, 1, 0);
    let n = choices.len();
    let mut count: usize = 0;
    while count < n
        invariant
            forall|i: int| 0 <= i < choices@.len() ==> (#[trigger] choices@[i])@.score is Some,
            cs == choices_views(choices@),
            n == choices@.len(),
            0 <= count <= n,
            0 <= index <= count < n || (count == n && index < n) || (count == 0 && index == 0),
            spec_best_choice(cs, count as int, index as int, best) == spec_best_choice(
                cs,
                0,
                0,
                crate::game::model::Score { destination_num: 0, destination_den: 1, distance: 0 },
            ),
        decreases n - count,
    {
        let score = match choices[count].score {
            Some(s) => s,
            None => {
                // every presented choice carries a score here
                proof {
                    assert(false);
                }
                crate::game::model::Score::new(0, 1, 0)
            },
        };
        proof {
            assert(cs[count as int] == choices@[count as int]@);
            assert(cs[count as int].score.unwrap() == score);
        }
        if score > best {
            index = count;
            best = score;
        }
        count += 1;
    }
    Some(index)
}

impl Default for Setup {
    fn default() -> (r: Self)
        ensures
            r.wf(),
    {
        Setup::new()
    }
}

} // verus!
