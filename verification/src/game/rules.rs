//! Game rules. Controls what are valid moves.
use vstd::prelude::*;

use crate::game::model::pack_holding;
use crate::game::model::packed_dice;
use crate::game::model::packed_owner_num;
use crate::game::model::Action;
use crate::game::model::Board;
use crate::game::model::BoardView;
use crate::game::model::Choice;
use crate::game::model::ChoiceView;
use crate::game::model::Consequence;
use crate::game::model::ConsequenceKind;
use crate::game::model::Holding;
use crate::game::model::choices_views;
use crate::game::model::tiles_coords_wf;
use crate::game::model::tiles_dice_bounded;
use crate::game::player::Player;
use crate::hexagon::coordinate::neighbour_seq;
use crate::hexagon::coordinate::half_neighbour_seq;
use crate::hexagon::coordinate::Cube;
use crate::hexagon::grid::has_tile_at;
use crate::hexagon::grid::lemma_tile_index_for;
use crate::hexagon::grid::tile_index_for;
use crate::hexagon::grid::Grid;

verus! {

/// Maximum amount of dice a hexagon holding may have.
pub const MAX_DICE: u8 = 5;

/// The owner a tile's packed holding records.
pub open spec fn owner_of(h: u8) -> Player {
    h.spec_owner()
}

/// The dice count a tile's packed holding records.
pub open spec fn dice_of(h: u8) -> u8 {
    h.spec_dice()
}

/// The mobile flag a tile's packed holding records.
pub open spec fn mobile_of(h: u8) -> bool {
    h.spec_mobile()
}

/// What makes an action a legal attack on the given tiles for the given
/// player: the source tile is the player's, mobile, and carries the stated
/// attacker dice, more than one; the target is an adjacent enemy tile
/// carrying the stated defender dice, at most the attacker's.
pub open spec fn attack_is_legal(tiles: Seq<(Cube, u8)>, player: Player, a: Action) -> bool {
    &&& a matches Action::Attack(from, to, ad, dd)
    &&& exists|t: int|
        0 <= t < tiles.len() && (#[trigger] tiles[t]).0 == a->0 && owner_of(tiles[t].1) == player
            && mobile_of(tiles[t].1) && dice_of(tiles[t].1) == a->2
    &&& has_tile_at(tiles, a->0)
    &&& a->2 > 1
    &&& has_tile_at(tiles, a->1)
    &&& owner_of(tiles[tile_index_for(tiles, a->1)].1) != player
    &&& dice_of(tiles[tile_index_for(tiles, a->1)].1) == a->3
    &&& a->3 <= a->2
    &&& neighbour_seq(a->0).contains(a->1)
}

/// The attack, if any, from the tile at `c` holding `h` onto its `j`-th
/// neighbour.
pub open spec fn neighbour_attack(
    tiles: Seq<(Cube, u8)>,
    player: Player,
    c: Cube,
    h: u8,
    j: int,
) -> Seq<Action> {
    let n = neighbour_seq(c)[j];
    if has_tile_at(tiles, n) && owner_of(tiles[tile_index_for(tiles, n)].1) != player && dice_of(h)
        > 1 && dice_of(tiles[tile_index_for(tiles, n)].1) <= dice_of(h) {
        seq![Action::Attack(c, n, dice_of(h), dice_of(tiles[tile_index_for(tiles, n)].1))]
    } else {
        Seq::empty()
    }
}

/// All attacks from tile `i`, its six neighbours probed clockwise.
pub open spec fn tile_attacks(tiles: Seq<(Cube, u8)>, player: Player, i: int) -> Seq<Action> {
    if owner_of(tiles[i].1) == player && mobile_of(tiles[i].1) {
        Seq::new(6, |j: int| neighbour_attack(tiles, player, tiles[i].0, tiles[i].1, j)).flatten()
    } else {
        Seq::empty()
    }
}

/// Every legal attack the player has, tiles in grid order and, per tile,
/// neighbours in the fixed clockwise order.
pub open spec fn spec_all_attacks(tiles: Seq<(Cube, u8)>, player: Player) -> Seq<Action> {
    Seq::new(tiles.len(), |i: int| tile_attacks(tiles, player, i)).flatten()
}

/// Whether every tile is owned by the current player.
pub open spec fn spec_winner(b: BoardView) -> bool {
    forall|i: int|
        0 <= i < b.tiles.len() ==> owner_of((#[trigger] b.tiles[i]).1) == b.players.current_player()
}

/// Whether no tile is owned by the current player.
pub open spec fn spec_loser(b: BoardView) -> bool {
    forall|i: int|
        0 <= i < b.tiles.len() ==> owner_of((#[trigger] b.tiles[i]).1) != b.players.current_player()
}

/// Whether tile `i` and its `j`-th half-neighbour could ever fight: they
/// have different owners and either side holds more than one die.
pub open spec fn half_pair_attackable(tiles: Seq<(Cube, u8)>, i: int, j: int) -> bool {
    let n = half_neighbour_seq(tiles[i].0)[j];
    &&& has_tile_at(tiles, n)
    &&& owner_of(tiles[tile_index_for(tiles, n)].1) != owner_of(tiles[i].1)
    &&& (dice_of(tiles[tile_index_for(tiles, n)].1) > 1 || dice_of(tiles[i].1) > 1)
}

/// Whether the board is locked: more than one tile, and no pair of
/// adjacent tiles could ever fight. Scanning three of the six directions
/// covers every edge once.
pub open spec fn spec_stalemate(b: BoardView) -> bool {
    &&& b.tiles.len() >= 2
    &&& !exists|i: int, j: int|
        0 <= i < b.tiles.len() && 0 <= j < 3 && half_pair_attackable(b.tiles, i, j)
}

/// The tiles after an attack from `from` onto `to`: the source keeps one
/// die, the target passes to the source's owner with the remaining dice,
/// and every other tile is unchanged.
pub open spec fn spec_attacked_tiles(tiles: Seq<(Cube, u8)>, from: Cube, to: Cube) -> Seq<
    (Cube, u8),
> {
    let h = tiles[tile_index_for(tiles, from)].1;
    Seq::new(
        tiles.len(),
        |i: int|
            if tiles[i].0 == from {
                (tiles[i].0, pack_holding(owner_of(h), 1, mobile_of(h)))
            } else if tiles[i].0 == to {
                (tiles[i].0, pack_holding(owner_of(h), (dice_of(h) - 1) as u8, mobile_of(tiles[i].1)))
            } else {
                tiles[i]
            },
    )
}

/// How much of the reinforcement budget is left after tile `i` took its
/// share; the budget flows through the player's tiles in grid order.
pub open spec fn budget_at(
    tiles: Seq<(Cube, u8)>,
    player: Player,
    budget: int,
    i: int,
) -> int
    decreases i,
{
    if i <= 0 {
        budget
    } else {
        let h = tiles[i - 1].1;
        let b = budget_at(tiles, player, budget, i - 1);
        if owner_of(h) == player {
            let diff = MAX_DICE - dice_of(h);
            if b > diff {
                b - diff
            } else {
                0
            }
        } else {
            b
        }
    }
}

/// Tile `i` after reinforcement: a player's tile fills toward the dice cap
/// from what the budget still offers and becomes mobile again; other tiles
/// are unchanged.
pub open spec fn reinforced_tile(
    tiles: Seq<(Cube, u8)>,
    player: Player,
    budget: int,
    i: int,
) -> (Cube, u8) {
    let (c, h) = tiles[i];
    if owner_of(h) == player {
        let b = budget_at(tiles, player, budget, i);
        let diff = MAX_DICE - dice_of(h);
        let add: int = if b > diff {
            diff as int
        } else {
            b
        };
        (c, pack_holding(player, (dice_of(h) + add) as u8, true))
    } else {
        (c, h)
    }
}

/// One less than the captured dice, saturating at zero: the budget the
/// turn-over path feeds into reinforcement.
pub open spec fn reinforce_budget(reinforcements: int) -> int {
    if reinforcements >= 1 {
        reinforcements - 1
    } else {
        0
    }
}

/// The tiles after the player's reinforcement sweep.
pub open spec fn spec_reinforced(
    tiles: Seq<(Cube, u8)>,
    player: Player,
    reinforcements: int,
) -> Seq<(Cube, u8)> {
    Seq::new(
        tiles.len(),
        |i: int| reinforced_tile(tiles, player, reinforce_budget(reinforcements), i),
    )
}

/// Produces all legal attacking moves with the amount of dice they would
/// capture.
pub fn all_legal_attacks_from(grid: &Grid<u8>, player: &Player) -> (r: Vec<Action>)
    requires
        grid.wf(),
    ensures
        r@ == spec_all_attacks(grid.tiles@, *player),
        forall|k: int| 0 <= k < r@.len() ==> attack_is_legal(grid.tiles@, *player, #[trigger] r@[k]),
{
    let ghost tiles = grid.tiles@;
    let n = grid.tiles.len();
    let mut moves: Vec<Action> = Vec::new();
    let mut i: usize = 0;
    while i < n
        invariant
            grid.wf(),
            tiles == grid.tiles@,
            0 <= i <= n,
            n == tiles.len(),
            moves@ == Seq::new(i as nat, |t: int| tile_attacks(tiles, *player, t)).flatten(),
            forall|k: int|
                0 <= k < moves@.len() ==> attack_is_legal(tiles, *player, #[trigger] moves@[k]),
        decreases n - i,
    {
        let ghost moves_before = moves@;
        let (coordinate, hold) = grid.tiles[i];
        if hold.owner() == *player && hold.mobile() {
            let neighbours = coordinate.neighbours();
            let mut j: usize = 0;
            while j < 6
                invariant
                    grid.wf(),
                    tiles == grid.tiles@,
                    0 <= i < n,
                    n == tiles.len(),
                    0 <= j <= 6,
                    (coordinate, hold) == tiles[i as int],
                    owner_of(hold) == *player,
                    mobile_of(hold),
                    neighbours@ == neighbour_seq(coordinate),
                    moves@ == moves_before + Seq::new(
                        j as nat,
                        |q: int| neighbour_attack(tiles, *player, coordinate, hold, q),
                    ).flatten(),
                    forall|k: int|
                        0 <= k < moves@.len() ==> attack_is_legal(
                            tiles,
                            *player,
                            #[trigger] moves@[k],
                        ),
                decreases 6 - j,
            {
                let ghost part = Seq::new(
                    j as nat,
                    |q: int| neighbour_attack(tiles, *player, coordinate, hold, q),
                );
                let neighbour = neighbours[j];
                proof {
                    lemma_tile_index_for(tiles, neighbour);
                }
                match grid.fetch(&neighbour) {
                    Ok(d) => {
                        let d = *d;
                        if !(d.owner() == *player) && hold.dice() > 1 && d.dice() <= hold.dice() {
                            let action = Action::Attack(
                                coordinate,
                                neighbour,
                                hold.dice(),
                                d.dice(),
                            );
                            moves.push(action);
                            proof {
                                assert(neighbour_seq(coordinate).contains(neighbour));
                                assert(neighbour_attack(tiles, *player, coordinate, hold, j as int)
                                    =~= seq![action]);
                            }
                        } else {
                            proof {
                                assert(neighbour_attack(tiles, *player, coordinate, hold, j as int)
                                    =~= Seq::<Action>::empty());
                            }
                        }
                    },
                    Err(_) => {
                        proof {
                            assert(neighbour_attack(tiles, *player, coordinate, hold, j as int)
                                =~= Seq::<Action>::empty());
                        }
                    },
                }
                proof {
                    let f = |q: int| neighbour_attack(tiles, *player, coordinate, hold, q);
                    assert(Seq::new((j + 1) as nat, f) =~= part.push(f(j as int)));
                    part.lemma_flatten_push(f(j as int));
                    assert(moves@ =~= moves_before + Seq::new((j + 1) as nat, f).flatten());
                }
                j += 1;
            }
            proof {
                assert(tile_attacks(tiles, *player, i as int) == Seq::new(
                    6,
                    |q: int| neighbour_attack(tiles, *player, coordinate, hold, q),
                ).flatten());
            }
        } else {
            proof {
                assert(tile_attacks(tiles, *player, i as int) =~= Seq::<Action>::empty());
                assert(moves@ =~= moves_before + tile_attacks(tiles, *player, i as int));
            }
        }
        proof {
            let g = |t: int| tile_attacks(tiles, *player, t);
            assert(Seq::new((i + 1) as nat, g) =~= Seq::new(i as nat, g).push(g(i as int)));
            Seq::new(i as nat, g).lemma_flatten_push(g(i as int));
            assert(moves@ =~= Seq::new((i + 1) as nat, g).flatten());
        }
        i += 1;
    }
    proof {
        assert(Seq::new(n as nat, |t: int| tile_attacks(tiles, *player, t)) =~= Seq::new(
            tiles.len(),
            |t: int| tile_attacks(tiles, *player, t),
        ));
    }
    moves
}

/// Whether every tile is owned by the current player; if so, that player
/// has won. Only sensible when no attacking move exists.
pub fn winner(board: &Board) -> (r: bool)
    requires
        board.wf(),
    ensures
        r == spec_winner(board@),
{
    let player = board.players.current();
    let n = board.grid.tiles.len();
    let mut i: usize = 0;
    while i < n
        invariant
            board.wf(),
            player == board@.players.current_player(),
            0 <= i <= n,
            n == board@.tiles.len(),
            forall|j: int| 0 <= j < i ==> owner_of((#[trigger] board@.tiles[j]).1) == player,
        decreases n - i,
    {
        let hold = board.grid.tiles[i].1;
        if !(hold.owner() == player) {
            return false;
        }
        i += 1;
    }
    true
}

/// Whether no tile is owned by the current player; if so, that player has
/// been knocked out.
pub fn loser(board: &Board) -> (r: bool)
    requires
        board.wf(),
    ensures
        r == spec_loser(board@),
{
    let player = board.players.current();
    let n = board.grid.tiles.len();
    let mut i: usize = 0;
    while i < n
        invariant
            board.wf(),
            player == board@.players.current_player(),
            0 <= i <= n,
            n == board@.tiles.len(),
            forall|j: int| 0 <= j < i ==> owner_of((#[trigger] board@.tiles[j]).1) != player,
        decreases n - i,
    {
        let hold = board.grid.tiles[i].1;
        if hold.owner() == player {
            return false;
        }
        i += 1;
    }
    true
}

/// Whether the board is locked in a stalemate: more than one player holds
/// tiles yet no attack will ever be possible. Boards of fewer than two
/// tiles are never in stalemate.
pub fn stalemate(board: &Board) -> (r: bool)
    requires
        board.wf(),
    ensures
        r == spec_stalemate(board@),
{
    let ghost tiles = board@.tiles;
    let n = board.grid.tiles.len();
    if n < 2 {
        return false;
    }
    let mut i: usize = 0;
    while i < n
        invariant
            board.wf(),
            tiles == board@.tiles,
            0 <= i <= n,
            n == tiles.len(),
            n >= 2,
            forall|t: int, q: int|
                0 <= t < i && 0 <= q < 3 ==> !half_pair_attackable(tiles, t, q),
        decreases n - i,
    {
        let (coordinate, hold) = board.grid.tiles[i];
        let neighbours = coordinate.three_neighbours();
        let mut j: usize = 0;
        while j < 3
            invariant
                board.wf(),
                tiles == board@.tiles,
                0 <= i < n,
                n == tiles.len(),
                0 <= j <= 3,
                (coordinate, hold) == tiles[i as int],
                neighbours@ == half_neighbour_seq(coordinate),
                forall|q: int| 0 <= q < j ==> !half_pair_attackable(tiles, i as int, q),
            decreases 3 - j,
        {
            let neighbour = neighbours[j];
            proof {
                lemma_tile_index_for(tiles, neighbour);
            }
            match board.grid.fetch(&neighbour) {
                Ok(other) => {
                    let other = *other;
                    if !(other.owner() == hold.owner()) && (other.dice() > 1 || hold.dice() > 1) {
                        proof {
                            assert(half_pair_attackable(tiles, i as int, j as int));
                        }
                        return false;
                    }
                },
                Err(_) => {},
            }
            j += 1;
        }
        i += 1;
    }
    true
}

/// An attacking move: all dice but one leave the `from` hexagon; the
/// remainder, less one, occupy the `to` tile for the attacker. The caller
/// vouches for the coordinates.
pub fn attacking_move(grid: &Grid<u8>, from: Cube, to: Cube) -> (r: Grid<u8>)
    requires
        has_tile_at(grid.tiles@, from),
        dice_of(grid.tiles@[tile_index_for(grid.tiles@, from)].1) >= 1,
    ensures
        r.shape == grid.shape,
        r.tiles@ == spec_attacked_tiles(grid.tiles@, from, to),
{
    let ghost tiles = grid.tiles@;
    proof {
        lemma_tile_index_for(tiles, from);
    }
    let h = match grid.fetch(&from) {
        Ok(h) => *h,
        Err(_) => {
            // the precondition has the tile present, so the miss cannot happen
            proof {
                assert(false);
            }
            0
        },
    };
    let from_hold: u8 = Holding::new(h.owner(), 1, h.mobile());
    let n = grid.tiles.len();
    let mut out: Vec<(Cube, u8)> = Vec::new();
    let mut i: usize = 0;
    while i < n
        invariant
            tiles == grid.tiles@,
            0 <= i <= n,
            n == tiles.len(),
            h == tiles[tile_index_for(tiles, from)].1,
            dice_of(h) >= 1,
            from_hold == pack_holding(owner_of(h), 1, mobile_of(h)),
            out@.len() == i,
            forall|j: int|
                0 <= j < i ==> (#[trigger] out@[j]) == spec_attacked_tiles(tiles, from, to)[j],
        decreases n - i,
    {
        let (c, d) = grid.tiles[i];
        let slot: (Cube, u8) = if c == from {
            (c, from_hold)
        } else if c == to {
            (c, Holding::new(h.owner(), h.dice() - 1, d.mobile()))
        } else {
            (c, d)
        };
        out.push(slot);
        i += 1;
    }
    proof {
        assert(out@ =~= spec_attacked_tiles(tiles, from, to));
    }
    Grid { shape: grid.shape, tiles: out }
}

/// Generates a new grid that bears the consequences of the supplied
/// movement. Doesn't check whether the move is legal.
pub fn grid_from_move(grid: &Grid<u8>, movement: Action) -> (r: Grid<u8>)
    requires
        movement matches Action::Attack(from, to, _, _) ==> has_tile_at(grid.tiles@, from)
            && dice_of(grid.tiles@[tile_index_for(grid.tiles@, from)].1) >= 1,
    ensures
        r.shape == grid.shape,
        movement is Pass ==> r.tiles@ == grid.tiles@,
        movement matches Action::Attack(from, to, _, _) ==> r.tiles@ == spec_attacked_tiles(
            grid.tiles@,
            from,
            to,
        ),
{
    match movement {
        Action::Pass => grid.duplicate(),
        Action::Attack(from, to, _, _) => attacking_move(grid, from, to),
    }
}

/// Add reinforcements, less one held back, to the current player's tiles
/// in grid order, each tile capped at `MAX_DICE` dice; overflow is silently
/// dropped and every reinforced tile becomes mobile again.
pub fn reinforce02(grid: &Grid<u8>, player: Player, reinforcements: u16) -> (r: Grid<u8>)
    requires
        tiles_dice_bounded(grid.tiles@),
    ensures
        r.shape == grid.shape,
        r.tiles@ == spec_reinforced(grid.tiles@, player, reinforcements as int),
{
    let ghost tiles = grid.tiles@;
    let ghost budget0 = reinforce_budget(reinforcements as int);
    let mut budget: u16 = if reinforcements >= 1 {
        reinforcements - 1
    } else {
        0
    };
    let n = grid.tiles.len();
    let mut out: Vec<(Cube, u8)> = Vec::new();
    let mut i: usize = 0;
    while i < n
        invariant
            tiles == grid.tiles@,
            tiles_dice_bounded(tiles),
            0 <= i <= n,
            n == tiles.len(),
            budget0 == reinforce_budget(reinforcements as int),
            budget == budget_at(tiles, player, budget0, i as int),
            out@.len() == i,
            forall|j: int|
                0 <= j < i ==> (#[trigger] out@[j]) == reinforced_tile(tiles, player, budget0, j),
        decreases n - i,
    {
        let (c, hold) = grid.tiles[i];
        if hold.owner() == player {
            let dice = hold.dice();
            proof {
                assert(dice_of(tiles[i as int].1) <= 5);
            }
            let diff: u16 = (MAX_DICE - dice) as u16;
            let add: u16 = if budget > diff {
                budget -= diff;
                diff
            } else {
                let d = budget;
                budget = 0;
                d
            };
            out.push((c, Holding::new(player, dice + add as u8, true)));
        } else {
            out.push((c, hold));
        }
        i += 1;
    }
    proof {
        assert(out@ =~= spec_reinforced(tiles, player, reinforcements as int));
    }
    Grid { shape: grid.shape, tiles: out }
}

/// No two tiles share a coordinate. Rectangular layouts have this; every
/// rules transformation keeps it, as none touches a coordinate.
pub open spec fn tiles_coords_unique(tiles: Seq<(Cube, u8)>) -> bool {
    forall|i: int, j: int|
        0 <= i < j < tiles.len() ==> (#[trigger] tiles[i]).0 != (#[trigger] tiles[j]).0
}

/// With unique coordinates, an index holding coordinate `c` is the
/// authoritative one.
pub proof fn lemma_unique_tile_index(tiles: Seq<(Cube, u8)>, t: int)
    requires
        tiles_coords_unique(tiles),
        0 <= t < tiles.len(),
    ensures
        tile_index_for(tiles, tiles[t].0) == t,
{
    lemma_tile_index_for(tiles, tiles[t].0);
    let w = tile_index_for(tiles, tiles[t].0);
    assert(has_tile_at(tiles, tiles[t].0));
    if w < t {
        assert(tiles[w].0 == tiles[t].0);
    }
}

/// The board handed to a turn-over consequence: the next player becomes
/// current, the leaving player's tiles take their reinforcements, and the
/// per-turn counters reset.
pub open spec fn turn_over_board(b: BoardView) -> BoardView {
    BoardView {
        players: b.players.advanced(),
        shape: b.shape,
        tiles: spec_reinforced(b.tiles, b.players.current_player(), b.captured_dice as int),
        captured_dice: 0,
        moved: 0,
    }
}

/// The board handed to a game-over consequence: the current player leaves
/// the roster; the grid stands and the counters reset.
pub open spec fn game_over_board(b: BoardView) -> BoardView {
    BoardView {
        players: b.players.removed_current(),
        shape: b.shape,
        tiles: b.tiles,
        captured_dice: 0,
        moved: 0,
    }
}

/// The board a successful attack leads to: the same roster, the attacked
/// grid, the defender's dice added to the captures, and one more move
/// taken.
pub open spec fn attack_board(b: BoardView, a: Action) -> BoardView {
    BoardView {
        players: b.players,
        shape: b.shape,
        tiles: spec_attacked_tiles(b.tiles, a->0, a->1),
        captured_dice: (b.captured_dice + a->3) as u16,
        moved: (b.moved + 1) as u16,
    }
}

/// A choice as the rules produce it: unscored.
pub open spec fn choice_view(action: Action, kind: ConsequenceKind, board: BoardView) -> ChoiceView {
    ChoiceView { action, kind, board, score: None }
}

/// Everything the rules answer for a board under a move limit, in order.
/// With no attack available the single passing choice classifies the board:
/// a win when the current player holds everything, a knock-out when they
/// hold nothing, a stalemate when nobody can ever attack, and a turn-over
/// otherwise. With attacks available but the limit reached, the turn
/// passes; otherwise each attack continues the turn, assuming it succeeds.
pub open spec fn spec_choices(b: BoardView, move_limit: u8) -> Seq<ChoiceView> {
    let attacks = spec_all_attacks(b.tiles, b.players.current_player());
    if attacks.len() == 0 {
        if spec_winner(b) {
            seq![choice_view(Action::Pass, ConsequenceKind::Winner, b)]
        } else if spec_loser(b) {
            seq![choice_view(Action::Pass, ConsequenceKind::GameOver, game_over_board(b))]
        } else if spec_stalemate(b) {
            seq![choice_view(Action::Pass, ConsequenceKind::Stalemate, b)]
        } else {
            seq![choice_view(Action::Pass, ConsequenceKind::TurnOver, turn_over_board(b))]
        }
    } else if b.moved + 1 > move_limit {
        seq![choice_view(Action::Pass, ConsequenceKind::TurnOver, turn_over_board(b))]
    } else {
        attacks.map_values(
            |a: Action| choice_view(a, ConsequenceKind::Continue, attack_board(b, a)),
        )
    }
}

/// Calculates all valid moves, except that the passing move only appears
/// when no attacking move is left; this greatly reduces the tree's
/// branches.
///
/// Every attack choice carries a legal attack read off the source board,
/// and every consequence board is well formed with the same coordinates.
#[verifier::rlimit(80)]
pub fn choices_from_board_only_pass_at_end(board: &Board, move_limit: u8) -> (r: Vec<Choice>)
    requires
        board.wf(),
        tiles_coords_unique(board@.tiles),
    ensures
        choices_views(r@) == spec_choices(board@, move_limit),
        forall|i: int|
            0 <= i < r@.len() ==> attack_is_legal(
                board@.tiles,
                board@.players.current_player(),
                (#[trigger] r@[i])@.action,
            ) || r@[i]@.action is Pass,
        forall|i: int| 0 <= i < r@.len() ==> (#[trigger] r@[i])@.board.wf(),
        forall|i: int|
            0 <= i < r@.len() ==> tiles_coords_unique((#[trigger] r@[i])@.board.tiles)
                && (#[trigger] r@[i])@.board.tiles.len() == board@.tiles.len(),
        forall|i: int| 0 <= i < r@.len() ==> (#[trigger] r@[i])@.score is None,
    {
    let ghost b = board@;
    let ghost player = board@.players.current_player();
    let attacking_moves = all_legal_attacks_from(&board.grid, &board.players.current());
    let mut choices: Vec<Choice> = Vec::new();
    let moved_next: u32 = board.moved as u32 + 1;

    if attacking_moves.len() == 0 {
        if winner(board) {
            let c = Choice::new(Action::Pass, Consequence::Winner(board.duplicate()));
            choices.push(c);
            proof {
                assert(choices_views(choices@) =~= spec_choices(b, move_limit));
            }
            return choices;
        }
        if loser(board) {
            let new_grid = grid_from_move(&board.grid, Action::Pass);
            let new_board = Board::new(board.players.remove_current(), new_grid, 0, 0);
            let c = Choice::new(Action::Pass, Consequence::GameOver(new_board));
            choices.push(c);
            proof {
                assert(choices@[0]@.board == game_over_board(b));
                assert(choices_views(choices@) =~= spec_choices(b, move_limit));
            }
            return choices;
        }
        if stalemate(board) {
            let c = Choice::new(Action::Pass, Consequence::Stalemate(board.duplicate()));
            choices.push(c);
            proof {
                assert(choices_views(choices@) =~= spec_choices(b, move_limit));
            }
            return choices;
        }
        let new_grid = reinforce02(&board.grid, board.players.current(), board.captured_dice);
        let new_board = Board::new(board.players.next(), new_grid, 0, 0);
        proof {
            lemma_reinforced_wf(b.tiles, player, b.captured_dice as int);
        }
        let c = Choice::new(Action::Pass, Consequence::TurnOver(new_board));
        choices.push(c);
        proof {
            assert(choices@[0]@.board == turn_over_board(b));
            assert(choices_views(choices@) =~= spec_choices(b, move_limit));
        }
        return choices;
    }
    if moved_next > move_limit as u32 {
        let new_grid = reinforce02(&board.grid, board.players.current(), board.captured_dice);
        let new_board = Board::new(board.players.next(), new_grid, 0, 0);
        proof {
            lemma_reinforced_wf(b.tiles, player, b.captured_dice as int);
        }
        let c = Choice::new(Action::Pass, Consequence::TurnOver(new_board));
        choices.push(c);
        proof {
            assert(choices@[0]@.board == turn_over_board(b));
            assert(choices_views(choices@) =~= spec_choices(b, move_limit));
        }
        return choices;
    }

    let ghost attacks = spec_all_attacks(b.tiles, player);
    let ghost to_choice = |a: Action| choice_view(
        a,
        ConsequenceKind::Continue,
        attack_board(b, a),
    );
    let n = attacking_moves.len();
    let mut k: usize = 0;
    while k < n
        invariant
            board.wf(),
            tiles_coords_unique(b.tiles),
            b == board@,
            player == b.players.current_player(),
            attacks == spec_all_attacks(b.tiles, player),
            attacking_moves@ == attacks,
            forall|q: int|
                0 <= q < attacks.len() ==> attack_is_legal(b.tiles, player, #[trigger] attacks[q]),
            0 <= k <= n,
            n == attacks.len(),
            1 <= board.moved + 1 <= move_limit,
            moved_next == board.moved + 1,
            to_choice == (|a: Action| choice_view(
                a,
                ConsequenceKind::Continue,
                attack_board(b, a),
            )),
            choices_views(choices@) == attacks.take(k as int).map_values(to_choice),
            forall|i: int| 0 <= i < choices@.len() ==> (#[trigger] choices@[i])@.board.wf(),
            forall|i: int|
                0 <= i < choices@.len() ==> tiles_coords_unique(
                    (#[trigger] choices@[i])@.board.tiles,
                ) && (#[trigger] choices@[i])@.board.tiles.len() == b.tiles.len(),
            forall|i: int| 0 <= i < choices@.len() ==> (#[trigger] choices@[i])@.score is None,
            forall|i: int|
                0 <= i < choices@.len() ==> attack_is_legal(
                    b.tiles,
                    player,
                    (#[trigger] choices@[i])@.action,
                ),
        decreases n - k,
    {
        let attack = attacking_moves[k];
        proof {
            assert(attack_is_legal(b.tiles, player, attack));
            let t = choose|t: int|
                0 <= t < b.tiles.len() && (#[trigger] b.tiles[t]).0 == attack->0 && owner_of(
                    b.tiles[t].1,
                ) == player && mobile_of(b.tiles[t].1) && dice_of(b.tiles[t].1) == attack->2;
            lemma_unique_tile_index(b.tiles, t);
        }
        let new_grid = grid_from_move(&board.grid, attack);
        let total_captured: u16 = board.captured_dice + attack.capturing() as u16;
        let new_board = Board {
            players: board.players.duplicate(),
            grid: new_grid,
            captured_dice: total_captured,
            moved: moved_next as u16,
        };
        proof {
            assert(new_board@ == attack_board(b, attack));
        }
        let c = Choice::new(attack, Consequence::Continue(new_board));
        choices.push(c);
        proof {
            let prev = attacks.take(k as int).map_values(to_choice);
            assert(c@ == to_choice(attack));
            assert(choices_views(choices@) =~= prev.push(c@));
            assert(attacks.take((k + 1) as int) =~= attacks.take(k as int).push(attack));
            assert(attacks.take((k + 1) as int).map_values(to_choice) =~= prev.push(
                to_choice(attack),
            ));
            assert(choices_views(choices@) == attacks.take((k + 1) as int).map_values(to_choice));
        }
        k += 1;
    }
    proof {
        assert(attacks.take(n as int) =~= attacks);
        assert(choices_views(choices@) =~= spec_choices(b, move_limit));
    }
    choices
}

/// Reinforcement keeps every dice count at or under the cap.
pub proof fn lemma_reinforced_wf(tiles: Seq<(Cube, u8)>, player: Player, reinforcements: int)
    requires
        tiles_dice_bounded(tiles),
    ensures
        tiles_dice_bounded(spec_reinforced(tiles, player, reinforcements)),
        forall|i: int|
            0 <= i < tiles.len() ==> (#[trigger] spec_reinforced(
                tiles,
                player,
                reinforcements,
            )[i]).0 == tiles[i].0,
    decreases tiles.len(),
{
    let out = spec_reinforced(tiles, player, reinforcements);
    assert forall|i: int| 0 <= i < tiles.len() implies packed_dice((#[trigger] out[i]).1) <= 5 by {
        lemma_budget_at_nonneg(tiles, player, reinforce_budget(reinforcements), i);
        let h = tiles[i].1;
        if owner_of(h) == player {
            let bb = budget_at(tiles, player, reinforce_budget(reinforcements), i);
            let diff = MAX_DICE - dice_of(h);
            let add: int = if bb > diff {
                diff as int
            } else {
                bb
            };
            assert(dice_of(h) + add <= 5);
            assert(packed_dice(pack_holding(player, (dice_of(h) + add) as u8, true)) == (dice_of(h)
                + add) as u8 % 8);
        }
    }
}

/// Elements of a flattened sequence all come from its member sequences.
proof fn lemma_flatten_preserves<A>(s: Seq<Seq<A>>, pred: spec_fn(A) -> bool)
    requires
        forall|i: int, k: int|
            0 <= i < s.len() && 0 <= k < s[i].len() ==> pred(#[trigger] s[i][k]),
    ensures
        forall|k: int| 0 <= k < s.flatten().len() ==> pred(#[trigger] s.flatten()[k]),
    decreases s.len(),
{
    if s.len() > 0 {
        let rest = s.drop_first();
        assert forall|i: int, k: int|
            0 <= i < rest.len() && 0 <= k < rest[i].len() implies pred(#[trigger] rest[i][k]) by {
            assert(rest[i] == s[i + 1]);
        }
        lemma_flatten_preserves(rest, pred);
        assert forall|k: int| 0 <= k < s.flatten().len() implies pred(#[trigger] s.flatten()[k]) by {
            if k < s.first().len() {
                assert(s.flatten()[k] == s.first()[k]);
                assert(s.first() == s[0]);
            } else {
                assert(s.flatten()[k] == rest.flatten()[k - s.first().len()]);
            }
        }
    }
}

/// Every action the rules enumerate is a legal attack: its source tile is
/// the player's, mobile, with the stated dice, more than one; its target
/// is an adjacent enemy tile with the stated dice, at most the attacker's.
pub proof fn lemma_all_attacks_legal(tiles: Seq<(Cube, u8)>, player: Player)
    ensures
        forall|k: int|
            0 <= k < spec_all_attacks(tiles, player).len() ==> attack_is_legal(
                tiles,
                player,
                #[trigger] spec_all_attacks(tiles, player)[k],
            ),
{
    let pred = |a: Action| attack_is_legal(tiles, player, a);
    let outer = Seq::new(tiles.len(), |i: int| tile_attacks(tiles, player, i));
    assert forall|i: int, k: int|
        0 <= i < outer.len() && 0 <= k < outer[i].len() implies pred(#[trigger] outer[i][k]) by {
        if owner_of(tiles[i].1) == player && mobile_of(tiles[i].1) {
            let c = tiles[i].0;
            let h = tiles[i].1;
            let inner = Seq::new(6, |j: int| neighbour_attack(tiles, player, c, h, j));
            assert forall|j: int, q: int|
                0 <= j < 6 && 0 <= q < inner[j].len() implies pred(#[trigger] inner[j][q]) by {
                let n = neighbour_seq(c)[j];
                if has_tile_at(tiles, n) && owner_of(tiles[tile_index_for(tiles, n)].1) != player
                    && dice_of(h) > 1 && dice_of(tiles[tile_index_for(tiles, n)].1) <= dice_of(h) {
                    assert(neighbour_seq(c).contains(n));
                    let a = inner[j][q];
                    assert(a == Action::Attack(
                        c,
                        n,
                        dice_of(h),
                        dice_of(tiles[tile_index_for(tiles, n)].1),
                    ));
                    assert(0 <= i < tiles.len() && tiles[i].0 == a->0 && owner_of(tiles[i].1)
                        == player && mobile_of(tiles[i].1) && dice_of(tiles[i].1) == a->2);
                }
            }
            lemma_flatten_preserves(inner, pred);
            assert(outer[i] == inner.flatten());
        } else {
            assert(outer[i].len() == 0);
        }
    }
    lemma_flatten_preserves(outer, pred);
}

/// For every attack choice the rules produce, the consequence board's
/// source tile keeps one die under its old owner, the target tile passes
/// to that owner holding the attacker's dice less one, and no other tile
/// changes; the board's coordinates stay as they were.
#[verifier::rlimit(100)]
pub proof fn lemma_attack_choice_board(b: BoardView, move_limit: u8, i: int)
    requires
        tiles_coords_unique(b.tiles),
        0 <= i < spec_choices(b, move_limit).len(),
        spec_choices(b, move_limit)[i].action is Attack,
    ensures
        ({
            let ch = spec_choices(b, move_limit)[i];
            let fi = tile_index_for(b.tiles, ch.action->0);
            let ti = tile_index_for(b.tiles, ch.action->1);
            &&& 0 <= fi < b.tiles.len()
            &&& 0 <= ti < b.tiles.len()
            &&& fi != ti
            &&& ch.board.tiles.len() == b.tiles.len()
            &&& forall|j: int|
                0 <= j < b.tiles.len() ==> (#[trigger] ch.board.tiles[j]).0 == b.tiles[j].0
            &&& dice_of(ch.board.tiles[fi].1) == 1
            &&& owner_of(ch.board.tiles[fi].1) == owner_of(b.tiles[fi].1)
            &&& owner_of(ch.board.tiles[ti].1) == owner_of(b.tiles[fi].1)
            &&& dice_of(ch.board.tiles[ti].1) == ch.action->2 - 1
            &&& forall|j: int|
                0 <= j < b.tiles.len() && j != fi && j != ti ==> (#[trigger] ch.board.tiles[j])
                    == b.tiles[j]
        }),
{
    let player = b.players.current_player();
    let attacks = spec_all_attacks(b.tiles, player);
    let ch = spec_choices(b, move_limit)[i];
    let a = ch.action;
    lemma_all_attacks_legal(b.tiles, player);
    assert(a == attacks[i]);
    assert(attack_is_legal(b.tiles, player, a));
    let from = a->0;
    let to = a->1;
    lemma_tile_index_for(b.tiles, from);
    lemma_tile_index_for(b.tiles, to);
    let fi = tile_index_for(b.tiles, from);
    let ti = tile_index_for(b.tiles, to);
    let t = choose|t: int|
        0 <= t < b.tiles.len() && (#[trigger] b.tiles[t]).0 == from && owner_of(b.tiles[t].1)
            == player && mobile_of(b.tiles[t].1) && dice_of(b.tiles[t].1) == a->2;
    lemma_unique_tile_index(b.tiles, t);
    assert(fi == t);
    let h = b.tiles[fi].1;
    assert(ch.board.tiles == spec_attacked_tiles(b.tiles, from, to));
    assert(owner_of(b.tiles[ti].1) != player);
    assert(b.tiles[ti].0 == to);
    assert(from != to);
    assert(fi != ti);
    assert forall|j: int| 0 <= j < b.tiles.len() && j != fi && j != ti implies (
    #[trigger] ch.board.tiles[j]) == b.tiles[j] by {
        if b.tiles[j].0 == from {
            lemma_unique_tile_index(b.tiles, j);
        }
        if b.tiles[j].0 == to {
            lemma_unique_tile_index(b.tiles, j);
        }
    }
    assert(packed_owner_num(h) % 8 == packed_owner_num(h));
    assert(ch.board.tiles[fi].1 == pack_holding(owner_of(h), 1, mobile_of(h)));
    assert(dice_of(ch.board.tiles[fi].1) == 1);
    assert(owner_of(ch.board.tiles[fi].1) == owner_of(h));
    assert(ch.board.tiles[ti].1 == pack_holding(owner_of(h), (dice_of(h) - 1) as u8, mobile_of(
        b.tiles[ti].1,
    )));
    assert(dice_of(ch.board.tiles[ti].1) == dice_of(h) - 1);
    assert(owner_of(ch.board.tiles[ti].1) == owner_of(h));
}

/// The dice on a board, summed over every tile.
pub open spec fn spec_dice_sum(tiles: Seq<(Cube, u8)>) -> int
    decreases tiles.len(),
{
    if tiles.len() == 0 {
        0
    } else {
        spec_dice_sum(tiles.drop_last()) + dice_of(tiles.last().1)
    }
}

/// On a well-formed board the dice, summed over every player's holdings,
/// stay within five per tile; the rules keep boards well formed, so this
/// bounds every board a tree can reach.
pub proof fn lemma_dice_sum_bounded(tiles: Seq<(Cube, u8)>)
    requires
        tiles_dice_bounded(tiles),
    ensures
        spec_dice_sum(tiles) <= 5 * tiles.len(),
    decreases tiles.len(),
{
    if tiles.len() > 0 {
        assert(tiles_dice_bounded(tiles.drop_last())) by {
            assert(forall|i: int|
                0 <= i < tiles.len() - 1 ==> (#[trigger] tiles.drop_last()[i]) == tiles[i]);
        }
        lemma_dice_sum_bounded(tiles.drop_last());
        assert(dice_of(tiles.last().1) <= 5);
    }
}

/// The reinforcement budget never goes negative.
pub proof fn lemma_budget_at_nonneg(
    tiles: Seq<(Cube, u8)>,
    player: Player,
    budget: int,
    i: int,
)
    requires
        budget >= 0,
    ensures
        budget_at(tiles, player, budget, i) >= 0,
    decreases i,
{
    if i > 0 {
        lemma_budget_at_nonneg(tiles, player, budget, i - 1);
    }
}

} // verus!
