//! Game code.

pub mod generate;
pub mod model;
pub mod player;
pub mod rules;
pub mod score;

pub use generate::build_tree;
pub use generate::grow_tree_horizon_limited;
pub use generate::start_tree_horizon_limited;
pub use generate::start_tree_insert_budgeted;
pub use model::Action;
pub use model::Board;
pub use model::Choice;
pub use model::Consequence;
pub use model::Hold;
pub use model::Holding;
pub use model::Score;
pub use model::Tree;
pub use player::Player;
pub use player::Players;
pub use score::clear_all_scoring;
pub use score::clear_scoring_from;
pub use score::score_tree;
pub use score::score_tree_from;

use vstd::prelude::*;

use rand::Rng;

use crate::game::model::pack_holding;
use crate::game::model::packed_dice;
use crate::game::model::tiles_dice_bounded;
use crate::game::player::PlayersView;
use crate::game::rules::tiles_coords_unique;
use crate::hexagon::coordinate::Axial;
use crate::hexagon::coordinate::Cube;
use crate::hexagon::grid::Grid;
use crate::hexagon::grid::rect_cube;
use crate::hexagon::grid::Rectangular;
use crate::hexagon::grid::DIM_LIMIT;

verus! {

/// One tile of a hand-laid board: the hexagon at the axial coordinate,
/// holding the given dice for the given owner, mobile.
fn hex_tile(column: i32, row: i32, owner: Player, dice: u8) -> (r: (Cube, u8))
    requires
        -1000 <= column <= 1000,
        -1000 <= row <= 1000,
    ensures
        r.0 == (Cube { x: column, y: (-(column + row)) as i32, z: row }),
        r.0.zero_sum(),
        r.0.bounded(),
        r.1 == pack_holding(owner, dice, true),
{
    let cube = match Axial::new(column, row).cube() {
        Ok(c) => c,
        Err(_) => {
            // axial conversion always fulfils the zero constraint
            proof {
                assert(false);
            }
            Cube { x: 0, y: 0, z: 0 }
        },
    };
    (cube, Holding::new(owner, dice, true))
}

/// One tile of a hand-laid board as the contracts state it: the hexagon
/// at the axial coordinate, holding the given dice for the given owner,
/// mobile.
pub open spec fn fixture_tile(column: int, row: int, number: int, glyph: char, dice: u8) -> (
    Cube,
    u8,
) {
    (
        Cube { x: column as i32, y: (-(column + row)) as i32, z: row as i32 },
        pack_holding(Player { number: number as usize, display: glyph }, dice, true),
    )
}

/// A holding that the random generator can produce for this roster: some
/// playing member owns it, with one to five dice, mobile.
pub open spec fn tile_from_roster(h: u8, players: PlayersView) -> bool {
    exists|p: int, d: u8|
        0 <= p < players.count && 1 <= d <= 5 && h == pack_holding(
            players.playing[p].unwrap(),
            d,
            true,
        )
}

/// Relies on `rand::thread_rng`: a handle to the calling thread's random
/// number generator. Nothing is promised of what it will produce.
#[verifier::external_body]
pub(crate) fn fresh_rng() -> rand::rngs::ThreadRng {
    rand::thread_rng()
}

#[verifier::external_type_specification]
#[verifier::external_body]
pub struct ExThreadRng(rand::rngs::ThreadRng);

/// Relies on `rand::Rng::gen_range`: a draw from the half-open range
/// `[low, high)`. It panics when the range is empty, so that is required
/// away; of the draw itself only the bounds are promised, as the result
/// depends on the generator's state.
#[verifier::external_body]
pub(crate) fn rng_range(rng: &mut rand::rngs::ThreadRng, low: usize, high: usize) -> (r: usize)
    requires
        low < high,
    ensures
        low <= r < high,
{
    rng.gen_range(low, high)
}

/// A rectangular grid where every tile goes to a random playing member of
/// the roster with a random die count from one to five, mobile.
pub fn generate_random_grid(columns: u32, rows: u32, players: Players) -> (r: Grid<u8>)
    requires
        columns <= DIM_LIMIT,
        rows <= DIM_LIMIT,
        players.wf(),
    ensures
        r.wf(),
        tiles_coords_unique(r.tiles@),
        tiles_dice_bounded(r.tiles@),
        r.shape == (crate::hexagon::grid::Shape::Rectangular { columns, rows }),
        r.tiles@.len() == columns * rows,
        forall|k: int|
            0 <= k < r.tiles@.len() ==> tile_from_roster((#[trigger] r.tiles@[k]).1, players@),
{
    let mut rng = fresh_rng();
    let base = Rectangular::generate(columns, rows, 0u8).to_grid();
    let roster = players.playing();
    let n = base.tiles.len();
    let mut tiles: Vec<(Cube, u8)> = Vec::new();
    let mut i: usize = 0;
    while i < n
        invariant
            players.wf(),
            roster@.len() == players@.count,
            forall|q: int|
                0 <= q < players@.count ==> (#[trigger] roster@[q]) == players@.playing[q].unwrap(),
            n == base.tiles@.len(),
            0 <= i <= n,
            tiles@.len() == i,
            forall|k: int|
                0 <= k < n ==> (#[trigger] base.tiles@[k]).0 == rect_cube(
                    k % (columns as int),
                    k / (columns as int),
                ) && base.tiles@[k].0.zero_sum() && base.tiles@[k].0.bounded(),
            forall|k: int|
                0 <= k < i ==> (#[trigger] tiles@[k]).0 == base.tiles@[k].0 && packed_dice(
                    tiles@[k].1,
                ) <= 5,
            forall|k: int|
                0 <= k < i ==> tile_from_roster((#[trigger] tiles@[k]).1, players@),
            columns <= DIM_LIMIT,
            rows <= DIM_LIMIT,
            n == columns * rows,
        decreases n - i,
    {
        let cube = base.tiles[i].0;
        let which = rng_range(&mut rng, 0, players.player_count());
        let owner = roster[which];
        let player_dice = rng_range(&mut rng, 1, 6) as u8;
        let hold: u8 = Holding::new(owner, player_dice, true);
        proof {
            assert(packed_dice(pack_holding(owner, player_dice, true)) == player_dice % 8);
            assert(roster@[which as int] == players@.playing[which as int].unwrap());
            assert(owner == players@.playing[which as int].unwrap());
        }
        tiles.push((cube, hold));
        proof {
            assert(0 <= which < players@.count && 1 <= player_dice <= 5 && hold == pack_holding(
                players@.playing[which as int].unwrap(),
                player_dice,
                true,
            ));
            assert(tile_from_roster(hold, players@));
        }
        i += 1;
    }
    proof {
        assert forall|a: int, b: int| 0 <= a < b < tiles@.len() implies (#[trigger] tiles@[a]).0
            != (#[trigger] tiles@[b]).0 by {
            assert(columns * rows <= columns * DIM_LIMIT) by (nonlinear_arith)
                requires
                    0 <= columns,
                    0 <= rows <= DIM_LIMIT,
            ;
            crate::hexagon::grid::lemma_rect_coords_unique(columns as int, a, b);
        }
    }
    let r = Grid { shape: crate::hexagon::grid::Shape::Rectangular { columns, rows }, tiles };
    proof {
        assert forall|k: int| 0 <= k < r.tiles@.len() implies tile_from_roster(
            (#[trigger] r.tiles@[k]).1,
            players@,
        ) by {
            assert(r.tiles@[k] == tiles@[k]);
        }
    }
    r
}

/// A random starting board: a random grid under a fresh roster, with the
/// first player to move.
pub fn generate_random_board(columns: u32, rows: u32, players: Players) -> (r: Board)
    requires
        columns <= DIM_LIMIT,
        rows <= DIM_LIMIT,
        players.wf(),
    ensures
        r.wf(),
        tiles_coords_unique(r@.tiles),
        r@.players == players@,
        r@.shape == (crate::hexagon::grid::Shape::Rectangular { columns, rows }),
        r@.tiles.len() == columns * rows,
        forall|k: int|
            0 <= k < r@.tiles.len() ==> tile_from_roster((#[trigger] r@.tiles[k]).1, players@),
        r@.captured_dice == 0,
        r@.moved == 0,
{
    let ghost pview = players@;
    let grid = generate_random_grid(columns, rows, players.duplicate());
    let r = Board::new(players, grid, 0, 0);
    proof {
        assert forall|k: int| 0 <= k < r@.tiles.len() implies tile_from_roster(
            (#[trigger] r@.tiles[k]).1,
            pview,
        ) by {
            assert(r@.tiles[k] == grid.tiles@[k]);
            assert(tile_from_roster(grid.tiles@[k].1, pview));
        }
    }
    r
}

/// Used for testing edge cases more than anything else.
pub fn canned_1x1_start() -> (r: Board)
    ensures
        r.wf(),
        tiles_coords_unique(r@.tiles),
        r@.players == Players::new_view(2),
        r@.shape == (crate::hexagon::grid::Shape::Rectangular { columns: 1, rows: 1 }),
        r@.tiles.len() == 1,
        r@.tiles == seq![
                fixture_tile(0, 0, 1, 'A', 2),
            ],
        r@.captured_dice == 0,
        r@.moved == 0,
{
    let players = Players::new(2);
    let player1 = Player::new(1, 'A');
    let mut hexes: Vec<(Cube, u8)> = Vec::new();
    hexes.push(hex_tile(0, 0, player1, 2));
    proof {
        assert(hexes@ =~= seq![
                fixture_tile(0, 0, 1, 'A', 2),
            ]);
    }
    let grid = Grid::from_tiles(hexes).change_to_rectangle(1, 1);
    Board::new(players, grid, 0, 0)
}

/// Single line board more for testing purposes than actual play. Player
/// 'A' is destined to lose.
pub fn canned_2x1_start01() -> (r: Board)
    ensures
        r.wf(),
        tiles_coords_unique(r@.tiles),
        r@.players == Players::new_view(2),
        r@.shape == (crate::hexagon::grid::Shape::Rectangular { columns: 2, rows: 1 }),
        r@.tiles.len() == 2,
        r@.tiles == seq![
                fixture_tile(0, 0, 1, 'A', 2),
                fixture_tile(1, 0, 2, 'B', 3),
            ],
        r@.captured_dice == 0,
        r@.moved == 0,
{
    let players = Players::new(2);
    let player1 = Player::new(1, 'A');
    let player2 = Player::new(2, 'B');
    let mut hexes: Vec<(Cube, u8)> = Vec::new();
    hexes.push(hex_tile(0, 0, player1, 2));
    hexes.push(hex_tile(1, 0, player2, 3));
    proof {
        assert(hexes@ =~= seq![
                fixture_tile(0, 0, 1, 'A', 2),
                fixture_tile(1, 0, 2, 'B', 3),
            ]);
    }
    let grid = Grid::from_tiles(hexes).change_to_rectangle(2, 1);
    Board::new(players, grid, 0, 0)
}

/// Game is an instant stalemate.
pub fn canned_2x1_start02() -> (r: Board)
    ensures
        r.wf(),
        tiles_coords_unique(r@.tiles),
        r@.players == Players::new_view(2),
        r@.shape == (crate::hexagon::grid::Shape::Rectangular { columns: 2, rows: 1 }),
        r@.tiles.len() == 2,
        r@.tiles == seq![
                fixture_tile(0, 0, 1, 'A', 1),
                fixture_tile(1, 0, 2, 'B', 1),
            ],
        r@.captured_dice == 0,
        r@.moved == 0,
{
    let players = Players::new(2);
    let player1 = Player::new(1, 'A');
    let player2 = Player::new(2, 'B');
    let mut hexes: Vec<(Cube, u8)> = Vec::new();
    hexes.push(hex_tile(0, 0, player1, 1));
    hexes.push(hex_tile(1, 0, player2, 1));
    proof {
        assert(hexes@ =~= seq![
                fixture_tile(0, 0, 1, 'A', 1),
                fixture_tile(1, 0, 2, 'B', 1),
            ]);
    }
    let grid = Grid::from_tiles(hexes).change_to_rectangle(2, 1);
    Board::new(players, grid, 0, 0)
}

/// Game is a clear winner for player 'A'.
pub fn canned_2x1_start03() -> (r: Board)
    ensures
        r.wf(),
        tiles_coords_unique(r@.tiles),
        r@.players == Players::new_view(2),
        r@.shape == (crate::hexagon::grid::Shape::Rectangular { columns: 2, rows: 1 }),
        r@.tiles.len() == 2,
        r@.tiles == seq![
                fixture_tile(0, 0, 1, 'A', 5),
                fixture_tile(1, 0, 1, 'A', 5),
            ],
        r@.captured_dice == 0,
        r@.moved == 0,
{
    let players = Players::new(2);
    let player1 = Player::new(1, 'A');
    let mut hexes: Vec<(Cube, u8)> = Vec::new();
    hexes.push(hex_tile(0, 0, player1, 5));
    hexes.push(hex_tile(1, 0, player1, 5));
    proof {
        assert(hexes@ =~= seq![
                fixture_tile(0, 0, 1, 'A', 5),
                fixture_tile(1, 0, 1, 'A', 5),
            ]);
    }
    let grid = Grid::from_tiles(hexes).change_to_rectangle(2, 1);
    Board::new(players, grid, 0, 0)
}

/// Single line board more for testing purposes than actual play.
pub fn canned_3x1_start01() -> (r: Board)
    ensures
        r.wf(),
        tiles_coords_unique(r@.tiles),
        r@.players == Players::new_view(2),
        r@.shape == (crate::hexagon::grid::Shape::Rectangular { columns: 3, rows: 1 }),
        r@.tiles.len() == 3,
        r@.tiles == seq![
                fixture_tile(0, 0, 1, 'A', 2),
                fixture_tile(1, 0, 2, 'B', 3),
                fixture_tile(2, 0, 1, 'A', 3),
            ],
        r@.captured_dice == 0,
        r@.moved == 0,
{
    let players = Players::new(2);
    let player1 = Player::new(1, 'A');
    let player2 = Player::new(2, 'B');
    let mut hexes: Vec<(Cube, u8)> = Vec::new();
    hexes.push(hex_tile(0, 0, player1, 2));
    hexes.push(hex_tile(1, 0, player2, 3));
    hexes.push(hex_tile(2, 0, player1, 3));
    proof {
        assert(hexes@ =~= seq![
                fixture_tile(0, 0, 1, 'A', 2),
                fixture_tile(1, 0, 2, 'B', 3),
                fixture_tile(2, 0, 1, 'A', 3),
            ]);
    }
    let grid = Grid::from_tiles(hexes).change_to_rectangle(3, 1);
    Board::new(players, grid, 0, 0)
}

/// Clear winner!
pub fn canned_3x1_start02() -> (r: Board)
    ensures
        r.wf(),
        tiles_coords_unique(r@.tiles),
        r@.players == Players::new_view(2),
        r@.shape == (crate::hexagon::grid::Shape::Rectangular { columns: 3, rows: 1 }),
        r@.tiles.len() == 3,
        r@.tiles == seq![
                fixture_tile(0, 0, 2, 'B', 2),
                fixture_tile(1, 0, 2, 'B', 3),
                fixture_tile(2, 0, 2, 'B', 3),
            ],
        r@.captured_dice == 0,
        r@.moved == 0,
{
    let players = Players::new(2);
    let player2 = Player::new(2, 'B');
    let mut hexes: Vec<(Cube, u8)> = Vec::new();
    hexes.push(hex_tile(0, 0, player2, 2));
    hexes.push(hex_tile(1, 0, player2, 3));
    hexes.push(hex_tile(2, 0, player2, 3));
    proof {
        assert(hexes@ =~= seq![
                fixture_tile(0, 0, 2, 'B', 2),
                fixture_tile(1, 0, 2, 'B', 3),
                fixture_tile(2, 0, 2, 'B', 3),
            ]);
    }
    let grid = Grid::from_tiles(hexes).change_to_rectangle(3, 1);
    Board::new(players, grid, 0, 0)
}

/// Instant stalemate.
pub fn canned_3x1_start03() -> (r: Board)
    ensures
        r.wf(),
        tiles_coords_unique(r@.tiles),
        r@.players == Players::new_view(2),
        r@.shape == (crate::hexagon::grid::Shape::Rectangular { columns: 3, rows: 1 }),
        r@.tiles.len() == 3,
        r@.tiles == seq![
                fixture_tile(0, 0, 1, 'A', 1),
                fixture_tile(1, 0, 2, 'B', 1),
                fixture_tile(2, 0, 1, 'A', 1),
            ],
        r@.captured_dice == 0,
        r@.moved == 0,
{
    let players = Players::new(2);
    let player1 = Player::new(1, 'A');
    let player2 = Player::new(2, 'B');
    let mut hexes: Vec<(Cube, u8)> = Vec::new();
    hexes.push(hex_tile(0, 0, player1, 1));
    hexes.push(hex_tile(1, 0, player2, 1));
    hexes.push(hex_tile(2, 0, player1, 1));
    proof {
        assert(hexes@ =~= seq![
                fixture_tile(0, 0, 1, 'A', 1),
                fixture_tile(1, 0, 2, 'B', 1),
                fixture_tile(2, 0, 1, 'A', 1),
            ]);
    }
    let grid = Grid::from_tiles(hexes).change_to_rectangle(3, 1);
    Board::new(players, grid, 0, 0)
}

/// Three-player stalemate.
pub fn canned_3x1_start04() -> (r: Board)
    ensures
        r.wf(),
        tiles_coords_unique(r@.tiles),
        r@.players == Players::new_view(2),
        r@.shape == (crate::hexagon::grid::Shape::Rectangular { columns: 3, rows: 1 }),
        r@.tiles.len() == 3,
        r@.tiles == seq![
                fixture_tile(0, 0, 1, 'A', 1),
                fixture_tile(1, 0, 2, 'B', 1),
                fixture_tile(2, 0, 3, 'C', 1),
            ],
        r@.captured_dice == 0,
        r@.moved == 0,
{
    let players = Players::new(2);
    let player1 = Player::new(1, 'A');
    let player2 = Player::new(2, 'B');
    let player3 = Player::new(3, 'C');
    let mut hexes: Vec<(Cube, u8)> = Vec::new();
    hexes.push(hex_tile(0, 0, player1, 1));
    hexes.push(hex_tile(1, 0, player2, 1));
    hexes.push(hex_tile(2, 0, player3, 1));
    proof {
        assert(hexes@ =~= seq![
                fixture_tile(0, 0, 1, 'A', 1),
                fixture_tile(1, 0, 2, 'B', 1),
                fixture_tile(2, 0, 3, 'C', 1),
            ]);
    }
    let grid = Grid::from_tiles(hexes).change_to_rectangle(3, 1);
    Board::new(players, grid, 0, 0)
}

/// Three-player game.
pub fn canned_3x1_start05() -> (r: Board)
    ensures
        r.wf(),
        tiles_coords_unique(r@.tiles),
        r@.players == Players::new_view(3),
        r@.shape == (crate::hexagon::grid::Shape::Rectangular { columns: 3, rows: 1 }),
        r@.tiles.len() == 3,
        r@.tiles == seq![
                fixture_tile(0, 0, 1, 'A', 2),
                fixture_tile(1, 0, 2, 'B', 3),
                fixture_tile(2, 0, 3, 'C', 3),
            ],
        r@.captured_dice == 0,
        r@.moved == 0,
{
    let players = Players::new(3);
    let player1 = Player::new(1, 'A');
    let player2 = Player::new(2, 'B');
    let player3 = Player::new(3, 'C');
    let mut hexes: Vec<(Cube, u8)> = Vec::new();
    hexes.push(hex_tile(0, 0, player1, 2));
    hexes.push(hex_tile(1, 0, player2, 3));
    hexes.push(hex_tile(2, 0, player3, 3));
    proof {
        assert(hexes@ =~= seq![
                fixture_tile(0, 0, 1, 'A', 2),
                fixture_tile(1, 0, 2, 'B', 3),
                fixture_tile(2, 0, 3, 'C', 3),
            ]);
    }
    let grid = Grid::from_tiles(hexes).change_to_rectangle(3, 1);
    Board::new(players, grid, 0, 0)
}

/// Board where player A has no attacking moves and will lose.
pub fn canned_2x2_start01() -> (r: Board)
    ensures
        r.wf(),
        tiles_coords_unique(r@.tiles),
        r@.players == Players::new_view(2),
        r@.shape == (crate::hexagon::grid::Shape::Rectangular { columns: 2, rows: 2 }),
        r@.tiles.len() == 4,
        r@.tiles == seq![
                fixture_tile(0, 0, 1, 'A', 2),
                fixture_tile(1, 0, 2, 'B', 3),
                fixture_tile(0, 1, 2, 'B', 3),
                fixture_tile(1, 1, 2, 'B', 5),
            ],
        r@.captured_dice == 0,
        r@.moved == 0,
{
    let players = Players::new(2);
    let player1 = Player::new(1, 'A');
    let player2 = Player::new(2, 'B');
    let mut hexes: Vec<(Cube, u8)> = Vec::new();
    hexes.push(hex_tile(0, 0, player1, 2));
    hexes.push(hex_tile(1, 0, player2, 3));
    hexes.push(hex_tile(0, 1, player2, 3));
    hexes.push(hex_tile(1, 1, player2, 5));
    proof {
        assert(hexes@ =~= seq![
                fixture_tile(0, 0, 1, 'A', 2),
                fixture_tile(1, 0, 2, 'B', 3),
                fixture_tile(0, 1, 2, 'B', 3),
                fixture_tile(1, 1, 2, 'B', 5),
            ]);
    }
    let grid = Grid::from_tiles(hexes).change_to_rectangle(2, 2);
    Board::new(players, grid, 0, 0)
}

/// Board where player A has one attacking move.
pub fn canned_2x2_start02() -> (r: Board)
    ensures
        r.wf(),
        tiles_coords_unique(r@.tiles),
        r@.players == Players::new_view(2),
        r@.shape == (crate::hexagon::grid::Shape::Rectangular { columns: 2, rows: 2 }),
        r@.tiles.len() == 4,
        r@.tiles == seq![
                fixture_tile(0, 0, 1, 'A', 2),
                fixture_tile(1, 0, 2, 'B', 1),
                fixture_tile(0, 1, 2, 'B', 3),
                fixture_tile(1, 1, 2, 'B', 5),
            ],
        r@.captured_dice == 0,
        r@.moved == 0,
{
    let players = Players::new(2);
    let player1 = Player::new(1, 'A');
    let player2 = Player::new(2, 'B');
    let mut hexes: Vec<(Cube, u8)> = Vec::new();
    hexes.push(hex_tile(0, 0, player1, 2));
    hexes.push(hex_tile(1, 0, player2, 1));
    hexes.push(hex_tile(0, 1, player2, 3));
    hexes.push(hex_tile(1, 1, player2, 5));
    proof {
        assert(hexes@ =~= seq![
                fixture_tile(0, 0, 1, 'A', 2),
                fixture_tile(1, 0, 2, 'B', 1),
                fixture_tile(0, 1, 2, 'B', 3),
                fixture_tile(1, 1, 2, 'B', 5),
            ]);
    }
    let grid = Grid::from_tiles(hexes).change_to_rectangle(2, 2);
    Board::new(players, grid, 0, 0)
}

/// Board where player A has two attacking moves.
pub fn canned_2x2_start03() -> (r: Board)
    ensures
        r.wf(),
        tiles_coords_unique(r@.tiles),
        r@.players == Players::new_view(2),
        r@.shape == (crate::hexagon::grid::Shape::Rectangular { columns: 2, rows: 2 }),
        r@.tiles.len() == 4,
        r@.tiles == seq![
                fixture_tile(0, 0, 1, 'A', 4),
                fixture_tile(1, 0, 2, 'B', 3),
                fixture_tile(0, 1, 2, 'B', 3),
                fixture_tile(1, 1, 2, 'B', 5),
            ],
        r@.captured_dice == 0,
        r@.moved == 0,
{
    let players = Players::new(2);
    let player1 = Player::new(1, 'A');
    let player2 = Player::new(2, 'B');
    let mut hexes: Vec<(Cube, u8)> = Vec::new();
    hexes.push(hex_tile(0, 0, player1, 4));
    hexes.push(hex_tile(1, 0, player2, 3));
    hexes.push(hex_tile(0, 1, player2, 3));
    hexes.push(hex_tile(1, 1, player2, 5));
    proof {
        assert(hexes@ =~= seq![
                fixture_tile(0, 0, 1, 'A', 4),
                fixture_tile(1, 0, 2, 'B', 3),
                fixture_tile(0, 1, 2, 'B', 3),
                fixture_tile(1, 1, 2, 'B', 5),
            ]);
    }
    let grid = Grid::from_tiles(hexes).change_to_rectangle(2, 2);
    Board::new(players, grid, 0, 0)
}

/// Board where player A and player B will battle. Player A can win, but
/// after a mistake player B can win instead.
pub fn canned_2x2_start04() -> (r: Board)
    ensures
        r.wf(),
        tiles_coords_unique(r@.tiles),
        r@.players == Players::new_view(2),
        r@.shape == (crate::hexagon::grid::Shape::Rectangular { columns: 2, rows: 2 }),
        r@.tiles.len() == 4,
        r@.tiles == seq![
                fixture_tile(0, 0, 1, 'A', 5),
                fixture_tile(1, 0, 1, 'A', 4),
                fixture_tile(0, 1, 2, 'B', 5),
                fixture_tile(1, 1, 2, 'B', 3),
            ],
        r@.captured_dice == 0,
        r@.moved == 0,
{
    let players = Players::new(2);
    let player1 = Player::new(1, 'A');
    let player2 = Player::new(2, 'B');
    let mut hexes: Vec<(Cube, u8)> = Vec::new();
    hexes.push(hex_tile(0, 0, player1, 5));
    hexes.push(hex_tile(1, 0, player1, 4));
    hexes.push(hex_tile(0, 1, player2, 5));
    hexes.push(hex_tile(1, 1, player2, 3));
    proof {
        assert(hexes@ =~= seq![
                fixture_tile(0, 0, 1, 'A', 5),
                fixture_tile(1, 0, 1, 'A', 4),
                fixture_tile(0, 1, 2, 'B', 5),
                fixture_tile(1, 1, 2, 'B', 3),
            ]);
    }
    let grid = Grid::from_tiles(hexes).change_to_rectangle(2, 2);
    Board::new(players, grid, 0, 0)
}

/// A two-row battlefield.
pub fn canned_3x2_start01() -> (r: Board)
    ensures
        r.wf(),
        tiles_coords_unique(r@.tiles),
        r@.players == Players::new_view(2),
        r@.shape == (crate::hexagon::grid::Shape::Rectangular { columns: 3, rows: 2 }),
        r@.tiles.len() == 6,
        r@.tiles == seq![
                fixture_tile(0, 0, 1, 'A', 4),
                fixture_tile(1, 0, 2, 'B', 4),
                fixture_tile(2, 0, 1, 'A', 4),
                fixture_tile(0, 1, 2, 'B', 5),
                fixture_tile(1, 1, 1, 'A', 5),
                fixture_tile(2, 1, 2, 'B', 5),
            ],
        r@.captured_dice == 0,
        r@.moved == 0,
{
    let players = Players::new(2);
    let player1 = Player::new(1, 'A');
    let player2 = Player::new(2, 'B');
    let mut hexes: Vec<(Cube, u8)> = Vec::new();
    hexes.push(hex_tile(0, 0, player1, 4));
    hexes.push(hex_tile(1, 0, player2, 4));
    hexes.push(hex_tile(2, 0, player1, 4));
    hexes.push(hex_tile(0, 1, player2, 5));
    hexes.push(hex_tile(1, 1, player1, 5));
    hexes.push(hex_tile(2, 1, player2, 5));
    proof {
        assert(hexes@ =~= seq![
                fixture_tile(0, 0, 1, 'A', 4),
                fixture_tile(1, 0, 2, 'B', 4),
                fixture_tile(2, 0, 1, 'A', 4),
                fixture_tile(0, 1, 2, 'B', 5),
                fixture_tile(1, 1, 1, 'A', 5),
                fixture_tile(2, 1, 2, 'B', 5),
            ]);
    }
    let grid = Grid::from_tiles(hexes).change_to_rectangle(3, 2);
    Board::new(players, grid, 0, 0)
}

/// Anything larger than this exposes an inefficiency in the movement
/// scoring algorithm.
pub fn canned_3x2_start02() -> (r: Board)
    ensures
        r.wf(),
        tiles_coords_unique(r@.tiles),
        r@.players == Players::new_view(2),
        r@.shape == (crate::hexagon::grid::Shape::Rectangular { columns: 3, rows: 2 }),
        r@.tiles.len() == 6,
        r@.tiles == seq![
                fixture_tile(0, 0, 1, 'A', 3),
                fixture_tile(1, 0, 2, 'B', 3),
                fixture_tile(2, 0, 1, 'A', 3),
                fixture_tile(0, 1, 2, 'B', 3),
                fixture_tile(1, 1, 1, 'A', 4),
                fixture_tile(2, 1, 2, 'B', 4),
            ],
        r@.captured_dice == 0,
        r@.moved == 0,
{
    let players = Players::new(2);
    let player1 = Player::new(1, 'A');
    let player2 = Player::new(2, 'B');
    let mut hexes: Vec<(Cube, u8)> = Vec::new();
    hexes.push(hex_tile(0, 0, player1, 3));
    hexes.push(hex_tile(1, 0, player2, 3));
    hexes.push(hex_tile(2, 0, player1, 3));
    hexes.push(hex_tile(0, 1, player2, 3));
    hexes.push(hex_tile(1, 1, player1, 4));
    hexes.push(hex_tile(2, 1, player2, 4));
    proof {
        assert(hexes@ =~= seq![
                fixture_tile(0, 0, 1, 'A', 3),
                fixture_tile(1, 0, 2, 'B', 3),
                fixture_tile(2, 0, 1, 'A', 3),
                fixture_tile(0, 1, 2, 'B', 3),
                fixture_tile(1, 1, 1, 'A', 4),
                fixture_tile(2, 1, 2, 'B', 4),
            ]);
    }
    let grid = Grid::from_tiles(hexes).change_to_rectangle(3, 2);
    Board::new(players, grid, 0, 0)
}

/// A more serious board that consumes quite some resources but can be
/// evaluated.
pub fn canned_3x3_start01() -> (r: Board)
    ensures
        r.wf(),
        tiles_coords_unique(r@.tiles),
        r@.players == Players::new_view(2),
        r@.shape == (crate::hexagon::grid::Shape::Rectangular { columns: 3, rows: 3 }),
        r@.tiles.len() == 9,
        r@.tiles == seq![
                fixture_tile(0, 0, 2, 'B', 3),
                fixture_tile(1, 0, 1, 'A', 3),
                fixture_tile(2, 0, 1, 'A', 3),
                fixture_tile(0, 1, 2, 'B', 2),
                fixture_tile(1, 1, 1, 'A', 5),
                fixture_tile(2, 1, 2, 'B', 3),
                fixture_tile(-1, 2, 1, 'A', 2),
                fixture_tile(0, 2, 1, 'A', 5),
                fixture_tile(1, 2, 2, 'B', 1),
            ],
        r@.captured_dice == 0,
        r@.moved == 0,
{
    let players = Players::new(2);
    let player1 = Player::new(1, 'A');
    let player2 = Player::new(2, 'B');
    let mut hexes: Vec<(Cube, u8)> = Vec::new();
    hexes.push(hex_tile(0, 0, player2, 3));
    hexes.push(hex_tile(1, 0, player1, 3));
    hexes.push(hex_tile(2, 0, player1, 3));
    hexes.push(hex_tile(0, 1, player2, 2));
    hexes.push(hex_tile(1, 1, player1, 5));
    hexes.push(hex_tile(2, 1, player2, 3));
    hexes.push(hex_tile(-1, 2, player1, 2));
    hexes.push(hex_tile(0, 2, player1, 5));
    hexes.push(hex_tile(1, 2, player2, 1));
    proof {
        assert(hexes@ =~= seq![
                fixture_tile(0, 0, 2, 'B', 3),
                fixture_tile(1, 0, 1, 'A', 3),
                fixture_tile(2, 0, 1, 'A', 3),
                fixture_tile(0, 1, 2, 'B', 2),
                fixture_tile(1, 1, 1, 'A', 5),
                fixture_tile(2, 1, 2, 'B', 3),
                fixture_tile(-1, 2, 1, 'A', 2),
                fixture_tile(0, 2, 1, 'A', 5),
                fixture_tile(1, 2, 2, 'B', 1),
            ]);
    }
    let grid = Grid::from_tiles(hexes).change_to_rectangle(3, 3);
    Board::new(players, grid, 0, 0)
}

/// Board where player A is one move away from entering a stalemate with
/// player B.
pub fn canned_3x3_start02() -> (r: Board)
    ensures
        r.wf(),
        tiles_coords_unique(r@.tiles),
        r@.players == Players::new_view(2),
        r@.shape == (crate::hexagon::grid::Shape::Rectangular { columns: 3, rows: 3 }),
        r@.tiles.len() == 9,
        r@.tiles == seq![
                fixture_tile(0, 0, 2, 'B', 1),
                fixture_tile(1, 0, 2, 'B', 1),
                fixture_tile(2, 0, 1, 'A', 1),
                fixture_tile(0, 1, 1, 'A', 2),
                fixture_tile(1, 1, 1, 'A', 1),
                fixture_tile(2, 1, 1, 'A', 1),
                fixture_tile(-1, 2, 1, 'A', 2),
                fixture_tile(0, 2, 1, 'A', 5),
                fixture_tile(1, 2, 1, 'A', 1),
            ],
        r@.captured_dice == 0,
        r@.moved == 0,
{
    let players = Players::new(2);
    let player1 = Player::new(1, 'A');
    let player2 = Player::new(2, 'B');
    let mut hexes: Vec<(Cube, u8)> = Vec::new();
    hexes.push(hex_tile(0, 0, player2, 1));
    hexes.push(hex_tile(1, 0, player2, 1));
    hexes.push(hex_tile(2, 0, player1, 1));
    hexes.push(hex_tile(0, 1, player1, 2));
    hexes.push(hex_tile(1, 1, player1, 1));
    hexes.push(hex_tile(2, 1, player1, 1));
    hexes.push(hex_tile(-1, 2, player1, 2));
    hexes.push(hex_tile(0, 2, player1, 5));
    hexes.push(hex_tile(1, 2, player1, 1));
    proof {
        assert(hexes@ =~= seq![
                fixture_tile(0, 0, 2, 'B', 1),
                fixture_tile(1, 0, 2, 'B', 1),
                fixture_tile(2, 0, 1, 'A', 1),
                fixture_tile(0, 1, 1, 'A', 2),
                fixture_tile(1, 1, 1, 'A', 1),
                fixture_tile(2, 1, 1, 'A', 1),
                fixture_tile(-1, 2, 1, 'A', 2),
                fixture_tile(0, 2, 1, 'A', 5),
                fixture_tile(1, 2, 1, 'A', 1),
            ]);
    }
    let grid = Grid::from_tiles(hexes).change_to_rectangle(3, 3);
    Board::new(players, grid, 0, 0)
}

/// A full three-by-three battlefield.
pub fn canned_3x3_start03() -> (r: Board)
    ensures
        r.wf(),
        tiles_coords_unique(r@.tiles),
        r@.players == Players::new_view(2),
        r@.shape == (crate::hexagon::grid::Shape::Rectangular { columns: 3, rows: 3 }),
        r@.tiles.len() == 9,
        r@.tiles == seq![
                fixture_tile(0, 0, 1, 'A', 3),
                fixture_tile(1, 0, 2, 'B', 3),
                fixture_tile(2, 0, 1, 'A', 3),
                fixture_tile(0, 1, 2, 'B', 4),
                fixture_tile(1, 1, 1, 'A', 4),
                fixture_tile(2, 1, 2, 'B', 4),
                fixture_tile(-1, 2, 1, 'A', 5),
                fixture_tile(0, 2, 2, 'B', 5),
                fixture_tile(1, 2, 1, 'A', 5),
            ],
        r@.captured_dice == 0,
        r@.moved == 0,
{
    let players = Players::new(2);
    let player1 = Player::new(1, 'A');
    let player2 = Player::new(2, 'B');
    let mut hexes: Vec<(Cube, u8)> = Vec::new();
    hexes.push(hex_tile(0, 0, player1, 3));
    hexes.push(hex_tile(1, 0, player2, 3));
    hexes.push(hex_tile(2, 0, player1, 3));
    hexes.push(hex_tile(0, 1, player2, 4));
    hexes.push(hex_tile(1, 1, player1, 4));
    hexes.push(hex_tile(2, 1, player2, 4));
    hexes.push(hex_tile(-1, 2, player1, 5));
    hexes.push(hex_tile(0, 2, player2, 5));
    hexes.push(hex_tile(1, 2, player1, 5));
    proof {
        assert(hexes@ =~= seq![
                fixture_tile(0, 0, 1, 'A', 3),
                fixture_tile(1, 0, 2, 'B', 3),
                fixture_tile(2, 0, 1, 'A', 3),
                fixture_tile(0, 1, 2, 'B', 4),
                fixture_tile(1, 1, 1, 'A', 4),
                fixture_tile(2, 1, 2, 'B', 4),
                fixture_tile(-1, 2, 1, 'A', 5),
                fixture_tile(0, 2, 2, 'B', 5),
                fixture_tile(1, 2, 1, 'A', 5),
            ]);
    }
    let grid = Grid::from_tiles(hexes).change_to_rectangle(3, 3);
    Board::new(players, grid, 0, 0)
}

} // verus!
