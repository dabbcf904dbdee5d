//! The hexagonal grid using cube coordinates.
use vstd::prelude::*;

use crate::hexagon::coordinate::Cube;
use crate::hexagon::errors::BadCoordinate;
use crate::hexagon::errors::NoHexAtCoordinate;

verus! {

/// The shape that a `Grid` assumes.
#[derive(Debug, Copy, Clone, PartialEq, Eq, Hash, Structural)]
pub enum Shape {
    Rectangular { columns: u32, rows: u32 },
    Unknown,
}

/// A grid of hexagons, each addressed by a cube coordinate and carrying one
/// datum. Tiles keep the order in which they were supplied; equality and
/// iteration are order-sensitive on that stored sequence.
#[derive(Debug, Clone)]
pub struct Grid<T> {
    pub shape: Shape,
    pub tiles: Vec<(Cube, T)>,
}

impl<T: Copy> Grid<T> {
    /// Every stored coordinate fulfils the zero constraint and stays within
    /// the magnitude bound for neighbour arithmetic.
    pub open spec fn wf(&self) -> bool {
        forall|i: int|
            0 <= i < self.tiles@.len() ==> (#[trigger] self.tiles@[i]).0.zero_sum()
                && self.tiles@[i].0.bounded()
    }

    /// How many tiles the grid holds.
    pub fn len(&self) -> (r: usize)
        ensures
            r == self.tiles@.len(),
    {
        self.tiles.len()
    }

    /// Build a grid of unknown shape from a tile list, keeping the order.
    pub fn from_tiles(tiles: Vec<(Cube, T)>) -> (r: Self)
        ensures
            r.shape == Shape::Unknown,
            r.tiles@ == tiles@,
    {
        Grid { shape: Shape::Unknown, tiles }
    }

    /// Change the recorded shape. The caller vouches that the tiles indeed
    /// lie out in that shape.
    pub fn change_shape(self, shape: Shape) -> (r: Self)
        ensures
            r.shape == shape,
            r.tiles@ == self.tiles@,
    {
        Grid { shape, tiles: self.tiles }
    }

    /// Change the recorded shape to a rectangle of the given dimensions.
    pub fn change_to_rectangle(self, columns: u32, rows: u32) -> (r: Self)
        ensures
            r.shape == (Shape::Rectangular { columns, rows }),
            r.tiles@ == self.tiles@,
    {
        self.change_shape(Shape::Rectangular { columns, rows })
    }
}

/// Largest column or row count a rectangular layout accepts; keeps every
/// generated coordinate well within the neighbour-arithmetic bound.
pub const DIM_LIMIT: u32 = 16384;

/// The cube coordinate of column `c` in row `r` of a rectangular layout.
/// Row 0 runs rightward from the origin; each further row shifts down-left
/// when its index is even and down-right when it is odd.
pub open spec fn rect_cube(c: int, r: int) -> Cube {
    Cube { x: (c - r / 2) as i32, y: (r / 2 - c - r) as i32, z: r as i32 }
}

/// References one hex of a grid: its coordinate and a copy of its datum.
#[derive(Debug, Copy, Clone)]
pub struct HexTile<T> {
    pub coordinate: Cube,
    pub data: T,
}

impl<T: Copy> HexTile<T> {
    pub fn new(coordinate: Cube, data: T) -> (r: Self)
        ensures
            r == (HexTile { coordinate, data }),
    {
        HexTile { coordinate, data }
    }

    pub fn coordinate(&self) -> (r: Cube)
        ensures
            r == self.coordinate,
    {
        self.coordinate
    }

    pub fn data(&self) -> (r: T)
        ensures
            r == self.data,
    {
        self.data
    }
}

/// The index of the authoritative tile for coordinate `c`: the last stored
/// tile at that coordinate, as later entries shadow earlier ones.
pub open spec fn tile_index_for<T>(tiles: Seq<(Cube, T)>, c: Cube) -> int
    decreases tiles.len(),
{
    if tiles.len() == 0 {
        -1
    } else if tiles.last().0 == c {
        tiles.len() - 1
    } else {
        tile_index_for(tiles.drop_last(), c)
    }
}

/// Whether any stored tile sits at coordinate `c`.
pub open spec fn has_tile_at<T>(tiles: Seq<(Cube, T)>, c: Cube) -> bool {
    exists|i: int| 0 <= i < tiles.len() && (#[trigger] tiles[i]).0 == c
}

pub proof fn lemma_tile_index_for<T>(tiles: Seq<(Cube, T)>, c: Cube)
    ensures
        has_tile_at(tiles, c) <==> 0 <= tile_index_for(tiles, c) < tiles.len(),
        has_tile_at(tiles, c) ==> tiles[tile_index_for(tiles, c)].0 == c,
        !has_tile_at(tiles, c) ==> tile_index_for(tiles, c) == -1,
        forall|j: int| tile_index_for(tiles, c) < j < tiles.len() ==> (#[trigger] tiles[j]).0 != c,
    decreases tiles.len(),
{
    if tiles.len() > 0 {
        if tiles.last().0 == c {
        } else {
            lemma_tile_index_for(tiles.drop_last(), c);
            assert forall|i: int| 0 <= i < tiles.len() && (#[trigger] tiles[i]).0 == c implies
                has_tile_at(tiles.drop_last(), c) by {
                assert(tiles.drop_last()[i] == tiles[i]);
            }
            assert forall|j: int| tile_index_for(tiles, c) < j < tiles.len() implies (
            #[trigger] tiles[j]).0 != c by {
                if j < tiles.len() - 1 {
                    assert(tiles.drop_last()[j] == tiles[j]);
                }
            }
        }
    }
}

impl<T: Copy> Grid<T> {
    /// Fetch the datum stored at a coordinate, or report the miss. When two
    /// tiles share a coordinate, the later one answers.
    pub fn fetch(&self, location: &Cube) -> (r: Result<&T, BadCoordinate>)
        ensures
            has_tile_at(self.tiles@, *location) ==> (r matches Ok(d) && *d == self.tiles@[
                tile_index_for(self.tiles@, *location)
            ].1),
            !has_tile_at(self.tiles@, *location) ==> (r matches Err(e) && e == BadCoordinate::NoHex(
                NoHexAtCoordinate { x: location.x, y: location.y, z: location.z },
            )),
    {
        proof {
            lemma_tile_index_for(self.tiles@, *location);
        }
        let n = self.tiles.len();
        let mut found: Option<usize> = None;
        let mut i: usize = 0;
        while i < n
            invariant
                0 <= i <= n,
                n == self.tiles@.len(),
                match found {
                    Some(k) => 0 <= k < i && self.tiles@[k as int].0 == *location && forall|j: int|
                        k < j < i ==> (#[trigger] self.tiles@[j]).0 != *location,
                    None => forall|j: int| 0 <= j < i ==> (#[trigger] self.tiles@[j]).0 != *location,
                },
            decreases n - i,
        {
            let c = &self.tiles[i].0;
            if c.x == location.x && c.y == location.y && c.z == location.z {
                found = Some(i);
            }
            i += 1;
        }
        match found {
            Some(k) => {
                proof {
                    assert(has_tile_at(self.tiles@, *location));
                    assert(tile_index_for(self.tiles@, *location) == k as int) by {
                        lemma_tile_index_for(self.tiles@, *location);
                    }
                }
                Ok(&self.tiles[k].1)
            },
            None => {
                proof {
                    assert(!has_tile_at(self.tiles@, *location));
                }
                Err(
                    BadCoordinate::NoHex(
                        NoHexAtCoordinate::new(location.x, location.y, location.z),
                    ),
                )
            },
        }
    }

    /// The tiles in stored order, each as a coordinate plus datum pair.
    pub fn iter(&self) -> (r: Vec<HexTile<T>>)
        ensures
            r@.len() == self.tiles@.len(),
            forall|i: int|
                0 <= i < r@.len() ==> (#[trigger] r@[i]) == (HexTile {
                    coordinate: self.tiles@[i].0,
                    data: self.tiles@[i].1,
                }),
    {
        let n = self.tiles.len();
        let mut r: Vec<HexTile<T>> = Vec::new();
        let mut i: usize = 0;
        while i < n
            invariant
                0 <= i <= n,
                n == self.tiles@.len(),
                r@.len() == i,
                forall|j: int|
                    0 <= j < i ==> (#[trigger] r@[j]) == (HexTile {
                        coordinate: self.tiles@[j].0,
                        data: self.tiles@[j].1,
                    }),
            decreases n - i,
        {
            let (c, d) = self.tiles[i];
            r.push(HexTile { coordinate: c, data: d });
            i += 1;
        }
        r
    }

    /// A copy of this grid whose every datum the supplied function replaced,
    /// preserving the coordinate layout and iteration order.
    pub fn fork_with<F: Fn(&Cube, T) -> T>(&self, f: F) -> (r: Grid<T>)
        requires
            forall|i: int|
                0 <= i < self.tiles@.len() ==> call_requires(
                    f,
                    (&(#[trigger] self.tiles@[i]).0, self.tiles@[i].1),
                ),
        ensures
            r.shape == self.shape,
            r.tiles@.len() == self.tiles@.len(),
            forall|i: int|
                0 <= i < r.tiles@.len() ==> (#[trigger] r.tiles@[i]).0 == self.tiles@[i].0
                    && call_ensures(f, (&self.tiles@[i].0, self.tiles@[i].1), r.tiles@[i].1),
    {
        let n = self.tiles.len();
        let mut tiles: Vec<(Cube, T)> = Vec::new();
        let mut i: usize = 0;
        while i < n
            invariant
                0 <= i <= n,
                n == self.tiles@.len(),
                tiles@.len() == i,
                forall|j: int|
                    0 <= j < n ==> call_requires(
                        f,
                        (&(#[trigger] self.tiles@[j]).0, self.tiles@[j].1),
                    ),
                forall|j: int|
                    0 <= j < i ==> (#[trigger] tiles@[j]).0 == self.tiles@[j].0 && call_ensures(
                        f,
                        (&self.tiles@[j].0, self.tiles@[j].1),
                        tiles@[j].1,
                    ),
            decreases n - i,
        {
            let (c, d) = self.tiles[i];
            let d2 = f(&c, d);
            tiles.push((c, d2));
            i += 1;
        }
        Grid { shape: self.shape, tiles }
    }

    /// A copy of this grid, tile for tile.
    pub fn duplicate(&self) -> (r: Grid<T>)
        ensures
            r.shape == self.shape,
            r.tiles@ == self.tiles@,
    {
        let n = self.tiles.len();
        let mut tiles: Vec<(Cube, T)> = Vec::new();
        let mut i: usize = 0;
        while i < n
            invariant
                0 <= i <= n,
                n == self.tiles@.len(),
                tiles@.len() == i,
                forall|j: int| 0 <= j < i ==> (#[trigger] tiles@[j]) == self.tiles@[j],
            decreases n - i,
        {
            let (c, d) = self.tiles[i];
            tiles.push((c, d));
            i += 1;
        }
        proof {
            assert(tiles@ =~= self.tiles@);
        }
        Grid { shape: self.shape, tiles }
    }
}

impl PartialEq for Grid<u8> {
    /// Order-sensitive equality on the stored tile sequence and the shape.
    fn eq(&self, other: &Grid<u8>) -> (r: bool) {
        if !(self.shape == other.shape) {
            return false;
        }
        let n = self.tiles.len();
        if n != other.tiles.len() {
            proof {
                assert(self.tiles@ !~= other.tiles@);
            }
            return false;
        }
        let mut i: usize = 0;
        while i < n
            invariant
                0 <= i <= n,
                n == self.tiles@.len(),
                n == other.tiles@.len(),
                forall|j: int| 0 <= j < i ==> (#[trigger] self.tiles@[j]) == other.tiles@[j],
            decreases n - i,
        {
            let (c1, d1) = self.tiles[i];
            let (c2, d2) = other.tiles[i];
            if !(c1 == c2 && d1 == d2) {
                proof {
                    assert(self.tiles@[i as int] != other.tiles@[i as int]);
                }
                return false;
            }
            i += 1;
        }
        proof {
            assert(self.tiles@ =~= other.tiles@);
        }
        true
    }
}

impl vstd::std_specs::cmp::PartialEqSpecImpl for Grid<u8> {
    open spec fn obeys_eq_spec() -> bool {
        true
    }

    open spec fn eq_spec(&self, other: &Grid<u8>) -> bool {
        self.shape == other.shape && self.tiles@ == other.tiles@
    }
}

impl Eq for Grid<u8> {

}

/// Relies on `String::push`: appends exactly the one character.
#[verifier::external_body]
fn push_char(s: &mut String, c: char)
    ensures
        final(s)@ == old(s)@.push(c),
{
    s.push(c)
}

/// What follows cell `k` in the rendered form: a newline at each row end,
/// and two spaces of indent when the row about to start is odd-indexed and
/// still on the board.
pub open spec fn cell_break(columns: int, rows: int, k: int) -> Seq<char> {
    if (k + 1) % columns == 0 {
        let row = (k + 1) / columns;
        if row % 2 == 1 && row < rows {
            seq!['\n', ' ', ' ']
        } else {
            seq!['\n']
        }
    } else {
        Seq::empty()
    }
}

/// The simple staggered rendering of a rectangular character grid: each
/// cell followed by a space, rows separated by newlines, odd rows
/// indented.
pub open spec fn rendered_cells(tiles: Seq<(Cube, char)>, columns: int, rows: int) -> Seq<char> {
    Seq::new(tiles.len(), |k: int| seq![tiles[k].1, ' '] + cell_break(columns, rows, k)).flatten()
}

impl Grid<char> {
    /// Simple staggered display of the hexagonal board. Use an ncurses
    /// library for more sophisticated display.
    pub fn as_string(&self) -> (r: String)
        ensures
            self.shape matches Shape::Rectangular { columns, rows } ==> (columns > 0 ==> r@
                == rendered_cells(self.tiles@, columns as int, rows as int)),
    {
        let (columns, rows) = match self.shape {
            Shape::Rectangular { columns, rows } => (columns, rows),
            Shape::Unknown => {
                return String::from_str("blah");
            },
        };
        if columns == 0 {
            return String::new();
        }
        let ghost tiles = self.tiles@;
        let n = self.tiles.len();
        let mut out = String::new();
        let mut i: usize = 0;
        let mut col: u32 = 0;
        let mut row: u64 = 0;
        while i < n
            invariant
                tiles == self.tiles@,
                0 <= i <= n,
                n == tiles.len(),
                0 < columns,
                col < columns,
                i == row * columns + col,
                out@ == Seq::new(
                    i as nat,
                    |k: int| seq![tiles[k].1, ' '] + cell_break(columns as int, rows as int, k),
                ).flatten(),
            decreases n - i,
        {
            let ghost parts = Seq::new(
                i as nat,
                |k: int| seq![tiles[k].1, ' '] + cell_break(columns as int, rows as int, k),
            );
            let c = self.tiles[i].1;
            push_char(&mut out, c);
            push_char(&mut out, ' ');
            let ghost brk = cell_break(columns as int, rows as int, i as int);
            col += 1;
            if col >= columns {
                proof {
                    assert(row <= i) by (nonlinear_arith)
                        requires
                            i == row * columns + col - 1,
                            columns >= 1,
                            col - 1 >= 0,
                            row >= 0,
                    ;
                }
                let next_row = row + 1;
                push_char(&mut out, '\n');
                proof {
                    assert(col == columns);
                    assert((row + 1) * (columns as int) == row * (columns as int) + columns)
                        by (nonlinear_arith);
                    vstd::arithmetic::div_mod::lemma_fundamental_div_mod_converse(
                        i as int + 1,
                        columns as int,
                        next_row as int,
                        0,
                    );
                }
                if next_row % 2 == 1 && next_row < rows as u64 {
                    push_char(&mut out, ' ');
                    push_char(&mut out, ' ');
                    proof {
                        assert(brk =~= seq!['\n', ' ', ' ']);
                    }
                } else {
                    proof {
                        assert(brk =~= seq!['\n']);
                    }
                }
                col = 0;
                row = next_row;
                proof {
                    assert(i + 1 == row * columns + col) by (nonlinear_arith)
                        requires
                            col == 0,
                            row * (columns as int) == (row - 1) * (columns as int) + columns,
                            i + 1 == (row - 1) * (columns as int) + columns,
                    ;
                }
            } else {
                proof {
                    vstd::arithmetic::div_mod::lemma_fundamental_div_mod_converse(
                        i as int + 1,
                        columns as int,
                        row as int,
                        col as int,
                    );
                    assert(brk =~= Seq::<char>::empty());
                }
            }
            proof {
                let f = |k: int| seq![tiles[k].1, ' '] + cell_break(
                    columns as int,
                    rows as int,
                    k,
                );
                assert(Seq::new((i + 1) as nat, f) =~= parts.push(f(i as int)));
                parts.lemma_flatten_push(f(i as int));
                assert(out@ =~= parts.flatten() + f(i as int));
                assert(out@ =~= Seq::new((i + 1) as nat, f).flatten());
            }
            i += 1;
        }
        proof {
            assert(Seq::new(n as nat, |k: int| seq![tiles[k].1, ' '] + cell_break(
                columns as int,
                rows as int,
                k,
            )) =~= Seq::new(tiles.len(), |k: int| seq![tiles[k].1, ' '] + cell_break(
                columns as int,
                rows as int,
                k,
            )));
        }
        out
    }
}

/// A rectangular layout of hexagons: `rows` staggered rows of `columns`
/// cubes each, in row-major order.
#[derive(Debug, Clone)]
pub struct Rectangular<T> {
    pub columns: u32,
    pub rows: u32,
    pub tiles: Vec<(Cube, T)>,
}

/// The first row of a rectangular layout: `length` cubes rightward from the
/// origin.
pub fn generate_new_row(length: u32) -> (r: Vec<Cube>)
    requires
        length <= DIM_LIMIT,
    ensures
        r@.len() == length,
        forall|i: int| 0 <= i < length ==> (#[trigger] r@[i]) == rect_cube(i, 0),
{
    let mut row: Vec<Cube> = Vec::new();
    let mut x: u32 = 0;
    while x < length
        invariant
            0 <= x <= length,
            length <= DIM_LIMIT,
            row@.len() == x,
            forall|i: int| 0 <= i < x ==> (#[trigger] row@[i]) == rect_cube(i, 0),
        decreases length - x,
    {
        row.push(Cube { x: x as i32, y: -(x as i32), z: 0 });
        x += 1;
    }
    row
}

/// The row one step down-right of the given row.
pub fn row_down_right_from_row(row: &Vec<Cube>) -> (r: Vec<Cube>)
    requires
        forall|i: int| 0 <= i < row@.len() ==> (#[trigger] row@[i]).bounded(),
    ensures
        r@.len() == row@.len(),
        forall|i: int|
            0 <= i < r@.len() ==> (#[trigger] r@[i]) == crate::hexagon::coordinate::cube_step(
                row@[i],
                0,
                -1,
                1,
            ),
{
    let n = row.len();
    let mut new_row: Vec<Cube> = Vec::new();
    let mut i: usize = 0;
    while i < n
        invariant
            0 <= i <= n,
            n == row@.len(),
            new_row@.len() == i,
            forall|j: int| 0 <= j < n ==> (#[trigger] row@[j]).bounded(),
            forall|j: int|
                0 <= j < i ==> (#[trigger] new_row@[j]) == crate::hexagon::coordinate::cube_step(
                    row@[j],
                    0,
                    -1,
                    1,
                ),
        decreases n - i,
    {
        let c = row[i];
        new_row.push(Cube { x: c.x, y: c.y - 1, z: c.z + 1 });
        i += 1;
    }
    new_row
}

/// The row one step down-left of the given row.
pub fn row_down_left_from_row(row: &Vec<Cube>) -> (r: Vec<Cube>)
    requires
        forall|i: int| 0 <= i < row@.len() ==> (#[trigger] row@[i]).bounded(),
    ensures
        r@.len() == row@.len(),
        forall|i: int|
            0 <= i < r@.len() ==> (#[trigger] r@[i]) == crate::hexagon::coordinate::cube_step(
                row@[i],
                -1,
                0,
                1,
            ),
{
    let n = row.len();
    let mut new_row: Vec<Cube> = Vec::new();
    let mut i: usize = 0;
    while i < n
        invariant
            0 <= i <= n,
            n == row@.len(),
            new_row@.len() == i,
            forall|j: int| 0 <= j < n ==> (#[trigger] row@[j]).bounded(),
            forall|j: int|
                0 <= j < i ==> (#[trigger] new_row@[j]) == crate::hexagon::coordinate::cube_step(
                    row@[j],
                    -1,
                    0,
                    1,
                ),
        decreases n - i,
    {
        let c = row[i];
        new_row.push(Cube { x: c.x - 1, y: c.y, z: c.z + 1 });
        i += 1;
    }
    new_row
}

/// Every coordinate of a layout within the dimension limit is well formed.
proof fn lemma_rect_cube_wf(c: int, r: int)
    requires
        0 <= c <= DIM_LIMIT,
        0 <= r <= DIM_LIMIT,
    ensures
        rect_cube(c, r).zero_sum(),
        rect_cube(c, r).bounded(),
{
}

/// Stepping a row-`r - 1` coordinate down-right (odd `r`) or down-left
/// (even `r`) lands on the row-`r` coordinate of the same column.
proof fn lemma_rect_row_step(c: int, r: int)
    requires
        0 <= c <= DIM_LIMIT,
        1 <= r <= DIM_LIMIT,
    ensures
        r % 2 == 1 ==> crate::hexagon::coordinate::cube_step(rect_cube(c, r - 1), 0, -1, 1)
            == rect_cube(c, r),
        r % 2 == 0 ==> crate::hexagon::coordinate::cube_step(rect_cube(c, r - 1), -1, 0, 1)
            == rect_cube(c, r),
{
    if r % 2 == 1 {
        assert(r / 2 == (r - 1) / 2);
    } else {
        assert(r / 2 == (r - 1) / 2 + 1);
    }
}

/// Two distinct row-major indices of a rectangular layout sit on distinct
/// cube coordinates: the row fixes `z` and the column then fixes `x`.
pub proof fn lemma_rect_coords_unique(columns: int, a: int, b: int)
    requires
        0 < columns <= DIM_LIMIT,
        0 <= a < b,
        b < columns * DIM_LIMIT,
    ensures
        rect_cube(a % columns, a / columns) != rect_cube(b % columns, b / columns),
{
    vstd::arithmetic::div_mod::lemma_fundamental_div_mod(a, columns);
    vstd::arithmetic::div_mod::lemma_fundamental_div_mod(b, columns);
    assert(0 <= a % columns < columns && 0 <= b % columns < columns) by (nonlinear_arith)
        requires
            columns > 0,
            0 <= a,
            0 <= b,
    ;
    let r1 = a / columns;
    let r2 = b / columns;
    let c1 = a % columns;
    let c2 = b % columns;
    assert(0 <= r1 && 0 <= r2) by (nonlinear_arith)
        requires
            columns > 0,
            0 <= a <= b,
            r1 == a / columns,
            r2 == b / columns,
    ;
    assert(r2 < DIM_LIMIT) by (nonlinear_arith)
        requires
            columns > 0,
            0 <= b < columns * DIM_LIMIT,
            r2 == b / columns,
    ;
    assert(r1 <= r2) by (nonlinear_arith)
        requires
            columns > 0,
            0 <= a < b,
            r1 == a / columns,
            r2 == b / columns,
    ;
    if r1 == r2 {
        assert(c1 != c2);
        assert(rect_cube(c1, r1).x != rect_cube(c2, r2).x);
    } else {
        assert(rect_cube(c1, r1).z != rect_cube(c2, r2).z);
    }
}

/// The row-major index `r * columns + c` decomposes back into row and column.
proof fn lemma_row_major(columns: int, r: int, c: int)
    requires
        columns > 0,
        0 <= c < columns,
        0 <= r,
    ensures
        (r * columns + c) / columns == r,
        (r * columns + c) % columns == c,
{
    vstd::arithmetic::div_mod::lemma_fundamental_div_mod_converse(
        r * columns + c,
        columns,
        r,
        c,
    );
}

impl<T: Copy> Rectangular<T> {
    /// What `generate_with` promises of tile `k` of the result.
    pub open spec fn generated_tile_ok<F: Fn(&Cube) -> T>(
        self,
        f: F,
        k: int,
    ) -> bool {
        let cb = rect_cube(k % (self.columns as int), k / (self.columns as int));
        &&& self.tiles@[k].0 == cb
        &&& cb.zero_sum()
        &&& cb.bounded()
        &&& call_ensures(f, (&cb,), self.tiles@[k].1)
    }

    /// Lay out `rows` staggered rows of `columns` cubes, row-major, asking
    /// the supplied function for each tile's datum.
    pub fn generate_with<F: Fn(&Cube) -> T>(columns: u32, rows: u32, f: F) -> (g: Rectangular<T>)
        requires
            columns <= DIM_LIMIT,
            rows <= DIM_LIMIT,
            forall|c: Cube| c.zero_sum() && c.bounded() ==> #[trigger] call_requires(f, (&c,)),
        ensures
            g.columns == columns,
            g.rows == rows,
            g.tiles@.len() == columns * rows,
            forall|k: int| 0 <= k < g.tiles@.len() ==> #[trigger] g.generated_tile_ok(f, k),
    {
        if columns == 0 || rows == 0 {
            return Rectangular { columns, rows, tiles: Vec::new() };
        }
        let mut tiles: Vec<(Cube, T)> = Vec::new();
        let mut last_row = generate_new_row(columns);
        proof {
            assert forall|i: int| 0 <= i < columns implies (#[trigger] last_row@[i]).zero_sum()
                && last_row@[i].bounded() by {
                lemma_rect_cube_wf(i, 0);
            }
        }
        let mut cc: u32 = 0;
        while cc < columns
            invariant
                0 <= cc <= columns,
                0 < columns <= DIM_LIMIT,
                rows <= DIM_LIMIT,
                last_row@.len() == columns,
                forall|i: int| 0 <= i < columns ==> (#[trigger] last_row@[i]) == rect_cube(i, 0),
                forall|c: Cube| c.zero_sum() && c.bounded() ==> #[trigger] call_requires(f, (&c,)),
                tiles@.len() == cc,
                forall|k: int|
                    0 <= k < cc ==> (#[trigger] tiles@[k]).0 == rect_cube(
                        k % (columns as int),
                        k / (columns as int),
                    ) && tiles@[k].0.zero_sum() && tiles@[k].0.bounded() && call_ensures(
                        f,
                        (&tiles@[k].0,),
                        tiles@[k].1,
                    ),
            decreases columns - cc,
        {
            let c = last_row[cc as usize];
            proof {
                lemma_rect_cube_wf(cc as int, 0);
                lemma_row_major(columns as int, 0, cc as int);
            }
            let d = f(&c);
            tiles.push((c, d));
            cc += 1;
        }
        let mut rr: u32 = 1;
        while rr < rows
            invariant
                1 <= rr <= rows,
                0 < columns <= DIM_LIMIT,
                0 < rows <= DIM_LIMIT,
                last_row@.len() == columns,
                forall|i: int|
                    0 <= i < columns ==> (#[trigger] last_row@[i]) == rect_cube(i, rr - 1),
                forall|c: Cube| c.zero_sum() && c.bounded() ==> #[trigger] call_requires(f, (&c,)),
                tiles@.len() == rr * columns,
                forall|k: int|
                    0 <= k < tiles@.len() ==> (#[trigger] tiles@[k]).0 == rect_cube(
                        k % (columns as int),
                        k / (columns as int),
                    ) && tiles@[k].0.zero_sum() && tiles@[k].0.bounded() && call_ensures(
                        f,
                        (&tiles@[k].0,),
                        tiles@[k].1,
                    ),
            decreases rows - rr,
        {
            proof {
                assert forall|i: int| 0 <= i < columns implies (#[trigger] last_row@[i]).bounded()
                    by {
                    lemma_rect_cube_wf(i, rr - 1);
                }
            }
            last_row = if rr % 2 == 0 {
                row_down_left_from_row(&last_row)
            } else {
                row_down_right_from_row(&last_row)
            };
            proof {
                assert forall|i: int| 0 <= i < columns implies (#[trigger] last_row@[i])
                    == rect_cube(i, rr as int) by {
                    lemma_rect_row_step(i, rr as int);
                }
            }
            let ghost base = tiles@.len() as int;
            let mut cc: u32 = 0;
            while cc < columns
                invariant
                    0 <= cc <= columns,
                    0 < columns <= DIM_LIMIT,
                    1 <= rr < rows <= DIM_LIMIT,
                    base == rr * columns,
                    last_row@.len() == columns,
                    forall|i: int|
                        0 <= i < columns ==> (#[trigger] last_row@[i]) == rect_cube(i, rr as int),
                    forall|c: Cube|
                        c.zero_sum() && c.bounded() ==> #[trigger] call_requires(f, (&c,)),
                    tiles@.len() == base + cc,
                    forall|k: int|
                        0 <= k < tiles@.len() ==> (#[trigger] tiles@[k]).0 == rect_cube(
                            k % (columns as int),
                            k / (columns as int),
                        ) && tiles@[k].0.zero_sum() && tiles@[k].0.bounded() && call_ensures(
                            f,
                            (&tiles@[k].0,),
                            tiles@[k].1,
                        ),
                decreases columns - cc,
            {
                let c = last_row[cc as usize];
                proof {
                    lemma_rect_cube_wf(cc as int, rr as int);
                    lemma_row_major(columns as int, rr as int, cc as int);
                }
                let d = f(&c);
                tiles.push((c, d));
                cc += 1;
            }
            rr += 1;
            proof {
                assert(tiles@.len() == rr * columns) by (nonlinear_arith)
                    requires
                        tiles@.len() == base + columns,
                        base == (rr - 1) * columns,
                ;
            }
        }
        proof {
            assert(tiles@.len() == columns * rows) by (nonlinear_arith)
                requires
                    tiles@.len() == rows * columns,
            ;
        }
        Rectangular { columns, rows, tiles }
    }

    /// Lay out a rectangle whose every tile holds the same datum.
    pub fn generate(columns: u32, rows: u32, d: T) -> (g: Rectangular<T>)
        requires
            columns <= DIM_LIMIT,
            rows <= DIM_LIMIT,
        ensures
            g.columns == columns,
            g.rows == rows,
            g.tiles@.len() == columns * rows,
            forall|k: int|
                0 <= k < g.tiles@.len() ==> (#[trigger] g.tiles@[k]).0 == rect_cube(
                    k % (columns as int),
                    k / (columns as int),
                ) && g.tiles@[k].0.zero_sum() && g.tiles@[k].0.bounded() && g.tiles@[k].1 == d,
    {
        let f = |_c: &Cube| -> (r: T) ensures r == d { d };
        let g = Self::generate_with(columns, rows, f);
        proof {
            assert forall|k: int| 0 <= k < g.tiles@.len() implies (#[trigger] g.tiles@[k]).0
                == rect_cube(k % (columns as int), k / (columns as int)) && g.tiles@[k].0.zero_sum()
                && g.tiles@[k].0.bounded() && g.tiles@[k].1 == d by {
                assert(g.generated_tile_ok(f, k));
            }
        }
        g
    }

    /// This layout as a `Grid` with a rectangular shape.
    pub fn to_grid(&self) -> (g: Grid<T>)
        ensures
            g.shape == (Shape::Rectangular { columns: self.columns, rows: self.rows }),
            g.tiles@ == self.tiles@,
    {
        let n = self.tiles.len();
        let mut tiles: Vec<(Cube, T)> = Vec::new();
        let mut i: usize = 0;
        while i < n
            invariant
                0 <= i <= n,
                n == self.tiles@.len(),
                tiles@.len() == i,
                forall|j: int| 0 <= j < i ==> (#[trigger] tiles@[j]) == self.tiles@[j],
            decreases n - i,
        {
            let (c, d) = self.tiles[i];
            tiles.push((c, d));
            i += 1;
        }
        proof {
            assert(tiles@ =~= self.tiles@);
        }
        Grid { shape: Shape::Rectangular { columns: self.columns, rows: self.rows }, tiles }
    }
}

} // verus!
