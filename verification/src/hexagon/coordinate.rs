//! Coordinate systems.
use vstd::prelude::*;

use crate::hexagon::errors::FailsZeroConstraint;

verus! {

/// Magnitude bound under which a coordinate component can take one more
/// unit step in any direction without leaving `i32`.
pub const COORD_LIMIT: i32 = 0x3FFF_FFFF;

/// Magnitude bound on axial components so that their sum stays within
/// `COORD_LIMIT`.
pub const AXIAL_LIMIT: i32 = 0x1FFF_FFFF;

/// The six directions a hexagon can border on a 'pointy' oriented grid.
/// Each movement can be added to the current hexagon to get the coordinates
/// of the new one. This is used for calculating neighbours.
#[derive(Debug, Copy, Clone, PartialEq, Eq, Structural)]
pub enum PointDirection {
    Left,
    Right,
    UpLeft,
    UpRight,
    DownLeft,
    DownRight,
}

/// The six directions of a 'flat' oriented grid, named after the sides of a
/// flat-topped hexagon. They address the same offsets as `PointDirection`.
#[derive(Debug, Copy, Clone, PartialEq, Eq, Structural)]
pub enum FlatDirection {
    Up,
    Down,
    LeftUp,
    RightUp,
    LeftDown,
    RightDown,
}

/// Axial coordinates simulate a (X, Y) cartesian plane but are not quite one.
/// Therefore, to avoid confusion, there is `column` going diagonally down to
/// the right, and `row`.
#[derive(Debug, Copy, Clone, Hash, PartialEq, Eq, Structural)]
pub struct Axial {
    pub column: i32,
    pub row: i32,
}

/// A cube coordinate addressing one hexagon. A valid cube coordinate
/// satisfies the zero constraint: x + y + z = 0.
#[derive(Debug, Copy, Clone, Hash, PartialEq, Eq, Structural)]
pub struct Cube {
    pub x: i32,
    pub y: i32,
    pub z: i32,
}

impl Axial {
    pub fn new(column: i32, row: i32) -> (r: Self)
        ensures
            r == (Axial { column, row }),
    {
        Axial { column, row }
    }

    pub fn column(self) -> (r: i32)
        ensures
            r == self.column,
    {
        self.column
    }

    pub fn row(self) -> (r: i32)
        ensures
            r == self.row,
    {
        self.row
    }

    /// Convert to a cube coordinate by calculating y as the negative sum of
    /// column + row. This conversion always fulfils the zero constraint.
    pub fn cube(self) -> (r: Result<Cube, FailsZeroConstraint>)
        requires
            -AXIAL_LIMIT <= self.column <= AXIAL_LIMIT,
            -AXIAL_LIMIT <= self.row <= AXIAL_LIMIT,
        ensures
            r matches Ok(c) && c == cube_of_axial(self),
    {
        let y: i32 = -(self.column + self.row);
        Cube::construct(self.column, y, self.row)
    }
}

/// The cube coordinate that an axial coordinate denotes.
pub open spec fn cube_of_axial(a: Axial) -> Cube {
    Cube { x: a.column, y: (-(a.column + a.row)) as i32, z: a.row }
}

impl Cube {
    /// The zero constraint each valid cube coordinate satisfies.
    pub open spec fn zero_sum(self) -> bool {
        self.x + self.y + self.z == 0
    }

    /// Within the magnitude bound that keeps one more unit step inside `i32`.
    pub open spec fn bounded(self) -> bool {
        &&& -COORD_LIMIT <= self.x <= COORD_LIMIT
        &&& -COORD_LIMIT <= self.y <= COORD_LIMIT
        &&& -COORD_LIMIT <= self.z <= COORD_LIMIT
    }

    /// Build a cube coordinate, rejecting triples that break the zero
    /// constraint.
    pub fn construct(x: i32, y: i32, z: i32) -> (r: Result<Self, FailsZeroConstraint>)
        ensures
            x + y + z == 0 ==> r == Ok::<Cube, FailsZeroConstraint>(Cube { x, y, z }),
            x + y + z != 0 ==> r == Err::<Cube, FailsZeroConstraint>(
                FailsZeroConstraint { x, y, z },
            ),
    {
        let sum: i64 = x as i64 + y as i64 + z as i64;
        if sum != 0 {
            return Err(FailsZeroConstraint::new(x, y, z));
        }
        Ok(Cube { x, y, z })
    }

    pub fn x(&self) -> (r: i32)
        ensures
            r == self.x,
    {
        self.x
    }

    pub fn y(&self) -> (r: i32)
        ensures
            r == self.y,
    {
        self.y
    }

    pub fn z(&self) -> (r: i32)
        ensures
            r == self.z,
    {
        self.z
    }

    /// Project back onto the axial plane.
    pub fn axial(self) -> (r: Axial)
        ensures
            r == (Axial { column: self.x, row: self.y }),
    {
        Axial { column: self.x, row: self.y }
    }

    /// The six adjacent cube coordinates, clockwise starting at up-right.
    /// Whether they are valid on a grid is another question not answered here.
    pub fn neighbours(&self) -> (r: [Cube; 6])
        requires
            self.bounded(),
        ensures
            r@ == neighbour_seq(*self),
            self.zero_sum() ==> forall|i: int| 0 <= i < 6 ==> (#[trigger] r@[i]).zero_sum(),
    {
        let r = [
            Cube { x: self.x + 1, y: self.y, z: self.z - 1 },
            Cube { x: self.x + 1, y: self.y - 1, z: self.z },
            Cube { x: self.x, y: self.y - 1, z: self.z + 1 },
            Cube { x: self.x - 1, y: self.y, z: self.z + 1 },
            Cube { x: self.x - 1, y: self.y + 1, z: self.z },
            Cube { x: self.x, y: self.y + 1, z: self.z - 1 },
        ];
        proof {
            assert(r@ =~= neighbour_seq(*self));
        }
        r
    }

    /// Only the three neighbours that are right, down-right and down-left.
    /// This is used for scanning operations that cover the entire board while
    /// looking at each adjacent pair once.
    pub fn three_neighbours(&self) -> (r: [Cube; 3])
        requires
            self.bounded(),
        ensures
            r@ == half_neighbour_seq(*self),
            self.zero_sum() ==> forall|i: int| 0 <= i < 3 ==> (#[trigger] r@[i]).zero_sum(),
    {
        let r = [
            Cube { x: self.x + 1, y: self.y - 1, z: self.z },
            Cube { x: self.x, y: self.y - 1, z: self.z + 1 },
            Cube { x: self.x - 1, y: self.y, z: self.z + 1 },
        ];
        proof {
            assert(r@ =~= half_neighbour_seq(*self));
        }
        r
    }
}

/// One unit step from `c`, where the component deltas sum to zero.
pub open spec fn cube_step(c: Cube, dx: int, dy: int, dz: int) -> Cube {
    Cube { x: (c.x + dx) as i32, y: (c.y + dy) as i32, z: (c.z + dz) as i32 }
}

/// The six neighbours of `c`, clockwise starting at up-right.
pub open spec fn neighbour_seq(c: Cube) -> Seq<Cube> {
    seq![
        cube_step(c, 1, 0, -1),
        cube_step(c, 1, -1, 0),
        cube_step(c, 0, -1, 1),
        cube_step(c, -1, 0, 1),
        cube_step(c, -1, 1, 0),
        cube_step(c, 0, 1, -1),
    ]
}

/// The right, down-right and down-left neighbours of `c`.
pub open spec fn half_neighbour_seq(c: Cube) -> Seq<Cube> {
    seq![cube_step(c, 1, -1, 0), cube_step(c, 0, -1, 1), cube_step(c, -1, 0, 1)]
}

} // verus!
