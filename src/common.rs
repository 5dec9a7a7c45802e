use vstd::prelude::*;

verus! {

/// Side length of the cube along every axis.
pub const SIZE: usize = 4;

/// A cell address in the cube.
#[derive(PartialEq, Eq, Structural, Debug, Clone, Copy)]
pub struct Location {
    pub x: usize,
    pub y: usize,
    pub z: usize,
}

impl Location {
    /// Whether every coordinate lies in `[0, 4)`.
    pub open spec fn in_bounds(self) -> bool {
        self.x < SIZE && self.y < SIZE && self.z < SIZE
    }

    /// The position of this cell in the sweep order: x fastest, then y, then z.
    pub open spec fn index(self) -> int {
        self.x + 4 * self.y + 16 * self.z
    }

    pub fn new(x: usize, y: usize, z: usize) -> (r: Self)
        ensures
            r == (Location { x, y, z }),
    {
        Self { x, y, z }
    }
}

impl From<(usize, usize, usize)> for Location {
    fn from(l: (usize, usize, usize)) -> (r: Self) {
        Self::new(l.0, l.1, l.2)
    }
}

impl vstd::std_specs::convert::FromSpecImpl<(usize, usize, usize)> for Location {
    open spec fn obeys_from_spec() -> bool {
        true
    }

    open spec fn from_spec(l: (usize, usize, usize)) -> Location {
        Location { x: l.0, y: l.1, z: l.2 }
    }
}

} // verus!
