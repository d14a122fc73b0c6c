//! Neighbour topologies of the lattice: the 26-connected Moore neighbourhood
//! and the 6-connected von Neumann neighbourhood.
use crate::position::Position;
use vstd::prelude::*;

verus! {

#[derive(Clone, Copy, Debug, PartialEq, Eq, Structural)]
pub enum NeighbourMethod {
    Moore,
    VonNeuman,
}

/// Offset `m` of the 27 offsets of `{-1, 0, 1}^3`, x varying fastest.
pub open spec fn cube_offset(m: int) -> Position {
    Position { x: (m % 3 - 1) as i32, y: (m / 3 % 3 - 1) as i32, z: (m / 9 - 1) as i32 }
}

/// The `k`-th Moore offset: the cube offsets without the centre (offset 13).
pub open spec fn moore_direction(k: int) -> Position {
    if k < 13 {
        cube_offset(k)
    } else {
        cube_offset(k + 1)
    }
}

pub open spec fn von_neumann_direction(k: int) -> Position {
    if k == 0 {
        Position { x: 1, y: 0, z: 0 }
    } else if k == 1 {
        Position { x: -1i32, y: 0, z: 0 }
    } else if k == 2 {
        Position { x: 0, y: 1, z: 0 }
    } else if k == 3 {
        Position { x: 0, y: -1i32, z: 0 }
    } else if k == 4 {
        Position { x: 0, y: 0, z: -1i32 }
    } else {
        Position { x: 0, y: 0, z: 1 }
    }
}

impl NeighbourMethod {
    /// How many neighbours a cell has under this topology.
    pub open spec fn size(self) -> nat {
        match self {
            NeighbourMethod::Moore => 26,
            NeighbourMethod::VonNeuman => 6,
        }
    }

    /// The `k`-th neighbour offset, for `k < size()`.
    pub open spec fn direction(self, k: int) -> Position {
        match self {
            NeighbourMethod::Moore => moore_direction(k),
            NeighbourMethod::VonNeuman => von_neumann_direction(k),
        }
    }

    /// All neighbour offsets, in order.
    pub open spec fn directions(self) -> Seq<Position> {
        Seq::new(self.size(), |k: int| self.direction(k))
    }

    pub fn neighbour_count(&self) -> (r: usize)
        ensures
            r == self.size(),
    {
        match self {
            NeighbourMethod::Moore => 26,
            NeighbourMethod::VonNeuman => 6,
        }
    }

    /// The `k`-th neighbour offset.
    pub fn offset(&self, k: usize) -> (r: Position)
        requires
            k < self.size(),
        ensures
            r == self.direction(k as int),
            -1 <= r.x <= 1,
            -1 <= r.y <= 1,
            -1 <= r.z <= 1,
    {
        match self {
            NeighbourMethod::Moore => {
                let m: usize = if k < 13 { k } else { k + 1 };
                let x = (m % 3) as i32 - 1;
                let y = (m / 3 % 3) as i32 - 1;
                let z = (m / 9) as i32 - 1;
                Position { x, y, z }
            },
            NeighbourMethod::VonNeuman => {
                if k == 0 {
                    Position { x: 1, y: 0, z: 0 }
                } else if k == 1 {
                    Position { x: -1, y: 0, z: 0 }
                } else if k == 2 {
                    Position { x: 0, y: 1, z: 0 }
                } else if k == 3 {
                    Position { x: 0, y: -1, z: 0 }
                } else if k == 4 {
                    Position { x: 0, y: 0, z: -1 }
                } else {
                    Position { x: 0, y: 0, z: 1 }
                }
            },
        }
    }

    /// The neighbour offsets of this topology, in order.
    pub fn get_neighbour_iter(&self) -> (r: Vec<Position>)
        ensures
            r@ == self.directions(),
    {
        let n = self.neighbour_count();
        let mut r: Vec<Position> = Vec::new();
        let mut k: usize = 0;
        while k < n
            invariant
                n == self.size(),
                k <= n,
                r@ == Seq::new(k as nat, |j: int| self.direction(j)),
            decreases n - k,
        {
            r.push(self.offset(k));
            k = k + 1;
            assert(r@ =~= Seq::new(k as nat, |j: int| self.direction(j)));
        }
        assert(r@ =~= self.directions());
        r
    }
}

} // verus!
