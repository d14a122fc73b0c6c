//! Dense storage: a cube of chunks, each a cube of `CHUNK_SIZE`³ cells.
//!
//! Cells are addressed by a global index `chunk * CHUNK_CELL_COUNT + offset`.
//! The chunk collection only grows, and grows by appending, so a chunk keeps
//! its index for the lifetime of the grid.
use crate::position::{in_cube, index_to_position, linear_index, position_at, position_to_index, Position};
use vstd::prelude::*;

verus! {

pub const CHUNK_SIZE: usize = 32;

pub const CHUNK_CELL_COUNT: usize = 32768;

/// The largest chunk radius whose cells can all be addressed by a `usize`
/// index and whose side fits an `i32`.
pub const MAX_CHUNK_RADIUS: usize = 50;

/// A cell of the dense grid.
#[derive(Clone, Copy, Debug, PartialEq, Eq, Structural)]
pub struct Cell {
    /// 0 when dead, `states` when fully alive, in between while decaying.
    pub value: u8,
    /// How many fully alive cells are adjacent.
    pub neighbours: u8,
}

impl Cell {
    pub fn is_dead(self) -> (r: bool)
        ensures
            r == (self.value == 0),
    {
        self.value == 0
    }
}

pub open spec fn dead_cell() -> Cell {
    Cell { value: 0, neighbours: 0 }
}

/// The chunk that holds global index `index`.
pub fn index_to_chunk_index(index: usize) -> (r: usize)
    ensures
        r == index / CHUNK_CELL_COUNT,
{
    index / CHUNK_CELL_COUNT
}

/// The offset inside its chunk of global index `index`.
pub fn index_to_chunk_offset(index: usize) -> (r: usize)
    ensures
        r == index % CHUNK_CELL_COUNT,
        r < CHUNK_CELL_COUNT,
{
    index % CHUNK_CELL_COUNT
}

/// A cube of `CHUNK_SIZE`³ cells, in linear order.
#[derive(Clone, Debug)]
pub struct Chunk(pub Vec<Cell>);

impl Chunk {
    pub open spec fn wf(self) -> bool {
        self.0@.len() == CHUNK_CELL_COUNT
    }

    /// A chunk of dead cells.
    pub fn dead() -> (r: Chunk)
        ensures
            r.wf(),
            forall|i: int| 0 <= i < CHUNK_CELL_COUNT ==> r.0@[i] == dead_cell(),
    {
        let mut cells: Vec<Cell> = Vec::with_capacity(CHUNK_CELL_COUNT);
        let mut i: usize = 0;
        while i < CHUNK_CELL_COUNT
            invariant
                i <= CHUNK_CELL_COUNT,
                cells@.len() == i,
                forall|j: int| 0 <= j < i ==> cells@[j] == dead_cell(),
            decreases CHUNK_CELL_COUNT - i,
        {
            cells.push(Cell { value: 0, neighbours: 0 });
            i = i + 1;
        }
        Chunk(cells)
    }

    /// The local position of offset `index`.
    pub fn index_to_position(index: usize) -> (r: Position)
        requires
            index < CHUNK_CELL_COUNT,
        ensures
            r == position_at(index as int, CHUNK_SIZE as int),
            in_cube(r, CHUNK_SIZE as int),
            linear_index(r, CHUNK_SIZE as int) == index,
    {
        index_to_position(index, CHUNK_SIZE as i32)
    }

    /// The offset of local position `position`.
    pub fn position_to_index(position: Position) -> (r: usize)
        requires
            in_cube(position, CHUNK_SIZE as int),
        ensures
            r == linear_index(position, CHUNK_SIZE as int),
            r < CHUNK_CELL_COUNT,
    {
        proof {
            crate::position::lemma_position_index_round_trip(position, CHUNK_SIZE as int);
        }
        position_to_index(position, CHUNK_SIZE as i32)
    }

    /// Whether `position` lies within `offset` of a face of the chunk.
    pub fn is_border_position(position: Position, offset: i32) -> (r: bool)
        ensures
            r == on_border(position, offset as int),
    {
        let last = CHUNK_SIZE as i64 - 1;
        let o = offset as i64;
        position.x as i64 - o <= 0 || position.x as i64 + o >= last || position.y as i64 - o <= 0
            || position.y as i64 + o >= last || position.z as i64 - o <= 0 || position.z as i64
            + o >= last
    }
}

impl Default for Chunk {
    fn default() -> (r: Chunk)
        ensures
            r.wf(),
            forall|i: int| 0 <= i < CHUNK_CELL_COUNT ==> r.0@[i] == dead_cell(),
    {
        Chunk::dead()
    }
}

pub open spec fn on_border(p: Position, offset: int) -> bool {
    let last = CHUNK_SIZE - 1;
    p.x - offset <= 0 || p.x + offset >= last || p.y - offset <= 0 || p.y + offset >= last || p.z
        - offset <= 0 || p.z + offset >= last
}

/// The position of global index `i` in a grid of chunk radius `r`.
pub open spec fn grid_position(i: int, r: int) -> Position {
    let c = position_at(i / CHUNK_CELL_COUNT as int, r);
    let o = position_at(i % CHUNK_CELL_COUNT as int, CHUNK_SIZE as int);
    Position {
        x: (CHUNK_SIZE * c.x + o.x) as i32,
        y: (CHUNK_SIZE * c.y + o.y) as i32,
        z: (CHUNK_SIZE * c.z + o.z) as i32,
    }
}

/// The global index of position `p` in a grid of chunk radius `r`.
pub open spec fn grid_index(p: Position, r: int) -> int {
    let s = CHUNK_SIZE as int;
    let c = Position {
        x: (p.x as int / s) as i32,
        y: (p.y as int / s) as i32,
        z: (p.z as int / s) as i32,
    };
    let o = Position {
        x: (p.x as int % s) as i32,
        y: (p.y as int % s) as i32,
        z: (p.z as int % s) as i32,
    };
    linear_index(c, r) * CHUNK_CELL_COUNT + linear_index(o, s)
}

/// A cube of chunks of side `chunk_radius`.
#[derive(Clone, Debug)]
pub struct Chunks {
    pub chunks: Vec<Chunk>,
    pub chunk_radius: usize,
    pub chunk_count: usize,
}

impl Chunks {
    pub open spec fn wf(self) -> bool {
        &&& self.chunk_radius <= MAX_CHUNK_RADIUS
        &&& self.chunk_count == self.chunk_radius * self.chunk_radius * self.chunk_radius
        &&& self.chunks@.len() == self.chunk_count
        &&& forall|c: int| 0 <= c < self.chunks@.len() ==> #[trigger] self.chunks@[c].wf()
    }

    /// The side of the simulated cube.
    pub open spec fn side(self) -> int {
        self.chunk_radius * CHUNK_SIZE
    }

    /// The number of cells.
    pub open spec fn cell_total(self) -> int {
        self.chunk_count * CHUNK_CELL_COUNT
    }

    /// The cell at global index `i`.
    pub open spec fn cell(self, i: int) -> Cell {
        self.chunks@[i / (CHUNK_CELL_COUNT as int)].0@[i % (CHUNK_CELL_COUNT as int)]
    }

    /// An empty grid.
    pub fn new() -> (r: Chunks)
        ensures
            r.wf(),
            r.chunk_radius == 0,
    {
        Chunks { chunks: Vec::new(), chunk_radius: 0, chunk_count: 0 }
    }

    /// The side of the simulated cube.
    pub fn bounds(&self) -> (r: i32)
        requires
            self.wf(),
        ensures
            r == self.side(),
    {
        (self.chunk_radius * CHUNK_SIZE) as i32
    }

    pub(crate) fn index_to_position_ex(index: usize, chunk_radius: usize) -> (r: Position)
        requires
            1 <= chunk_radius <= MAX_CHUNK_RADIUS,
            index < chunk_radius * chunk_radius * chunk_radius * CHUNK_CELL_COUNT,
        ensures
            r == grid_position(index as int, chunk_radius as int),
            in_cube(r, chunk_radius * CHUNK_SIZE),
    {
        let chunk = index_to_chunk_index(index);
        let offset = index_to_chunk_offset(index);
        proof {
            lemma_radius_bounds(chunk_radius as int);
            assert(chunk < chunk_radius * chunk_radius * chunk_radius) by (nonlinear_arith)
                requires
                    chunk as int == index as int / CHUNK_CELL_COUNT as int,
                    index < chunk_radius * chunk_radius * chunk_radius * CHUNK_CELL_COUNT,
            ;
        }
        let chunk_vector = index_to_position(chunk, chunk_radius as i32);
        let offset_vector = Chunk::index_to_position(offset);
        proof {
            assert(CHUNK_SIZE * chunk_vector.x + offset_vector.x < chunk_radius * CHUNK_SIZE) by (nonlinear_arith)
                requires chunk_vector.x < chunk_radius, offset_vector.x < CHUNK_SIZE;
            assert(CHUNK_SIZE * chunk_vector.y + offset_vector.y < chunk_radius * CHUNK_SIZE) by (nonlinear_arith)
                requires chunk_vector.y < chunk_radius, offset_vector.y < CHUNK_SIZE;
            assert(CHUNK_SIZE * chunk_vector.z + offset_vector.z < chunk_radius * CHUNK_SIZE) by (nonlinear_arith)
                requires chunk_vector.z < chunk_radius, offset_vector.z < CHUNK_SIZE;
        }
        let s = CHUNK_SIZE as i32;
        Position {
            x: s * chunk_vector.x + offset_vector.x,
            y: s * chunk_vector.y + offset_vector.y,
            z: s * chunk_vector.z + offset_vector.z,
        }
    }

    pub(crate) fn position_to_index_ex(vector: Position, chunk_radius: usize) -> (r: usize)
        requires
            1 <= chunk_radius <= MAX_CHUNK_RADIUS,
            in_cube(vector, chunk_radius * CHUNK_SIZE),
        ensures
            r == grid_index(vector, chunk_radius as int),
            r < chunk_radius * chunk_radius * chunk_radius * CHUNK_CELL_COUNT,
    {
        let s = CHUNK_SIZE as i32;
        let chunk_vector = Position { x: vector.x / s, y: vector.y / s, z: vector.z / s };
        let offset_vector = Position { x: vector.x % s, y: vector.y % s, z: vector.z % s };
        proof {
            lemma_radius_bounds(chunk_radius as int);
            assert(in_cube(chunk_vector, chunk_radius as int)) by (nonlinear_arith)
                requires
                    0 <= vector.x < chunk_radius * 32,
                    0 <= vector.y < chunk_radius * 32,
                    0 <= vector.z < chunk_radius * 32,
                    chunk_vector.x == vector.x / 32,
                    chunk_vector.y == vector.y / 32,
                    chunk_vector.z == vector.z / 32,
            ;
            crate::position::lemma_position_index_round_trip(chunk_vector, chunk_radius as int);
        }
        let chunk = position_to_index(chunk_vector, chunk_radius as i32);
        let offset = Chunk::position_to_index(offset_vector);
        proof {
            let r3 = chunk_radius * chunk_radius * chunk_radius;
            assert(chunk * CHUNK_CELL_COUNT + offset < r3 * CHUNK_CELL_COUNT) by (nonlinear_arith)
                requires chunk < r3, offset < CHUNK_CELL_COUNT;
        }
        chunk * CHUNK_CELL_COUNT + offset
    }

    /// The position of global index `index`.
    pub fn index_to_position(&self, index: usize) -> (r: Position)
        requires
            self.wf(),
            self.chunk_radius >= 1,
            index < self.cell_total(),
        ensures
            r == grid_position(index as int, self.chunk_radius as int),
            in_cube(r, self.side()),
    {
        Chunks::index_to_position_ex(index, self.chunk_radius)
    }

    /// The global index of `position`.
    pub fn position_to_index(&self, position: Position) -> (r: usize)
        requires
            self.wf(),
            self.chunk_radius >= 1,
            in_cube(position, self.side()),
        ensures
            r == grid_index(position, self.chunk_radius as int),
            r < self.cell_total(),
    {
        Chunks::position_to_index_ex(position, self.chunk_radius)
    }

    /// Grows the grid so that its side is at least `new_bounds`, rounded up to
    /// whole chunks, and returns the side. A smaller request leaves the grid
    /// as it is: storage never shrinks. Chunks that exist keep their index and
    /// their cells; new chunks are dead and appended at the end.
    pub fn set_bounds(&mut self, new_bounds: i32) -> (r: i32)
        requires
            old(self).wf(),
            0 <= new_bounds <= MAX_CHUNK_RADIUS * CHUNK_SIZE,
        ensures
            final(self).wf(),
            final(self).chunk_radius == if radius_for(new_bounds as int) > old(self).chunk_radius {
                radius_for(new_bounds as int)
            } else {
                old(self).chunk_radius as int
            },
            r == final(self).side(),
            r >= new_bounds,
            final(self).chunks@.subrange(0, old(self).chunks@.len() as int) == old(self).chunks@,
            forall|c: int, i: int|
                old(self).chunks@.len() <= c < final(self).chunks@.len() && 0 <= i
                    < CHUNK_CELL_COUNT ==> #[trigger] final(self).chunks@[c].0@[i] == dead_cell(),
    {
        let radius = (new_bounds as usize + CHUNK_SIZE - 1) / CHUNK_SIZE;
        if radius > self.chunk_radius {
            proof {
                lemma_radius_bounds(radius as int);
            }
            let count = radius * radius * radius;
            proof {
                let (a, b) = (self.chunk_radius as int, radius as int);
                assert(a * a * a <= b * b * b) by (nonlinear_arith)
                    requires 0 <= a < b;
            }
            let ghost before = self.chunks@;
            while self.chunks.len() < count
                invariant
                    before.len() <= self.chunks@.len() <= count,
                    self.chunks@.subrange(0, before.len() as int) == before,
                    forall|c: int| 0 <= c < self.chunks@.len() ==> #[trigger] self.chunks@[c].wf(),
                    forall|c: int, i: int|
                        before.len() <= c < self.chunks@.len() && 0 <= i < CHUNK_CELL_COUNT
                            ==> #[trigger] self.chunks@[c].0@[i] == dead_cell(),
                decreases count - self.chunks@.len(),
            {
                self.chunks.push(Chunk::dead());
                assert(self.chunks@.subrange(0, before.len() as int) =~= before);
            }
            self.chunk_radius = radius;
            self.chunk_count = count;
        } else {
            assert(self.chunks@.subrange(0, self.chunks@.len() as int) =~= self.chunks@);
        }
        proof {
            assert(self.chunk_radius * CHUNK_SIZE >= new_bounds) by (nonlinear_arith)
                requires
                    self.chunk_radius >= radius,
                    radius == (new_bounds + 31) / 32,
                    new_bounds >= 0,
            ;
        }
        self.bounds()
    }
}

/// A global index of a grid of chunk radius `r` names a point of the grid,
/// and addressing that point gives the index back.
pub proof fn lemma_grid_index_round_trip(i: int, r: int)
    requires
        1 <= r <= MAX_CHUNK_RADIUS,
        0 <= i < r * r * r * CHUNK_CELL_COUNT,
    ensures
        in_cube(grid_position(i, r), r * CHUNK_SIZE),
        grid_index(grid_position(i, r), r) == i,
{
    let n = CHUNK_CELL_COUNT as int;
    let s = CHUNK_SIZE as int;
    let c = i / n;
    let o = i % n;
    vstd::arithmetic::div_mod::lemma_fundamental_div_mod(i, n);
    assert(0 <= c < r * r * r) by (nonlinear_arith)
        requires i == n * c + o, 0 <= o < n, 0 <= i < r * r * r * n, n > 0;
    crate::position::lemma_index_position_round_trip(c, r);
    crate::position::lemma_index_position_round_trip(o, s);
    let cv = position_at(c, r);
    let ov = position_at(o, s);
    let p = grid_position(i, r);
    lemma_axis_split(cv.x as int, ov.x as int, r);
    lemma_axis_split(cv.y as int, ov.y as int, r);
    lemma_axis_split(cv.z as int, ov.z as int, r);
    assert(grid_index(p, r) == linear_index(cv, r) * n + linear_index(ov, s));
}

pub(crate) proof fn lemma_axis_split(a: int, w: int, r: int)
    requires
        1 <= r <= MAX_CHUNK_RADIUS,
        0 <= a < r,
        0 <= w < CHUNK_SIZE,
    ensures
        0 <= CHUNK_SIZE * a + w < r * CHUNK_SIZE,
        (CHUNK_SIZE * a + w) / (CHUNK_SIZE as int) == a,
        (CHUNK_SIZE * a + w) % (CHUNK_SIZE as int) == w,
{
    vstd::arithmetic::div_mod::lemma_fundamental_div_mod_converse(CHUNK_SIZE * a + w, CHUNK_SIZE as int, a, w);
    assert(CHUNK_SIZE * a + w < r * CHUNK_SIZE) by (nonlinear_arith)
        requires 0 <= a < r, 0 <= w < 32;
}

/// A point of a grid of chunk radius `r` has a global index, and reading
/// that index back gives the point.
pub proof fn lemma_grid_position_round_trip(p: Position, r: int)
    requires
        1 <= r <= MAX_CHUNK_RADIUS,
        in_cube(p, r * CHUNK_SIZE),
    ensures
        0 <= grid_index(p, r) < r * r * r * CHUNK_CELL_COUNT,
        grid_position(grid_index(p, r), r) == p,
{
    let n = CHUNK_CELL_COUNT as int;
    let s = CHUNK_SIZE as int;
    let cv = Position { x: (p.x as int / s) as i32, y: (p.y as int / s) as i32, z: (p.z as int / s) as i32 };
    let ov = Position { x: (p.x as int % s) as i32, y: (p.y as int % s) as i32, z: (p.z as int % s) as i32 };
    vstd::arithmetic::div_mod::lemma_fundamental_div_mod(p.x as int, s);
    vstd::arithmetic::div_mod::lemma_fundamental_div_mod(p.y as int, s);
    vstd::arithmetic::div_mod::lemma_fundamental_div_mod(p.z as int, s);
    assert(in_cube(cv, r)) by (nonlinear_arith)
        requires
            0 <= p.x < r * 32, 0 <= p.y < r * 32, 0 <= p.z < r * 32,
            cv.x == p.x / 32, cv.y == p.y / 32, cv.z == p.z / 32,
    ;
    assert(in_cube(ov, s));
    crate::position::lemma_position_index_round_trip(cv, r);
    crate::position::lemma_position_index_round_trip(ov, s);
    let c = linear_index(cv, r);
    let o = linear_index(ov, s);
    assert(0 <= c * n + o < r * r * r * n) by (nonlinear_arith)
        requires 0 <= c < r * r * r, 0 <= o < n, n > 0;
    vstd::arithmetic::div_mod::lemma_fundamental_div_mod_converse(c * n + o, n, c, o);
}

/// The chunk radius that a requested side needs.
pub open spec fn radius_for(bounds: int) -> int {
    (bounds + CHUNK_SIZE - 1) / CHUNK_SIZE as int
}

pub(crate) proof fn lemma_radius_bounds(r: int)
    requires
        0 <= r <= MAX_CHUNK_RADIUS,
    ensures
        r * r <= MAX_CHUNK_RADIUS * MAX_CHUNK_RADIUS,
        r * r * r <= MAX_CHUNK_RADIUS * MAX_CHUNK_RADIUS * MAX_CHUNK_RADIUS,
        r * r * r * CHUNK_CELL_COUNT <= usize::MAX,
        r * CHUNK_SIZE <= i32::MAX,
{
    assert(r * r <= 50 * 50) by (nonlinear_arith)
        requires 0 <= r <= 50;
    assert(r * r * r <= 50 * 50 * 50) by (nonlinear_arith)
        requires 0 <= r <= 50;
    assert(r * r * r * 32768 <= 50 * 50 * 50 * 32768) by (nonlinear_arith)
        requires r * r * r <= 50 * 50 * 50;
}

} // verus!
