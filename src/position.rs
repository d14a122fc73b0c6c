//! Integer lattice coordinates: linear addressing of a cube of cells and
//! toroidal wrap-around.
use vstd::arithmetic::div_mod::{lemma_fundamental_div_mod, lemma_fundamental_div_mod_converse};
use vstd::prelude::*;

verus! {

/// A point of the integer lattice.
#[derive(Clone, Copy, Debug, PartialEq, Eq, Hash, Structural)]
pub struct Position {
    pub x: i32,
    pub y: i32,
    pub z: i32,
}

/// `p` has every axis in `[0, b)`.
pub open spec fn in_cube(p: Position, b: int) -> bool {
    &&& 0 <= p.x < b
    &&& 0 <= p.y < b
    &&& 0 <= p.z < b
}

/// The linear index of `p` in a cube of side `b`: x varies fastest, then y, then z.
pub open spec fn linear_index(p: Position, b: int) -> int {
    p.x + p.y * b + p.z * b * b
}

/// The point of the cube of side `b` whose linear index is `i`.
pub open spec fn position_at(i: int, b: int) -> Position {
    Position { x: (i % b) as i32, y: (i / b % b) as i32, z: (i / b / b) as i32 }
}

/// Toroidal wrap of one axis into `[0, b)` (`%` on `int` is Euclidean).
pub open spec fn wrap_axis(v: int, b: int) -> int {
    v % b
}

pub open spec fn wrapped(p: Position, b: int) -> Position {
    Position {
        x: wrap_axis(p.x as int, b) as i32,
        y: wrap_axis(p.y as int, b) as i32,
        z: wrap_axis(p.z as int, b) as i32,
    }
}

pub open spec fn plus(a: Position, d: Position) -> Position {
    Position { x: (a.x + d.x) as i32, y: (a.y + d.y) as i32, z: (a.z + d.z) as i32 }
}

impl Position {
    /// Componentwise sum with `d`.
    pub fn translated(self, d: Position) -> (r: Position)
        requires
            i32::MIN <= self.x + d.x <= i32::MAX,
            i32::MIN <= self.y + d.y <= i32::MAX,
            i32::MIN <= self.z + d.z <= i32::MAX,
        ensures
            r == plus(self, d),
    {
        Position { x: self.x + d.x, y: self.y + d.y, z: self.z + d.z }
    }

    pub fn new(x: i32, y: i32, z: i32) -> (r: Position)
        ensures
            r == (Position { x, y, z }),
    {
        Position { x, y, z }
    }
}

fn wrap_i32(v: i32, b: i32) -> (r: i32)
    requires
        b > 0,
    ensures
        r == wrap_axis(v as int, b as int),
        0 <= r < b,
{
    let bu = b as u64;
    if v >= 0 {
        let r = (v as u64) % bu;
        proof {
            lemma_fundamental_div_mod(v as int, b as int);
        }
        r as i32
    } else {
        let a = (0i64 - v as i64) as u64;
        let m = a % bu;
        let r = if m == 0 { 0 } else { bu - m };
        proof {
            let k = (a / bu) as int;
            lemma_fundamental_div_mod(a as int, b as int);
            assert(a == k * bu + m) by (nonlinear_arith)
                requires a as int == b * (a as int / b as int) + a as int % b as int, k == a / bu, m == a % bu, bu == b;
            if m == 0 {
                assert(v as int == (-k) * b + 0) by (nonlinear_arith)
                    requires a == k * bu + m, m == 0, v == -(a as int), bu == b;
                lemma_fundamental_div_mod_converse(v as int, b as int, -k, 0);
            } else {
                assert(v as int == (-k - 1) * b + (b - m)) by (nonlinear_arith)
                    requires a == k * bu + m, v == -(a as int), bu == b;
                lemma_fundamental_div_mod_converse(v as int, b as int, -k - 1, r as int);
            }
        }
        r as i32
    }
}

/// Wraps every axis of `position` into `[0, bounds)`, keeping it congruent
/// modulo `bounds` (toroidal topology).
pub fn wrap(position: Position, bounds: i32) -> (r: Position)
    requires
        bounds > 0,
    ensures
        r == wrapped(position, bounds as int),
        in_cube(r, bounds as int),
{
    Position {
        x: wrap_i32(position.x, bounds),
        y: wrap_i32(position.y, bounds),
        z: wrap_i32(position.z, bounds),
    }
}


/// The point of the cube of side `bounds` at linear index `index`.
pub fn index_to_position(index: usize, bounds: i32) -> (r: Position)
    requires
        bounds > 0,
        index < bounds * bounds * bounds,
    ensures
        r == position_at(index as int, bounds as int),
        in_cube(r, bounds as int),
        linear_index(r, bounds as int) == index,
{
    proof {
        lemma_index_position_round_trip(index as int, bounds as int);
    }
    let b = bounds as usize;
    let t = index / b;
    Position { x: (index % b) as i32, y: (t % b) as i32, z: (t / b) as i32 }
}

/// The linear index of a point of the cube of side `bounds`.
pub fn position_to_index(position: Position, bounds: i32) -> (r: usize)
    requires
        bounds > 0,
        in_cube(position, bounds as int),
        bounds * bounds * bounds <= usize::MAX,
    ensures
        r == linear_index(position, bounds as int),
{
    let b = bounds as usize;
    proof {
        lemma_linear_index_bound(position, bounds as int);
        assert(0 <= position.y * b <= (b - 1) * b) by (nonlinear_arith)
            requires 0 <= position.y < b;
        assert(0 <= position.z * b <= b * b * b) by (nonlinear_arith)
            requires 0 <= position.z < b;
        assert(0 <= position.z * b * b <= (b - 1) * b * b) by (nonlinear_arith)
            requires 0 <= position.z < b;
    }
    let x = position.x as usize;
    let y = position.y as usize;
    let z = position.z as usize;
    x + y * b + z * b * b
}

/// The middle point of a cube of side `b`.
pub open spec fn middle(b: int) -> Position {
    Position { x: (b / 2) as i32, y: (b / 2) as i32, z: (b / 2) as i32 }
}

/// The middle point of a cube of side `bounds`.
pub fn center(bounds: i32) -> (r: Position)
    requires
        bounds >= 0,
    ensures
        r == middle(bounds as int),
        r.x == bounds / 2,
        r.y == bounds / 2,
        r.z == bounds / 2,
{
    let c = bounds / 2;
    Position { x: c, y: c, z: c }
}

proof fn lemma_linear_index_bound(p: Position, b: int)
    requires
        b > 0,
        in_cube(p, b),
    ensures
        0 <= linear_index(p, b) < b * b * b,
{
    assert(0 <= linear_index(p, b) < b * b * b) by (nonlinear_arith)
        requires 0 <= p.x < b, 0 <= p.y < b, 0 <= p.z < b, b > 0;
}

/// Reading a linear index back as a point of the cube and addressing that
/// point again gives the same index.
pub proof fn lemma_index_position_round_trip(i: int, b: int)
    requires
        0 < b <= i32::MAX,
        0 <= i < b * b * b,
    ensures
        in_cube(position_at(i, b), b),
        linear_index(position_at(i, b), b) == i,
{
    let t = i / b;
    lemma_fundamental_div_mod(i, b);
    lemma_fundamental_div_mod(t, b);
    assert(0 <= i % b < b);
    assert(0 <= t % b < b);
    assert(0 <= t < b * b) by (nonlinear_arith)
        requires i == b * t + i % b, 0 <= i % b < b, 0 <= i < b * b * b, b > 0;
    assert(0 <= t / b < b) by (nonlinear_arith)
        requires t == b * (t / b) + t % b, 0 <= t % b < b, 0 <= t < b * b, b > 0;
    assert(i == i % b + (t % b) * b + (t / b) * b * b) by (nonlinear_arith)
        requires i == b * t + i % b, t == b * (t / b) + t % b;
}

/// Addressing a point of the cube and reading the index back gives the same
/// point.
pub proof fn lemma_position_index_round_trip(p: Position, b: int)
    requires
        b > 0,
        in_cube(p, b),
    ensures
        0 <= linear_index(p, b) < b * b * b,
        position_at(linear_index(p, b), b) == p,
{
    let i = linear_index(p, b);
    lemma_linear_index_bound(p, b);
    assert(i == (p.y + p.z * b) * b + p.x) by (nonlinear_arith)
        requires i == p.x + p.y * b + p.z * b * b;
    lemma_fundamental_div_mod_converse(i, b, p.y + p.z * b, p.x as int);
    lemma_fundamental_div_mod_converse(p.y + p.z * b, b, p.z as int, p.y as int);
}

/// Wrapping lands in the cube and keeps every axis congruent modulo `b`.
pub proof fn lemma_wrap_congruent(p: Position, b: int)
    requires
        0 < b <= i32::MAX,
    ensures
        in_cube(wrapped(p, b), b),
        (wrapped(p, b).x - p.x) % b == 0,
        (wrapped(p, b).y - p.y) % b == 0,
        (wrapped(p, b).z - p.z) % b == 0,
{
    lemma_wrap_axis(p.x as int, b);
    lemma_wrap_axis(p.y as int, b);
    lemma_wrap_axis(p.z as int, b);
}

proof fn lemma_wrap_axis(v: int, b: int)
    requires
        b > 0,
    ensures
        0 <= wrap_axis(v, b) < b,
        (wrap_axis(v, b) - v) % b == 0,
{
    lemma_fundamental_div_mod(v, b);
    assert(wrap_axis(v, b) - v == (-(v / b)) * b) by (nonlinear_arith)
        requires v == b * (v / b) + v % b, wrap_axis(v, b) == v % b;
    lemma_fundamental_div_mod_converse(wrap_axis(v, b) - v, b, -(v / b), 0);
}

} // verus!
