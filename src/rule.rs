//! The parameters of an automaton: survival and birth tables over neighbour
//! counts, the decay span, the domain size and the neighbour topology.
use crate::neighbours::NeighbourMethod;
use crate::position::Position;
use std::ops::RangeInclusive;
use vstd::prelude::*;

verus! {

/// A set of neighbour counts in `0..=26`, held as a lookup table.
#[derive(Clone, Copy, Debug)]
pub struct Value(pub [bool; 27]);

impl Value {
    /// Whether count `n` belongs to the set.
    pub open spec fn has(self, n: int) -> bool {
        self.0@[n]
    }

    /// The set holding exactly the given counts.
    pub fn new(indices: &[u8]) -> (r: Value)
        requires
            forall|i: int| 0 <= i < indices@.len() ==> indices@[i] < 27,
        ensures
            forall|n: int| 0 <= n < 27 ==> (r.has(n) <==> indices@.contains(n as u8)),
    {
        let mut table = [false; 27];
        let mut i: usize = 0;
        while i < indices.len()
            invariant
                i <= indices@.len(),
                forall|j: int| 0 <= j < indices@.len() ==> indices@[j] < 27,
                forall|n: int|
                    0 <= n < 27 ==> (table@[n] <==> indices@.subrange(0, i as int).contains(
                        n as u8,
                    )),
            decreases indices@.len() - i,
        {
            let v = indices[i];
            table[v as usize] = true;
            proof {
                assert forall|n: int| 0 <= n < 27 implies (table@[n]
                    <==> indices@.subrange(0, i + 1).contains(n as u8)) by {
                    let s = indices@.subrange(0, i + 1);
                    if table@[n] && n != v {
                        let w = choose|w: int|
                            0 <= w < i && indices@.subrange(0, i as int)[w] == n as u8;
                        assert(s[w] == n as u8);
                    }
                    if s.contains(n as u8) {
                        let w = choose|w: int| 0 <= w < s.len() && s[w] == n as u8;
                        if w < i {
                            assert(indices@.subrange(0, i as int)[w] == n as u8);
                        }
                    }
                    if n == v {
                        assert(s[i as int] == v);
                    }
                }
            }
            i = i + 1;
        }
        assert(indices@.subrange(0, indices@.len() as int) =~= indices@);
        Value(table)
    }

    /// The set holding the counts `first..=last`.
    pub fn from_range(first: u8, last: u8) -> (r: Value)
        requires
            first > last || last < 27,
        ensures
            forall|n: int| 0 <= n < 27 ==> (r.has(n) <==> first <= n <= last),
    {
        let mut table = [false; 27];
        if first <= last {
            let mut i: u8 = first;
            while i <= last
                invariant
                    first <= i <= last + 1,
                    last < 27,
                    forall|n: int| 0 <= n < 27 ==> (table@[n] <==> first <= n < i),
                decreases last + 1 - i,
            {
                table[i as usize] = true;
                i = i + 1;
            }
        }
        Value(table)
    }

    /// Whether count `value` belongs to the set.
    pub fn in_range(&self, value: u8) -> (r: bool)
        requires
            value < 27,
        ensures
            r == self.has(value as int),
    {
        self.0[value as usize]
    }
}

/// The parameters of an automaton.
#[derive(Clone, Copy, Debug)]
pub struct Rule {
    /// Counts under which a fully alive cell stays alive.
    pub survival_rule: Value,
    /// Counts under which a dead cell is born.
    pub birth_rule: Value,
    /// The value of a newly born cell; it then decays by one per tick.
    pub states: u8,
    /// The side of the simulated cube.
    pub bounding_size: i32,
    pub neighbour_method: NeighbourMethod,
}

impl Rule {
    /// The inclusive coordinate range of the domain on each axis.
    pub fn get_bounding_ranges(&self) -> (r: (RangeInclusive<i32>, RangeInclusive<i32>, RangeInclusive<i32>))
        requires
            self.bounding_size > i32::MIN,
        ensures
            r.0@.start == 0 && r.0@.end == self.bounding_size - 1,
            r.1@.start == 0 && r.1@.end == self.bounding_size - 1,
            r.2@.start == 0 && r.2@.end == self.bounding_size - 1,
    {
        let last = self.bounding_size - 1;
        (RangeInclusive::new(0, last), RangeInclusive::new(0, last), RangeInclusive::new(0, last))
    }

    /// The middle point of the domain.
    pub fn center(&self) -> (r: Position)
        requires
            self.bounding_size >= 0,
        ensures
            r.x == self.bounding_size / 2,
            r.y == self.bounding_size / 2,
            r.z == self.bounding_size / 2,
    {
        crate::position::center(self.bounding_size)
    }
}

} // verus!
