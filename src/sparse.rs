//! The phased simulation over a sparse map of live cells.
//!
//! A tick runs as a state machine that a driver advances once per frame:
//! `Ready → CalculateNeighbours → AwaitNeighbours → CalculateChanges →
//! AwaitChanges → Ready`. In the two `Calculate` steps the machine hands out
//! buckets of keys; the driver runs a job on each bucket (`neighbour_job`,
//! `change_job`), possibly over several frames, and hands all results back
//! through `finish_neighbours` and `finish_changes`.
//!
//! Cells live in a cube of side `bound` and are keyed by their linear index.
use crate::neighbours::NeighbourMethod;
use crate::position::{in_cube, linear_index, middle, plus, position_at, wrap, wrapped, Position};
use crate::census::{full_neighbours, is_full, lemma_neighbour_census, lemma_trues_bound};
use crate::noise::{within, NOISE_AMOUNT, NOISE_RADIUS};
use crate::rule::Rule;
use crate::dense::{allows, CellRecord};
use std::collections::HashMap;
use vstd::prelude::*;

verus! {

broadcast use vstd::std_specs::hash::group_hash_axioms;

/// The largest side of a sparse domain: its keys then fit in 63 bits.
pub const MAX_SPARSE_BOUND: i32 = 2097152;

/// A live cell of the sparse map.
#[derive(Clone, Copy, Debug, PartialEq, Eq, Structural)]
pub struct CellState {
    /// `states` when fully alive, less while decaying; never 0 in the map.
    pub value: u8,
    /// The neighbour count when the cell was born.
    pub neighbours: u8,
}

/// What a change job decided for one key.
#[derive(Clone, Copy, Debug, PartialEq, Eq, Structural)]
pub enum StateChange {
    Decay,
    Spawn { neighbours: u8 },
}

#[derive(Clone, Copy, Debug, PartialEq, Eq, Structural)]
pub enum ProcessStep {
    Ready,
    CalculateNeighbours,
    AwaitNeighbours,
    CalculateChanges,
    /// Also applies the changes once they are all in.
    AwaitChanges,
}

pub open spec fn next_step(s: ProcessStep) -> ProcessStep {
    match s {
        ProcessStep::Ready => ProcessStep::CalculateNeighbours,
        ProcessStep::CalculateNeighbours => ProcessStep::AwaitNeighbours,
        ProcessStep::AwaitNeighbours => ProcessStep::CalculateChanges,
        ProcessStep::CalculateChanges => ProcessStep::AwaitChanges,
        ProcessStep::AwaitChanges => ProcessStep::Ready,
    }
}

impl ProcessStep {
    pub fn advance_to_next_step(&mut self)
        ensures
            *final(self) == next_step(*old(self)),
    {
        match self {
            ProcessStep::Ready => *self = ProcessStep::CalculateNeighbours,
            ProcessStep::CalculateNeighbours => *self = ProcessStep::AwaitNeighbours,
            ProcessStep::AwaitNeighbours => *self = ProcessStep::CalculateChanges,
            ProcessStep::CalculateChanges => *self = ProcessStep::AwaitChanges,
            ProcessStep::AwaitChanges => *self = ProcessStep::Ready,
        }
    }
}

/// The number of keys of a cube of side `b`.
pub open spec fn cube(b: int) -> int {
    b * b * b
}

pub proof fn lemma_cube_bound_pub(b: int)
    requires
        1 <= b <= MAX_SPARSE_BOUND,
    ensures
        0 < cube(b) <= 0x8000_0000_0000_0000,
{
    lemma_cube_bound(b);
}

proof fn lemma_cube_bound(b: int)
    requires
        1 <= b <= MAX_SPARSE_BOUND,
    ensures
        0 < cube(b) <= 0x8000_0000_0000_0000,
        b * b <= 0x1000_0000_0000,
{
    assert(b * b <= 2097152 * 2097152) by (nonlinear_arith)
        requires 1 <= b <= 2097152;
    assert(cube(b) <= 2097152 * 2097152 * 2097152) by (nonlinear_arith)
        requires 1 <= b <= 2097152, b * b <= 2097152 * 2097152;
    assert(cube(b) > 0) by (nonlinear_arith)
        requires 1 <= b;
}

/// The key of a point of the cube of side `b`.
pub fn key_of(p: Position, b: i32) -> (r: u64)
    requires
        1 <= b <= MAX_SPARSE_BOUND,
        in_cube(p, b as int),
    ensures
        r == linear_index(p, b as int),
        r < cube(b as int),
{
    proof {
        lemma_cube_bound(b as int);
        crate::position::lemma_position_index_round_trip(p, b as int);
        assert(0 <= p.y * b <= b * b) by (nonlinear_arith)
            requires 0 <= p.y < b;
        assert(0 <= p.z * b * b <= b * b * b) by (nonlinear_arith)
            requires 0 <= p.z < b;
        assert(0 <= p.z * b <= b * b) by (nonlinear_arith)
            requires 0 <= p.z < b;
    }
    let bb = b as u64;
    p.x as u64 + p.y as u64 * bb + p.z as u64 * bb * bb
}

/// The point of the cube of side `b` with key `k`.
pub fn position_of_key(k: u64, b: i32) -> (r: Position)
    requires
        1 <= b <= MAX_SPARSE_BOUND,
        k < cube(b as int),
    ensures
        r == position_at(k as int, b as int),
        in_cube(r, b as int),
        linear_index(r, b as int) == k,
{
    proof {
        crate::position::lemma_index_position_round_trip(k as int, b as int);
    }
    let bb = b as u64;
    let t = k / bb;
    Position { x: (k % bb) as i32, y: (t % bb) as i32, z: (t / bb) as i32 }
}

/// The keys of the neighbours of key `k`, wrapping around the faces.
pub open spec fn sparse_targets(method: NeighbourMethod, k: int, b: int) -> Seq<u64> {
    method.directions().map_values(
        |d: Position| linear_index(wrapped(plus(position_at(k, b), d), b), b) as u64,
    )
}

/// The concatenation of the buckets of `s`.
pub open spec fn flat<T>(s: Seq<Vec<T>>) -> Seq<T>
    decreases s.len(),
{
    if s.len() == 0 {
        seq![]
    } else {
        flat(s.drop_last()) + s.last()@
    }
}

/// What the neighbour job of `bucket` emits: for each fully alive cell of the
/// bucket, the keys of its neighbours.
pub open spec fn emitted(states: Map<u64, CellState>, bucket: Seq<u64>, full: u8, method: NeighbourMethod, b: int) -> Seq<u64>
    decreases bucket.len(),
{
    if bucket.len() == 0 {
        seq![]
    } else {
        let k = bucket.last();
        emitted(states, bucket.drop_last(), full, method, b) + if states.contains_key(k)
            && states[k].value == full {
            sparse_targets(method, k as int, b)
        } else {
            seq![]
        }
    }
}

/// The count that a key has in `neighbours`, 0 when absent.
pub open spec fn count_of(neighbours: Map<u64, u8>, k: u64) -> u8 {
    if neighbours.contains_key(k) {
        neighbours[k]
    } else {
        0
    }
}

/// The decision for key `k`: a live cell decays unless it is fully alive and
/// survives; an empty key is born when the birth rule allows its count.
pub open spec fn decide(rule: Rule, states: Map<u64, CellState>, neighbours: Map<u64, u8>, k: u64) -> Option<StateChange> {
    let n = count_of(neighbours, k);
    if states.contains_key(k) {
        if !(allows(rule.survival_rule, n) && states[k].value == rule.states) {
            Some(StateChange::Decay)
        } else {
            None
        }
    } else if allows(rule.birth_rule, n) {
        Some(StateChange::Spawn { neighbours: n })
    } else {
        None
    }
}

/// The decisions of the change job of `bucket`, in bucket order.
pub open spec fn decisions(rule: Rule, states: Map<u64, CellState>, neighbours: Map<u64, u8>, bucket: Seq<u64>) -> Seq<(u64, StateChange)>
    decreases bucket.len(),
{
    if bucket.len() == 0 {
        seq![]
    } else {
        let k = bucket.last();
        let prev = decisions(rule, states, neighbours, bucket.drop_last());
        match decide(rule, states, neighbours, k) {
            Some(c) => prev.push((k, c)),
            None => prev,
        }
    }
}

/// The neighbour job: for each fully alive cell of `bucket`, the keys of its
/// neighbours.
pub fn neighbour_job(states: &HashMap<u64, CellState>, bucket: &Vec<u64>, rule: &Rule, bound: i32) -> (r: Vec<u64>)
    requires
        1 <= bound <= MAX_SPARSE_BOUND,
        forall|k: u64| states@.contains_key(k) ==> k < cube(bound as int),
    ensures
        r@ == emitted(states@, bucket@, rule.states, rule.neighbour_method, bound as int),
{
    let mut r: Vec<u64> = Vec::new();
    let mut i: usize = 0;
    while i < bucket.len()
        invariant
            1 <= bound <= MAX_SPARSE_BOUND,
            forall|k: u64| states@.contains_key(k) ==> k < cube(bound as int),
            i <= bucket@.len(),
            r@ == emitted(states@, bucket@.take(i as int), rule.states, rule.neighbour_method, bound as int),
        decreases bucket@.len() - i,
    {
        let k = bucket[i];
        let ghost prefix = r@;
        proof {
            assert(bucket@.take(i + 1).drop_last() =~= bucket@.take(i as int));
        }
        match states.get(&k) {
            Some(cell) => {
                if cell.value == rule.states {
                    let position = position_of_key(k, bound);
                    let n = rule.neighbour_method.neighbour_count();
                    let ghost targets = sparse_targets(rule.neighbour_method, k as int, bound as int);
                    let mut d: usize = 0;
                    while d < n
                        invariant
                            1 <= bound <= MAX_SPARSE_BOUND,
                            n == rule.neighbour_method.size(),
                            d <= n,
                            position == position_at(k as int, bound as int),
                            in_cube(position, bound as int),
                            targets == sparse_targets(rule.neighbour_method, k as int, bound as int),
                            r@ == prefix + targets.take(d as int),
                        decreases n - d,
                    {
                        let dir = rule.neighbour_method.offset(d);
                        let target = key_of(wrap(position.translated(dir), bound), bound);
                        r.push(target);
                        proof {
                            assert(targets[d as int] == target);
                            assert(r@ =~= prefix + targets.take(d + 1));
                        }
                        d = d + 1;
                    }
                    proof {
                        assert(targets.take(n as int) =~= targets);
                    }
                } else {
                    proof {
                        assert(r@ =~= prefix + seq![]);
                    }
                }
            },
            None => {
                proof {
                    assert(r@ =~= prefix + seq![]);
                }
            },
        }
        i = i + 1;
    }
    proof {
        assert(bucket@.take(bucket@.len() as int) =~= bucket@);
    }
    r
}

/// The change job: the decision for each key of `bucket` that changes.
pub fn change_job(
    states: &HashMap<u64, CellState>,
    neighbours: &HashMap<u64, u8>,
    bucket: &Vec<u64>,
    rule: &Rule,
) -> (r: Vec<(u64, StateChange)>)
    ensures
        r@ == decisions(*rule, states@, neighbours@, bucket@),
{
    let mut r: Vec<(u64, StateChange)> = Vec::new();
    let mut i: usize = 0;
    while i < bucket.len()
        invariant
            i <= bucket@.len(),
            r@ == decisions(*rule, states@, neighbours@, bucket@.take(i as int)),
        decreases bucket@.len() - i,
    {
        let k = bucket[i];
        proof {
            assert(bucket@.take(i + 1).drop_last() =~= bucket@.take(i as int));
        }
        let n: u8 = match neighbours.get(&k) {
            Some(n) => *n,
            None => 0,
        };
        match states.get(&k) {
            Some(cell) => {
                if !((n < 27 && rule.survival_rule.in_range(n)) && cell.value == rule.states) {
                    r.push((k, StateChange::Decay));
                }
            },
            None => {
                if n < 27 && rule.birth_rule.in_range(n) {
                    r.push((k, StateChange::Spawn { neighbours: n }));
                }
            },
        }
        i = i + 1;
    }
    proof {
        assert(bucket@.take(bucket@.len() as int) =~= bucket@);
    }
    r
}

/// The bucket size for `len` keys over `workers` jobs: `ceil(len / workers)`,
/// and at least one.
pub open spec fn bucket_size(len: int, workers: int) -> int {
    let ceil = len / workers + if len % workers != 0 {
        1int
    } else {
        0int
    };
    if ceil == 0 {
        1
    } else {
        ceil
    }
}

/// Splits `keys` into `workers` consecutive buckets of at most
/// `bucket_size(len, workers)` keys each.
pub fn partition(keys: &Vec<u64>, workers: usize) -> (r: Vec<Vec<u64>>)
    requires
        workers >= 1,
    ensures
        r@.len() == workers,
        flat(r@) == keys@,
        forall|i: int| 0 <= i < workers ==> (#[trigger] r@[i])@.len() <= bucket_size(keys@.len() as int, workers as int),
{
    let len = keys.len();
    let mut size = len / workers;
    proof {
        vstd::arithmetic::div_mod::lemma_fundamental_div_mod(len as int, workers as int);
    }
    if len % workers != 0 {
        proof {
            assert(workers >= 2);
            assert(len / workers < len) by (nonlinear_arith)
                requires workers >= 2, len % workers != 0, len >= 0,
                    len == workers * (len / workers) + len % workers, 0 <= len % workers;
        }
        size = size + 1;
    }
    if size == 0 {
        size = 1;
    }
    proof {
        assert(size == bucket_size(len as int, workers as int));
        assert(workers * size >= len) by (nonlinear_arith)
            requires
                len == workers * (len / workers) + len % workers,
                0 <= len % workers < workers,
                size >= len / workers,
                len % workers != 0 ==> size >= len / workers + 1,
                workers >= 1,
        ;
    }
    let mut r: Vec<Vec<u64>> = Vec::new();
    let mut start: usize = 0;
    let mut i: usize = 0;
    while i < workers
        invariant
            i <= workers,
            start <= len,
            len == keys@.len(),
            size >= 1,
            size == bucket_size(len as int, workers as int),
            workers * size >= len,
            start == if i * size < len { i * size } else { len as int },
            r@.len() == i,
            flat(r@) == keys@.take(start as int),
            forall|k: int| 0 <= k < i ==> (#[trigger] r@[k])@.len() <= size,
        decreases workers - i,
    {
        let end = if len - start < size { len } else { start + size };
        let mut bucket: Vec<u64> = Vec::new();
        let mut j: usize = start;
        while j < end
            invariant
                start <= j <= end,
                end <= len,
                len == keys@.len(),
                bucket@ == keys@.subrange(start as int, j as int),
            decreases end - j,
        {
            bucket.push(keys[j]);
            j = j + 1;
            assert(bucket@ =~= keys@.subrange(start as int, j as int));
        }
        let ghost before = r@;
        r.push(bucket);
        proof {
            assert(r@.drop_last() =~= before);
            assert(keys@.take(start as int) + keys@.subrange(start as int, end as int) =~= keys@.take(end as int));
            assert(forall|k: int| 0 <= k < i ==> r@[k] == before[k]);
            assert((i + 1) * size == i * size + size) by (nonlinear_arith);
        }
        start = end;
        i = i + 1;
    }
    proof {
        assert(workers * size >= len);
        assert(keys@.take(len as int) =~= keys@);
    }
    r
}

/// The map after seeding the keys `ks` in order: an absent key gets a fully
/// alive cell; a present one is left as it is.
pub open spec fn seeded_map(m: Map<u64, CellState>, ks: Seq<u64>, full: u8) -> Map<u64, CellState>
    decreases ks.len(),
{
    if ks.len() == 0 {
        m
    } else {
        let prev = seeded_map(m, ks.drop_last(), full);
        let k = ks.last();
        if prev.contains_key(k) {
            prev
        } else {
            prev.insert(k, CellState { value: full, neighbours: 0 })
        }
    }
}

/// The key that seeding position `p` lands on, after wrapping.
pub open spec fn sparse_landing(p: Position, b: int) -> u64 {
    linear_index(wrapped(p, b), b) as u64
}

/// How often `k` occurs in `s`.
pub open spec fn occ(s: Seq<u64>, k: u64) -> nat
    decreases s.len(),
{
    if s.len() == 0 {
        0
    } else {
        occ(s.drop_last(), k) + if s.last() == k {
            1nat
        } else {
            0nat
        }
    }
}

/// A count clamped to a `u8`.
pub open spec fn clamp_count(n: nat) -> u8 {
    if n > 255 {
        255
    } else {
        n as u8
    }
}

/// The map after one change: a decay lowers a live cell's value by one (and
/// to at most `full`); a spawn puts a fully alive cell on a key of the cube.
pub open spec fn apply_change(m: Map<u64, CellState>, ch: (u64, StateChange), full: u8, b: int) -> Map<u64, CellState> {
    let k = ch.0;
    match ch.1 {
        StateChange::Decay => if m.contains_key(k) {
            let v = m[k].value;
            let lowered: u8 = if v == 0 { 0 } else { (v - 1) as u8 };
            m.insert(k, CellState { value: if lowered > full { full } else { lowered }, neighbours: m[k].neighbours })
        } else {
            m
        },
        StateChange::Spawn { neighbours } => if k < cube(b) {
            m.insert(k, CellState { value: full, neighbours })
        } else {
            m
        },
    }
}

/// The map after the changes `s`, in order.
pub open spec fn apply_all(m: Map<u64, CellState>, s: Seq<(u64, StateChange)>, full: u8, b: int) -> Map<u64, CellState>
    decreases s.len(),
{
    if s.len() == 0 {
        m
    } else {
        apply_change(apply_all(m, s.drop_last(), full, b), s.last(), full, b)
    }
}

/// `m` without its dead cells.
pub open spec fn without_dead(m: Map<u64, CellState>) -> Map<u64, CellState> {
    Map::new(|k: u64| m.contains_key(k) && m[k].value > 0, |k: u64| m[k])
}

proof fn lemma_flat_take<T>(s: Seq<Vec<T>>, i: int)
    requires
        0 <= i < s.len(),
    ensures
        flat(s.take(i + 1)) == flat(s.take(i)) + s[i]@,
{
    assert(s.take(i + 1).drop_last() =~= s.take(i));
}

proof fn lemma_push_to_set(s: Seq<u64>, x: u64)
    ensures
        s.push(x).to_set() == s.to_set().insert(x),
{
    let t = s.push(x);
    assert forall|y: u64| t.to_set().contains(y) <==> s.to_set().insert(x).contains(y) by {
        if y == x {
            assert(t[s.len() as int] == x);
        } else if s.contains(y) {
            let w = choose|w: int| 0 <= w < s.len() && s[w] == y;
            assert(t[w] == y);
        } else if t.contains(y) {
            let w = choose|w: int| 0 <= w < t.len() && t[w] == y;
            assert(s[w] == y);
        }
    }
    assert(t.to_set() =~= s.to_set().insert(x));
}

proof fn lemma_push_no_dup(s: Seq<u64>, x: u64)
    requires
        s.no_duplicates(),
        !s.contains(x),
    ensures
        s.push(x).no_duplicates(),
{
    let t = s.push(x);
    assert forall|a: int, b: int| 0 <= a < b < t.len() implies t[a] != t[b] by {
        if b == s.len() {
            assert(s.contains(s[a]));
        }
    }
}

proof fn lemma_emitted_append(states: Map<u64, CellState>, a: Seq<u64>, b: Seq<u64>, full: u8, method: NeighbourMethod, side: int)
    ensures
        emitted(states, a + b, full, method, side) == emitted(states, a, full, method, side) + emitted(states, b, full, method, side),
    decreases b.len(),
{
    if b.len() == 0 {
        assert(a + b =~= a);
        assert(emitted(states, a, full, method, side) + seq![] =~= emitted(states, a, full, method, side));
    } else {
        assert((a + b).drop_last() =~= a + b.drop_last());
        lemma_emitted_append(states, a, b.drop_last(), full, method, side);
        assert(emitted(states, a + b, full, method, side) =~= emitted(states, a, full, method, side) + emitted(states, b, full, method, side));
    }
}

proof fn lemma_decisions_append(rule: Rule, states: Map<u64, CellState>, neighbours: Map<u64, u8>, a: Seq<u64>, b: Seq<u64>)
    ensures
        decisions(rule, states, neighbours, a + b) == decisions(rule, states, neighbours, a) + decisions(rule, states, neighbours, b),
    decreases b.len(),
{
    if b.len() == 0 {
        assert(a + b =~= a);
        assert(decisions(rule, states, neighbours, a) + seq![] =~= decisions(rule, states, neighbours, a));
    } else {
        assert((a + b).drop_last() =~= a + b.drop_last());
        lemma_decisions_append(rule, states, neighbours, a, b.drop_last());
        assert(decisions(rule, states, neighbours, a + b) =~= decisions(rule, states, neighbours, a) + decisions(rule, states, neighbours, b));
    }
}

/// The record of live cell `c` at key `k` of the cube of side `b`, placed
/// relative to the middle of the cube.
pub open spec fn sparse_record(c: CellState, k: int, b: int) -> CellRecord {
    let p = position_at(k, b);
    let h = b / 2;
    CellRecord {
        position: Position { x: (p.x - h) as i32, y: (p.y - h) as i32, z: (p.z - h) as i32 },
        value: c.value,
        neighbours: c.neighbours,
    }
}

/// The phased simulation.
pub struct CellsMultithreaded {
    /// The side of the simulated cube.
    pub bound: i32,
    /// The live cells, by key.
    pub states: HashMap<u64, CellState>,
    /// The keys of `states`, each once, in the order they came to life.
    pub alive: Vec<u64>,
    /// Neighbour counts of the current tick; absent keys count 0.
    pub neighbours: HashMap<u64, u8>,
    /// The keys to decide in the current tick, each once.
    pub change_mask: Vec<u64>,
    /// The buckets handed out by the last `Calculate` step.
    pub pending: Vec<Vec<u64>>,
    pub process_step: ProcessStep,
}

impl CellsMultithreaded {
    pub open spec fn wf(self) -> bool {
        &&& 1 <= self.bound <= MAX_SPARSE_BOUND
        &&& self.alive@.no_duplicates()
        &&& self.states@.dom() == self.alive@.to_set()
        &&& forall|k: u64| #[trigger] self.states@.contains_key(k) ==> k < cube(self.bound as int)
            && self.states@[k].value >= 1
        &&& self.change_mask@.no_duplicates()
    }

    /// An empty simulation over the cube of side `rule.bounding_size`.
    pub fn new(rule: &Rule) -> (r: CellsMultithreaded)
        requires
            1 <= rule.bounding_size <= MAX_SPARSE_BOUND,
        ensures
            r.wf(),
            r.bound == rule.bounding_size,
            r.states@ == Map::<u64, CellState>::empty(),
            r.process_step == ProcessStep::Ready,
    {
        let r = CellsMultithreaded {
            bound: rule.bounding_size,
            states: HashMap::new(),
            alive: Vec::new(),
            neighbours: HashMap::new(),
            change_mask: Vec::new(),
            pending: Vec::new(),
            process_step: ProcessStep::Ready,
        };
        assert(r.alive@.to_set() =~= Set::<u64>::empty());
        assert(r.states@.dom() =~= Set::<u64>::empty());
        r
    }

    /// Starts a tick if none is running.
    pub fn ready(&mut self)
        ensures
            final(self).process_step == if old(self).process_step == ProcessStep::Ready {
                ProcessStep::CalculateNeighbours
            } else {
                old(self).process_step
            },
            final(self).bound == old(self).bound,
            final(self).states@ == old(self).states@,
            final(self).alive@ == old(self).alive@,
            final(self).neighbours@ == old(self).neighbours@,
            final(self).change_mask@ == old(self).change_mask@,
            final(self).pending@ == old(self).pending@,
    {
        if self.process_step == ProcessStep::Ready {
            self.process_step.advance_to_next_step();
        }
    }

    /// Whether a tick is running.
    pub fn is_busy(&self) -> (r: bool)
        ensures
            r == (self.process_step != ProcessStep::Ready),
    {
        self.process_step != ProcessStep::Ready
    }

    /// The number of live cells.
    pub fn cell_count(&self) -> (r: usize)
        requires
            self.wf(),
        ensures
            r == self.states@.len(),
    {
        proof {
            self.alive@.unique_seq_to_set();
        }
        self.alive.len()
    }

    /// Seeds a fully alive cell on every empty key that the given positions
    /// land on after wrapping, then starts a tick. Refused, with nothing
    /// changed, while a tick is running.
    pub fn spawn_at(&mut self, rule: &Rule, positions: &Vec<Position>) -> (r: bool)
        requires
            old(self).wf(),
            rule.states >= 1,
        ensures
            final(self).wf(),
            r == (old(self).process_step == ProcessStep::Ready),
            !r ==> *final(self) == *old(self),
            r ==> final(self).states@ == seeded_map(
                old(self).states@,
                positions@.map_values(|p: Position| sparse_landing(p, old(self).bound as int)),
                rule.states,
            ),
            r ==> final(self).process_step == ProcessStep::CalculateNeighbours,
            final(self).bound == old(self).bound,
    {
        if self.is_busy() {
            return false;
        }
        let ghost start = self.states@;
        let ghost ks = positions@.map_values(|p: Position| sparse_landing(p, self.bound as int));
        let mut i: usize = 0;
        while i < positions.len()
            invariant
                self.wf(),
                rule.states >= 1,
                i <= positions@.len(),
                ks == positions@.map_values(|p: Position| sparse_landing(p, self.bound as int)),
                self.states@ == seeded_map(start, ks.take(i as int), rule.states),
                self.process_step == ProcessStep::Ready,
                self.bound == old(self).bound,
            decreases positions@.len() - i,
        {
            let k = key_of(wrap(positions[i], self.bound), self.bound);
            proof {
                assert(ks.take(i + 1).drop_last() =~= ks.take(i as int));
                assert(ks[i as int] == k);
            }
            if !self.states.contains_key(&k) {
                let ghost before = self.alive@;
                self.states.insert(k, CellState { value: rule.states, neighbours: 0 });
                self.alive.push(k);
                proof {
                    assert(!before.contains(k));
                    assert(self.alive@ == before.push(k));
                    assert forall|x: u64| self.alive@.to_set().contains(x) <==> before.to_set().insert(k).contains(x) by {
                        if x == k {
                            assert(self.alive@[before.len() as int] == k);
                        } else if before.contains(x) {
                            let w = choose|w: int| 0 <= w < before.len() && before[w] == x;
                            assert(self.alive@[w] == x);
                        } else if self.alive@.contains(x) {
                            let w = choose|w: int| 0 <= w < self.alive@.len() && self.alive@[w] == x;
                            assert(before[w] == x);
                        }
                    }
                    assert(self.alive@.to_set() =~= before.to_set().insert(k));
                    assert(self.states@.dom() =~= self.alive@.to_set());
                    assert(self.alive@.no_duplicates()) by {
                        assert forall|a: int, b: int|
                            0 <= a < b < self.alive@.len() implies self.alive@[a] != self.alive@[b] by {
                            if b == self.alive@.len() - 1 {
                                assert(before.contains(before[a]));
                            } else {
                                assert(before[a] != before[b]);
                            }
                        }
                    }
                }
            }
            i = i + 1;
        }
        proof {
            assert(ks.take(positions@.len() as int) =~= ks);
        }
        self.ready();
        true
    }

    /// Seeds random cells in the box of half-side 6 around the middle of the
    /// cube, then starts a tick; refused while a tick is running.
    pub fn spawn_noise(&mut self, rule: &Rule) -> (r: bool)
        requires
            old(self).wf(),
            rule.states >= 1,
        ensures
            final(self).wf(),
            r == (old(self).process_step == ProcessStep::Ready),
            !r ==> *final(self) == *old(self),
            r ==> final(self).process_step == ProcessStep::CalculateNeighbours,
            final(self).bound == old(self).bound,
            r ==> exists|ps: Seq<Position>|
                {
                    &&& ps.len() == NOISE_AMOUNT
                    &&& forall|i: int|
                        0 <= i < ps.len() ==> within(#[trigger] ps[i], middle(old(self).bound as int), NOISE_RADIUS as int)
                    &&& final(self).states@ == seeded_map(
                        old(self).states@,
                        ps.map_values(|p: Position| sparse_landing(p, old(self).bound as int)),
                        rule.states,
                    )
                },
    {
        if self.is_busy() {
            return false;
        }
        let center = crate::position::center(self.bound);
        let positions = crate::noise::spawn_noise_default(center);
        let r = self.spawn_at(rule, &positions);
        assert(positions@.len() == NOISE_AMOUNT);
        assert(forall|i: int|
            0 <= i < positions@.len() ==> within(#[trigger] positions@[i], middle(old(self).bound as int), NOISE_RADIUS as int));
        r
    }

    /// One driver call. In a `Calculate` step, hands out in `pending` the
    /// buckets of keys for the jobs (`workers` buckets: the live keys for the
    /// neighbour jobs, the masked keys for the change jobs) and moves to the
    /// matching `Await` step. In `Ready` and in the `Await` steps (which end
    /// through `finish_neighbours` and `finish_changes`) nothing changes.
    pub fn tick(&mut self, workers: usize)
        requires
            old(self).wf(),
            workers >= 1,
        ensures
            final(self).wf(),
            final(self).bound == old(self).bound,
            final(self).states@ == old(self).states@,
            final(self).alive@ == old(self).alive@,
            final(self).neighbours@ == old(self).neighbours@,
            final(self).change_mask@ == old(self).change_mask@,
            match old(self).process_step {
                ProcessStep::CalculateNeighbours => {
                    &&& final(self).process_step == ProcessStep::AwaitNeighbours
                    &&& final(self).pending@.len() == workers
                    &&& flat(final(self).pending@) == old(self).alive@
                },
                ProcessStep::CalculateChanges => {
                    &&& final(self).process_step == ProcessStep::AwaitChanges
                    &&& final(self).pending@.len() == workers
                    &&& flat(final(self).pending@) == old(self).change_mask@
                },
                _ => *final(self) == *old(self),
            },
    {
        match self.process_step {
            ProcessStep::CalculateNeighbours => {
                self.pending = partition(&self.alive, workers);
                self.process_step.advance_to_next_step();
            },
            ProcessStep::CalculateChanges => {
                self.pending = partition(&self.change_mask, workers);
                self.process_step.advance_to_next_step();
            },
            _ => {},
        }
    }

    /// Ends `AwaitNeighbours` once every neighbour job is done: counts, for
    /// each key of the cube, how often the jobs emitted it, masks every
    /// counted key and every live key for the change jobs, and moves to
    /// `CalculateChanges`.
    pub fn finish_neighbours(&mut self, results: &Vec<Vec<u64>>)
        requires
            old(self).wf(),
            old(self).process_step == ProcessStep::AwaitNeighbours,
        ensures
            final(self).wf(),
            final(self).bound == old(self).bound,
            final(self).states@ == old(self).states@,
            final(self).alive@ == old(self).alive@,
            final(self).process_step == ProcessStep::CalculateChanges,
            forall|k: u64|
                #[trigger] final(self).neighbours@.contains_key(k) <==> (k < cube(old(self).bound as int)
                    && occ(flat(results@), k) > 0),
            forall|k: u64|
                #[trigger] final(self).neighbours@.contains_key(k) ==> final(self).neighbours@[k]
                    == clamp_count(occ(flat(results@), k)),
            final(self).change_mask@.to_set() == final(self).neighbours@.dom() + final(self).states@.dom(),
    {
        proof {
            lemma_cube_bound(self.bound as int);
        }
        let limit = self.bound as u64 * self.bound as u64 * self.bound as u64;
        self.neighbours.clear();
        self.change_mask.clear();
        let mut i: usize = 0;
        while i < results.len()
            invariant
                self.wf(),
                self.bound == old(self).bound,
                self.states@ == old(self).states@,
                self.alive@ == old(self).alive@,
                self.process_step == old(self).process_step,
                limit == cube(self.bound as int),
                i <= results@.len(),
                forall|k: u64|
                    #[trigger] self.neighbours@.contains_key(k) <==> (k < limit && occ(flat(results@.take(i as int)), k) > 0),
                forall|k: u64|
                    #[trigger] self.neighbours@.contains_key(k) ==> self.neighbours@[k] == clamp_count(
                        occ(flat(results@.take(i as int)), k),
                    ),
                self.change_mask@.to_set() == self.neighbours@.dom(),
            decreases results@.len() - i,
        {
            let ghost done = flat(results@.take(i as int));
            let bucket = &results[i];
            let mut j: usize = 0;
            while j < bucket.len()
                invariant
                    self.wf(),
                    self.bound == old(self).bound,
                    self.states@ == old(self).states@,
                    self.alive@ == old(self).alive@,
                    self.process_step == old(self).process_step,
                    limit == cube(self.bound as int),
                    j <= bucket@.len(),
                    forall|k: u64|
                        #[trigger] self.neighbours@.contains_key(k) <==> (k < limit && occ(done + bucket@.take(j as int), k) > 0),
                    forall|k: u64|
                        #[trigger] self.neighbours@.contains_key(k) ==> self.neighbours@[k] == clamp_count(
                            occ(done + bucket@.take(j as int), k),
                        ),
                    self.change_mask@.to_set() == self.neighbours@.dom(),
                decreases bucket@.len() - j,
            {
                let key = bucket[j];
                let ghost before = done + bucket@.take(j as int);
                let ghost after = done + bucket@.take(j + 1);
                proof {
                    assert(after =~= before.push(key));
                    assert(after.drop_last() =~= before);
                }
                if key < limit {
                    match self.neighbours.get(&key) {
                        Some(n) => {
                            let v = n.saturating_add(1);
                            self.neighbours.insert(key, v);
                        },
                        None => {
                            let ghost mask = self.change_mask@;
                            self.neighbours.insert(key, 1);
                            self.change_mask.push(key);
                            proof {
                                lemma_push_to_set(mask, key);
                                assert(!mask.contains(key)) by {
                                    if mask.contains(key) {
                                        assert(mask.to_set().contains(key));
                                    }
                                }
                                lemma_push_no_dup(mask, key);
                            }
                        },
                    }
                }
                proof {
                    assert forall|k: u64| #[trigger] self.neighbours@.contains_key(k) <==> (k < limit && occ(after, k) > 0) by {}
                    assert(self.change_mask@.to_set() =~= self.neighbours@.dom());
                }
                j = j + 1;
            }
            proof {
                assert(bucket@.take(bucket@.len() as int) =~= bucket@);
                lemma_flat_take(results@, i as int);
            }
            i = i + 1;
        }
        proof {
            assert(results@.take(results@.len() as int) =~= results@);
        }
        let mut a: usize = 0;
        while a < self.alive.len()
            invariant
                self.wf(),
                self.bound == old(self).bound,
                self.states@ == old(self).states@,
                self.alive@ == old(self).alive@,
                self.process_step == old(self).process_step,
                a <= self.alive@.len(),
                forall|k: u64|
                    #[trigger] self.neighbours@.contains_key(k) <==> (k < cube(old(self).bound as int) && occ(flat(results@), k) > 0),
                forall|k: u64|
                    #[trigger] self.neighbours@.contains_key(k) ==> self.neighbours@[k] == clamp_count(occ(flat(results@), k)),
                self.change_mask@.to_set() == self.neighbours@.dom() + self.alive@.take(a as int).to_set(),
            decreases self.alive@.len() - a,
        {
            let key = self.alive[a];
            let ghost mask = self.change_mask@;
            proof {
                assert(self.alive@.take(a + 1) =~= self.alive@.take(a as int).push(key));
                lemma_push_to_set(self.alive@.take(a as int), key);
            }
            if !self.neighbours.contains_key(&key) {
                self.change_mask.push(key);
                proof {
                    lemma_push_to_set(mask, key);
                    assert(!self.alive@.take(a as int).contains(key)) by {
                        if self.alive@.take(a as int).contains(key) {
                            let w = choose|w: int| 0 <= w < a && self.alive@.take(a as int)[w] == key;
                            assert(self.alive@[w] == self.alive@[a as int]);
                        }
                    }
                    assert(!mask.contains(key)) by {
                        if mask.contains(key) {
                            assert(mask.to_set().contains(key));
                        }
                    }
                    lemma_push_no_dup(mask, key);
                }
            }
            proof {
                assert(self.change_mask@.to_set() =~= self.neighbours@.dom() + self.alive@.take(a + 1).to_set());
            }
            a = a + 1;
        }
        proof {
            assert(self.alive@.take(self.alive@.len() as int) =~= self.alive@);
            assert(self.change_mask@.to_set() =~= self.neighbours@.dom() + self.states@.dom());
        }
        self.process_step.advance_to_next_step();
    }

    /// Ends `AwaitChanges` once every change job is done: applies the
    /// decisions in order, drops the cells that reached 0, clears the tick's
    /// scratch state and returns to `Ready`.
    pub fn finish_changes(&mut self, rule: &Rule, results: &Vec<Vec<(u64, StateChange)>>)
        requires
            old(self).wf(),
            old(self).process_step == ProcessStep::AwaitChanges,
            rule.states >= 1,
        ensures
            final(self).wf(),
            final(self).bound == old(self).bound,
            final(self).states@ == without_dead(
                apply_all(old(self).states@, flat(results@), rule.states, old(self).bound as int),
            ),
            final(self).neighbours@ == Map::<u64, u8>::empty(),
            final(self).change_mask@.len() == 0,
            final(self).process_step == ProcessStep::Ready,
    {
        proof {
            lemma_cube_bound(self.bound as int);
        }
        let limit = self.bound as u64 * self.bound as u64 * self.bound as u64;
        let ghost start = self.states@;
        let mut i: usize = 0;
        while i < results.len()
            invariant
                1 <= self.bound <= MAX_SPARSE_BOUND,
                self.bound == old(self).bound,
                limit == cube(self.bound as int),
                rule.states >= 1,
                i <= results@.len(),
                self.alive@.no_duplicates(),
                self.states@.dom() == self.alive@.to_set(),
                forall|k: u64| #[trigger] self.states@.contains_key(k) ==> k < limit,
                self.states@ == apply_all(start, flat(results@.take(i as int)), rule.states, self.bound as int),
            decreases results@.len() - i,
        {
            let ghost done = flat(results@.take(i as int));
            let bucket = &results[i];
            let mut j: usize = 0;
            while j < bucket.len()
                invariant
                    1 <= self.bound <= MAX_SPARSE_BOUND,
                    self.bound == old(self).bound,
                    limit == cube(self.bound as int),
                    rule.states >= 1,
                    j <= bucket@.len(),
                    self.alive@.no_duplicates(),
                    self.states@.dom() == self.alive@.to_set(),
                    forall|k: u64| #[trigger] self.states@.contains_key(k) ==> k < limit,
                    self.states@ == apply_all(start, done + bucket@.take(j as int), rule.states, self.bound as int),
                decreases bucket@.len() - j,
            {
                let (key, change) = bucket[j];
                let ghost before = done + bucket@.take(j as int);
                let ghost after = done + bucket@.take(j + 1);
                proof {
                    assert(after =~= before.push((key, change)));
                    assert(after.drop_last() =~= before);
                }
                match change {
                    StateChange::Decay => {
                        match self.states.get(&key) {
                            Some(cell) => {
                                let lowered = cell.value.saturating_sub(1);
                                let value = if lowered > rule.states { rule.states } else { lowered };
                                let neighbours = cell.neighbours;
                                self.states.insert(key, CellState { value, neighbours });
                                proof {
                                    assert(self.states@.dom() =~= self.alive@.to_set());
                                }
                            },
                            None => {},
                        }
                    },
                    StateChange::Spawn { neighbours } => {
                        if key < limit {
                            if !self.states.contains_key(&key) {
                                let ghost alive = self.alive@;
                                self.alive.push(key);
                                proof {
                                    lemma_push_to_set(alive, key);
                                    assert(!alive.contains(key)) by {
                                        if alive.contains(key) {
                                            assert(alive.to_set().contains(key));
                                        }
                                    }
                                    lemma_push_no_dup(alive, key);
                                }
                            }
                            self.states.insert(key, CellState { value: rule.states, neighbours });
                            proof {
                                assert(self.states@.dom() =~= self.alive@.to_set());
                            }
                        }
                    },
                }
                j = j + 1;
            }
            proof {
                assert(bucket@.take(bucket@.len() as int) =~= bucket@);
                lemma_flat_take(results@, i as int);
            }
            i = i + 1;
        }
        proof {
            assert(results@.take(results@.len() as int) =~= results@);
        }
        let ghost applied = self.states@;
        let mut kept: Vec<u64> = Vec::new();
        let mut a: usize = 0;
        while a < self.alive.len()
            invariant
                1 <= self.bound <= MAX_SPARSE_BOUND,
                self.bound == old(self).bound,
                limit == cube(self.bound as int),
                rule.states >= 1,
                a <= self.alive@.len(),
                self.alive@.no_duplicates(),
                applied.dom() == self.alive@.to_set(),
                forall|k: u64| #[trigger] applied.contains_key(k) ==> k < limit,
                kept@.no_duplicates(),
                kept@.to_set() == without_dead(applied).dom().intersect(self.alive@.take(a as int).to_set()),
                self.states@ == Map::new(
                    |k: u64| applied.contains_key(k) && (self.alive@.take(a as int).contains(k) ==> applied[k].value > 0),
                    |k: u64| applied[k],
                ),
            decreases self.alive@.len() - a,
        {
            let key = self.alive[a];
            let ghost kept0 = kept@;
            proof {
                assert(self.alive@.take(a + 1) =~= self.alive@.take(a as int).push(key));
                lemma_push_to_set(self.alive@.take(a as int), key);
                assert(!self.alive@.take(a as int).contains(key)) by {
                    if self.alive@.take(a as int).contains(key) {
                        let w = choose|w: int| 0 <= w < a && self.alive@.take(a as int)[w] == key;
                        assert(self.alive@[w] == self.alive@[a as int]);
                    }
                }
                assert(self.alive@.to_set().contains(key)) by {
                    assert(self.alive@[a as int] == key);
                }
            }
            let value = match self.states.get(&key) {
                Some(cell) => cell.value,
                None => 0,
            };
            proof {
                assert(applied.contains_key(key));
                assert(self.states@.contains_key(key));
                assert(value == applied[key].value);
                assert forall|k: u64| self.alive@.take(a + 1).contains(k) <==> (self.alive@.take(a as int).contains(k) || k == key) by {
                    assert(self.alive@.take(a + 1).to_set().contains(k) == self.alive@.take(a + 1).contains(k));
                    assert(self.alive@.take(a as int).to_set().contains(k) == self.alive@.take(a as int).contains(k));
                }
            }
            if value == 0 {
                self.states.remove(&key);
            } else {
                kept.push(key);
                proof {
                    lemma_push_to_set(kept0, key);
                    assert(!kept0.contains(key)) by {
                        if kept0.contains(key) {
                            assert(kept0.to_set().contains(key));
                        }
                    }
                    lemma_push_no_dup(kept0, key);
                }
            }
            proof {
                assert(self.states@ =~= Map::new(
                    |k: u64| applied.contains_key(k) && (self.alive@.take(a + 1).contains(k) ==> applied[k].value > 0),
                    |k: u64| applied[k],
                ));
                assert(kept@.to_set() =~= without_dead(applied).dom().intersect(self.alive@.take(a + 1).to_set()));
            }
            a = a + 1;
        }
        proof {
            assert(self.alive@.take(self.alive@.len() as int) =~= self.alive@);
            assert(self.states@ =~= without_dead(applied));
            assert(kept@.to_set() =~= self.states@.dom());
        }
        self.alive = kept;
        self.neighbours.clear();
        self.change_mask.clear();
        self.pending.clear();
        self.process_step = ProcessStep::Ready;
    }

    /// Runs the neighbour job of every pending bucket, one after another.
    pub fn run_neighbour_jobs(&self, rule: &Rule) -> (r: Vec<Vec<u64>>)
        requires
            self.wf(),
        ensures
            flat(r@) == emitted(self.states@, flat(self.pending@), rule.states, rule.neighbour_method, self.bound as int),
    {
        let mut r: Vec<Vec<u64>> = Vec::new();
        let mut i: usize = 0;
        while i < self.pending.len()
            invariant
                self.wf(),
                i <= self.pending@.len(),
                flat(r@) == emitted(self.states@, flat(self.pending@.take(i as int)), rule.states, rule.neighbour_method, self.bound as int),
            decreases self.pending@.len() - i,
        {
            let out = neighbour_job(&self.states, &self.pending[i], rule, self.bound);
            let ghost before = r@;
            r.push(out);
            proof {
                assert(r@.drop_last() =~= before);
                lemma_flat_take(self.pending@, i as int);
                lemma_emitted_append(self.states@, flat(self.pending@.take(i as int)), self.pending@[i as int]@, rule.states, rule.neighbour_method, self.bound as int);
            }
            i = i + 1;
        }
        assert(self.pending@.take(self.pending@.len() as int) =~= self.pending@);
        r
    }

    /// Runs the change job of every pending bucket, one after another.
    pub fn run_change_jobs(&self, rule: &Rule) -> (r: Vec<Vec<(u64, StateChange)>>)
        ensures
            flat(r@) == decisions(*rule, self.states@, self.neighbours@, flat(self.pending@)),
    {
        let mut r: Vec<Vec<(u64, StateChange)>> = Vec::new();
        let mut i: usize = 0;
        while i < self.pending.len()
            invariant
                i <= self.pending@.len(),
                flat(r@) == decisions(*rule, self.states@, self.neighbours@, flat(self.pending@.take(i as int))),
            decreases self.pending@.len() - i,
        {
            let out = change_job(&self.states, &self.neighbours, &self.pending[i], rule);
            let ghost before = r@;
            r.push(out);
            proof {
                assert(r@.drop_last() =~= before);
                lemma_flat_take(self.pending@, i as int);
                lemma_decisions_append(*rule, self.states@, self.neighbours@, flat(self.pending@.take(i as int)), self.pending@[i as int]@);
            }
            i = i + 1;
        }
        assert(self.pending@.take(self.pending@.len() as int) =~= self.pending@);
        r
    }

    /// One driver call that runs the jobs of an `Await` step at once, on this
    /// thread, and finishes the step. In `Ready` nothing changes.
    pub fn advance(&mut self, rule: &Rule, workers: usize)
        requires
            old(self).wf(),
            workers >= 1,
            rule.states >= 1,
            rule.bounding_size == old(self).bound,
        ensures
            final(self).wf(),
            final(self).bound == old(self).bound,
            old(self).process_step == ProcessStep::Ready ==> *final(self) == *old(self),
            old(self).process_step != ProcessStep::Ready ==> final(self).process_step == next_step(
                old(self).process_step,
            ),
            old(self).process_step == ProcessStep::CalculateNeighbours ==> {
                &&& final(self).states@ == old(self).states@
                &&& final(self).alive@ == old(self).alive@
                &&& final(self).pending@.len() == workers
                &&& flat(final(self).pending@) == old(self).alive@
            },
            old(self).process_step == ProcessStep::CalculateChanges ==> {
                &&& final(self).states@ == old(self).states@
                &&& final(self).neighbours@ == old(self).neighbours@
                &&& final(self).change_mask@ == old(self).change_mask@
                &&& final(self).pending@.len() == workers
                &&& flat(final(self).pending@) == old(self).change_mask@
            },
            old(self).process_step == ProcessStep::AwaitNeighbours ==> final(self).change_mask@.to_set()
                == final(self).neighbours@.dom() + final(self).states@.dom(),
            old(self).process_step == ProcessStep::AwaitChanges ==> {
                &&& final(self).neighbours@ == Map::<u64, u8>::empty()
                &&& final(self).change_mask@.len() == 0
            },
            old(self).process_step == ProcessStep::AwaitNeighbours ==> {
                let emitted_keys = emitted(
                    old(self).states@,
                    flat(old(self).pending@),
                    rule.states,
                    rule.neighbour_method,
                    old(self).bound as int,
                );
                &&& final(self).states@ == old(self).states@
                &&& forall|k: u64|
                    #[trigger] final(self).neighbours@.contains_key(k) <==> (k < cube(old(self).bound as int)
                        && occ(emitted_keys, k) > 0)
                &&& forall|k: u64|
                    #[trigger] final(self).neighbours@.contains_key(k) ==> final(self).neighbours@[k]
                        == clamp_count(occ(emitted_keys, k))
            },
            old(self).process_step == ProcessStep::AwaitNeighbours && flat(old(self).pending@)
                == old(self).alive@ ==> forall|k: u64|
                k < cube(old(self).bound as int) ==> #[trigger] count_of(final(self).neighbours@, k)
                    == full_neighbours(old(self).states@, rule.states, rule.neighbour_method, k, old(self).bound as int),
            old(self).process_step == ProcessStep::AwaitChanges ==> final(self).states@ == without_dead(
                apply_all(
                    old(self).states@,
                    decisions(*rule, old(self).states@, old(self).neighbours@, flat(old(self).pending@)),
                    rule.states,
                    old(self).bound as int,
                ),
            ),
    {
        match self.process_step {
            ProcessStep::Ready => {},
            ProcessStep::CalculateNeighbours => self.tick(workers),
            ProcessStep::CalculateChanges => self.tick(workers),
            ProcessStep::AwaitNeighbours => {
                let results = self.run_neighbour_jobs(rule);
                let ghost before = *self;
                self.finish_neighbours(&results);
                proof {
                    if flat(before.pending@) == before.alive@ {
                        assert forall|k: u64| k < cube(before.bound as int) implies #[trigger] count_of(self.neighbours@, k)
                            == full_neighbours(before.states@, rule.states, rule.neighbour_method, k, before.bound as int) by {
                            lemma_neighbour_census(before.states@, before.alive@, rule.states, rule.neighbour_method, k, before.bound as int);
                            lemma_trues_bound(sparse_targets(rule.neighbour_method, k as int, before.bound as int).map_values(
                                |t: u64| is_full(before.states@, rule.states, t),
                            ));
                        }
                    }
                }
            },
            ProcessStep::AwaitChanges => {
                let results = self.run_change_jobs(rule);
                self.finish_changes(rule, &results);
            },
        }
    }

    /// A record of every live cell, in the order the cells came to life,
    /// placed relative to the middle of the cube.
    pub fn render(&self) -> (r: Vec<CellRecord>)
        requires
            self.wf(),
        ensures
            r@ == self.alive@.map_values(|k: u64| sparse_record(self.states@[k], k as int, self.bound as int)),
    {
        let half = self.bound / 2;
        let mut r: Vec<CellRecord> = Vec::new();
        let mut i: usize = 0;
        while i < self.alive.len()
            invariant
                self.wf(),
                half == self.bound / 2,
                i <= self.alive@.len(),
                r@ == self.alive@.take(i as int).map_values(|k: u64| sparse_record(self.states@[k], k as int, self.bound as int)),
            decreases self.alive@.len() - i,
        {
            let key = self.alive[i];
            proof {
                assert(self.alive@.to_set().contains(key)) by {
                    assert(self.alive@[i as int] == key);
                }
            }
            let cell = *self.states.get(&key).unwrap();
            let p = position_of_key(key, self.bound);
            r.push(CellRecord {
                position: Position { x: p.x - half, y: p.y - half, z: p.z - half },
                value: cell.value,
                neighbours: cell.neighbours,
            });
            proof {
                assert(r@ =~= self.alive@.take(i + 1).map_values(|k: u64| sparse_record(self.states@[k], k as int, self.bound as int)));
            }
            i = i + 1;
        }
        assert(self.alive@.take(self.alive@.len() as int) =~= self.alive@);
        r
    }
}

} // verus!
