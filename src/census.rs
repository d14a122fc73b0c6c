//! The neighbour census of the phased simulation: counting, for each key,
//! the keys emitted by the fully alive cells gives the number of fully alive
//! neighbours of that key.
use crate::neighbours::{cube_offset, moore_direction, NeighbourMethod};
use crate::position::{
    in_cube, lemma_index_position_round_trip, lemma_position_index_round_trip, linear_index, plus,
    position_at, wrapped, Position,
};
use crate::sparse::{cube, emitted, occ, sparse_targets, CellState, MAX_SPARSE_BOUND};
use vstd::arithmetic::div_mod::{lemma_fundamental_div_mod, lemma_fundamental_div_mod_converse};
use vstd::prelude::*;

verus! {

/// The number of `true` entries of `s`.
pub open spec fn trues(s: Seq<bool>) -> nat
    decreases s.len(),
{
    if s.len() == 0 {
        0
    } else {
        trues(s.drop_last()) + if s.last() {
            1nat
        } else {
            0nat
        }
    }
}

/// Whether `t` holds a fully alive cell.
pub open spec fn is_full(states: Map<u64, CellState>, full: u8, t: u64) -> bool {
    states.contains_key(t) && states[t].value == full
}

/// The number of neighbours of key `k` (one per direction, wrapping around
/// the faces) that hold a fully alive cell.
pub open spec fn full_neighbours(states: Map<u64, CellState>, full: u8, method: NeighbourMethod, k: u64, b: int) -> nat {
    trues(sparse_targets(method, k as int, b).map_values(|t: u64| is_full(states, full, t)))
}

/// The direction opposite to direction `i`.
pub open spec fn opposite(method: NeighbourMethod, i: int) -> int {
    match method {
        NeighbourMethod::Moore => 25 - i,
        NeighbourMethod::VonNeuman => if i % 2 == 0 {
            i + 1
        } else {
            i - 1
        },
    }
}

pub(crate) proof fn lemma_opposite(method: NeighbourMethod, i: int)
    requires
        0 <= i < method.size(),
    ensures
        0 <= opposite(method, i) < method.size(),
        method.direction(opposite(method, i)).x == -method.direction(i).x,
        method.direction(opposite(method, i)).y == -method.direction(i).y,
        method.direction(opposite(method, i)).z == -method.direction(i).z,
{
    match method {
        NeighbourMethod::Moore => {
            let m = if i < 13 { i } else { i + 1 };
            let m2 = 26 - m;
            assert(moore_direction(i) == cube_offset(m));
            assert(moore_direction(25 - i) == cube_offset(m2));
            assert(0 <= m <= 26 && m != 13);
            assert(m2 % 3 == 2 - m % 3);
            assert(m2 / 3 % 3 == 2 - m / 3 % 3);
            assert(m2 / 9 == 2 - m / 9);
        },
        NeighbourMethod::VonNeuman => {},
    }
}

pub(crate) proof fn lemma_step_symmetric(a: int, d: int, c: int, b: int)
    requires
        0 <= a < b,
        0 <= c < b,
    ensures
        ((a + d) % b == c) <==> ((c + (-d)) % b == a),
{
    lemma_fundamental_div_mod(a + d, b);
    lemma_fundamental_div_mod(c - d, b);
    if (a + d) % b == c {
        let q = (a + d) / b;
        assert(c - d == (-q) * b + a) by (nonlinear_arith)
            requires a + d == b * q + c;
        lemma_fundamental_div_mod_converse(c - d, b, -q, a);
    }
    if (c + (-d)) % b == a {
        let q = (c - d) / b;
        assert(a + d == (-q) * b + c) by (nonlinear_arith)
            requires c - d == b * q + a;
        lemma_fundamental_div_mod_converse(a + d, b, -q, c);
    }
}

proof fn lemma_cube_injective(p: Position, r: Position, b: int)
    requires
        0 < b <= MAX_SPARSE_BOUND,
        in_cube(p, b),
        in_cube(r, b),
        linear_index(p, b) == linear_index(r, b),
    ensures
        p == r,
{
    lemma_position_index_round_trip(p, b);
    lemma_position_index_round_trip(r, b);
}

/// Key `k` is the `i`-th neighbour of key `q` exactly when `q` is the
/// opposite neighbour of `k`.
proof fn lemma_target_symmetric(method: NeighbourMethod, q: u64, k: u64, i: int, b: int)
    requires
        1 <= b <= MAX_SPARSE_BOUND,
        q < cube(b),
        k < cube(b),
        0 <= i < method.size(),
    ensures
        (sparse_targets(method, q as int, b)[i] == k) <==> (sparse_targets(method, k as int, b)[opposite(method, i)] == q),
{
    lemma_opposite(method, i);
    let j = opposite(method, i);
    let d = method.direction(i);
    let e = method.direction(j);
    let pq = position_at(q as int, b);
    let pk = position_at(k as int, b);
    lemma_index_position_round_trip(q as int, b);
    lemma_index_position_round_trip(k as int, b);
    crate::position::lemma_wrap_congruent(plus(pq, d), b);
    crate::position::lemma_wrap_congruent(plus(pk, e), b);
    let wq = wrapped(plus(pq, d), b);
    let wk = wrapped(plus(pk, e), b);
    assert(-1 <= d.x <= 1 && -1 <= d.y <= 1 && -1 <= d.z <= 1) by {
        match method {
            NeighbourMethod::Moore => {
                let m = if i < 13 { i } else { i + 1 };
                assert(d == cube_offset(m));
            },
            NeighbourMethod::VonNeuman => {},
        }
    }
    lemma_step_symmetric(pq.x as int, d.x as int, pk.x as int, b);
    lemma_step_symmetric(pq.y as int, d.y as int, pk.y as int, b);
    lemma_step_symmetric(pq.z as int, d.z as int, pk.z as int, b);
    lemma_position_index_round_trip(wq, b);
    lemma_position_index_round_trip(wk, b);
    crate::sparse::lemma_cube_bound_pub(b);
    if sparse_targets(method, q as int, b)[i] == k {
        lemma_cube_injective(wq, pk, b);
        assert(wk == pq);
    }
    if sparse_targets(method, k as int, b)[j] == q {
        lemma_cube_injective(wk, pq, b);
        assert(wq == pk);
    }
}

pub(crate) proof fn lemma_trues_first(s: Seq<bool>)
    requires
        s.len() > 0,
    ensures
        trues(s) == (if s[0] {
            1nat
        } else {
            0nat
        }) + trues(s.drop_first()),
    decreases s.len(),
{
    if s.len() > 1 {
        lemma_trues_first(s.drop_last());
        assert(s.drop_last().drop_first() =~= s.drop_first().drop_last());
        assert(s.drop_last()[0] == s[0]);
        assert(s.drop_first().last() == s.last());
        assert(trues(s.drop_first()) == trues(s.drop_first().drop_last()) + if s.drop_first().last() {
            1nat
        } else {
            0nat
        });
    } else {
        assert(s.drop_first().len() == 0);
        assert(s.drop_last().len() == 0);
        assert(trues(s.drop_first()) == 0);
        assert(trues(s.drop_last()) == 0);
        assert(s.last() == s[0]);
    }
}

pub(crate) proof fn lemma_trues_reverse(s: Seq<bool>, r: Seq<bool>)
    requires
        r.len() == s.len(),
        forall|i: int| 0 <= i < s.len() ==> r[i] == s[s.len() - 1 - i],
    ensures
        trues(r) == trues(s),
    decreases s.len(),
{
    if s.len() > 0 {
        lemma_trues_first(r);
        lemma_trues_reverse(s.drop_last(), r.drop_first());
    }
}

pub(crate) proof fn lemma_trues_or(a: Seq<bool>, b: Seq<bool>, c: Seq<bool>)
    requires
        a.len() == b.len(),
        c.len() == a.len(),
        forall|i: int| 0 <= i < a.len() ==> c[i] == (a[i] || b[i]) && !(a[i] && b[i]),
    ensures
        trues(c) == trues(a) + trues(b),
    decreases a.len(),
{
    if a.len() > 0 {
        lemma_trues_or(a.drop_last(), b.drop_last(), c.drop_last());
    }
}

proof fn lemma_trues_same(a: Seq<bool>, b: Seq<bool>)
    requires
        a.len() == b.len(),
        forall|i: int| 0 <= i < a.len() ==> a[i] == b[i],
    ensures
        trues(a) == trues(b),
{
    assert(a =~= b);
}

proof fn lemma_occ_trues(s: Seq<u64>, x: u64)
    ensures
        occ(s, x) == trues(s.map_values(|v: u64| v == x)),
    decreases s.len(),
{
    if s.len() > 0 {
        lemma_occ_trues(s.drop_last(), x);
        assert(s.map_values(|v: u64| v == x).drop_last() =~= s.drop_last().map_values(|v: u64| v == x));
    }
}

proof fn lemma_occ_append(a: Seq<u64>, c: Seq<u64>, k: u64)
    ensures
        occ(a + c, k) == occ(a, k) + occ(c, k),
    decreases c.len(),
{
    if c.len() == 0 {
        assert(a + c =~= a);
    } else {
        assert((a + c).drop_last() =~= a + c.drop_last());
        lemma_occ_append(a, c.drop_last(), k);
    }
}

/// Key `k` is as often a neighbour of `q` as `q` is of `k`.
proof fn lemma_occ_symmetric(method: NeighbourMethod, q: u64, k: u64, b: int)
    requires
        1 <= b <= MAX_SPARSE_BOUND,
        q < cube(b),
        k < cube(b),
    ensures
        occ(sparse_targets(method, q as int, b), k) == occ(sparse_targets(method, k as int, b), q),
{
    let tq = sparse_targets(method, q as int, b);
    let tk = sparse_targets(method, k as int, b);
    let a = tq.map_values(|v: u64| v == k);
    let c = tk.map_values(|v: u64| v == q);
    lemma_occ_trues(tq, k);
    lemma_occ_trues(tk, q);
    assert forall|i: int| 0 <= i < method.size() implies a[i] == c[opposite(method, i)] by {
        lemma_target_symmetric(method, q, k, i, b);
        lemma_opposite(method, i);
    }
    match method {
        NeighbourMethod::Moore => {
            lemma_trues_reverse(c, a);
        },
        NeighbourMethod::VonNeuman => {
            reveal_with_fuel(trues, 7);
            assert(a.drop_last().drop_last().drop_last().drop_last().drop_last().drop_last().len() == 0);
            assert(c.drop_last().drop_last().drop_last().drop_last().drop_last().drop_last().len() == 0);
        },
    }
}

/// The number of fully alive keys of `s` among the neighbours of `k`,
/// counted per direction.
pub open spec fn full_neighbours_in(states: Map<u64, CellState>, s: Seq<u64>, full: u8, method: NeighbourMethod, k: u64, b: int) -> nat {
    trues(sparse_targets(method, k as int, b).map_values(|t: u64| s.contains(t) && is_full(states, full, t)))
}

proof fn lemma_census_prefix(states: Map<u64, CellState>, s: Seq<u64>, full: u8, method: NeighbourMethod, k: u64, b: int)
    requires
        1 <= b <= MAX_SPARSE_BOUND,
        s.no_duplicates(),
        forall|i: int| 0 <= i < s.len() ==> #[trigger] s[i] < cube(b),
        k < cube(b),
    ensures
        occ(emitted(states, s, full, method, b), k) == full_neighbours_in(states, s, full, method, k, b),
    decreases s.len(),
{
    let tk = sparse_targets(method, k as int, b);
    if s.len() == 0 {
        let z = tk.map_values(|t: u64| s.contains(t) && is_full(states, full, t));
        assert forall|i: int| 0 <= i < z.len() implies !z[i] by {}
        lemma_trues_zero(z);
    } else {
        let p = s.drop_last();
        let q = s.last();
        assert(p.no_duplicates());
        assert forall|i: int| 0 <= i < p.len() implies #[trigger] p[i] < cube(b) by {
            assert(s[i] < cube(b));
        }
        lemma_census_prefix(states, p, full, method, k, b);
        let own = if is_full(states, full, q) {
            sparse_targets(method, q as int, b)
        } else {
            Seq::<u64>::empty()
        };
        lemma_occ_append(emitted(states, p, full, method, b), own, k);
        assert(!p.contains(q)) by {
            if p.contains(q) {
                let w = choose|w: int| 0 <= w < p.len() && p[w] == q;
                assert(s[w] == s[s.len() - 1]);
            }
        }
        let before = tk.map_values(|t: u64| p.contains(t) && is_full(states, full, t));
        let here = tk.map_values(|t: u64| t == q && is_full(states, full, q));
        let after = tk.map_values(|t: u64| s.contains(t) && is_full(states, full, t));
        assert forall|i: int| 0 <= i < tk.len() implies after[i] == (before[i] || here[i]) && !(before[i] && here[i]) by {
            let t = tk[i];
            if s.contains(t) {
                let w = choose|w: int| 0 <= w < s.len() && s[w] == t;
                if w < p.len() {
                    assert(p[w] == t);
                }
            }
            if p.contains(t) {
                let w = choose|w: int| 0 <= w < p.len() && p[w] == t;
                assert(s[w] == t);
            }
            if t == q {
                assert(s[s.len() - 1] == t);
            }
        }
        lemma_trues_or(before, here, after);
        lemma_occ_trues(tk, q);
        assert(s[s.len() - 1] < cube(b));
        if is_full(states, full, q) {
            lemma_occ_symmetric(method, q, k, b);
            assert(here =~= tk.map_values(|v: u64| v == q));
        } else {
            assert forall|i: int| 0 <= i < here.len() implies !here[i] by {}
            lemma_trues_zero(here);
            assert(occ(own, k) == 0);
        }
    }
}

pub proof fn lemma_trues_bound(s: Seq<bool>)
    ensures
        trues(s) <= s.len(),
    decreases s.len(),
{
    if s.len() > 0 {
        lemma_trues_bound(s.drop_last());
    }
}

pub(crate) proof fn lemma_trues_zero(s: Seq<bool>)
    requires
        forall|i: int| 0 <= i < s.len() ==> !s[i],
    ensures
        trues(s) == 0,
    decreases s.len(),
{
    if s.len() > 0 {
        lemma_trues_zero(s.drop_last());
    }
}

/// The neighbour census is exact: when the neighbour jobs have run over the
/// live keys (each once), the number of times key `k` was emitted equals the
/// number of neighbours of `k` that hold a fully alive cell.
pub proof fn lemma_neighbour_census(
    states: Map<u64, CellState>,
    alive: Seq<u64>,
    full: u8,
    method: NeighbourMethod,
    k: u64,
    b: int,
)
    requires
        1 <= b <= MAX_SPARSE_BOUND,
        alive.no_duplicates(),
        states.dom() == alive.to_set(),
        forall|q: u64| #[trigger] states.contains_key(q) ==> q < cube(b),
        k < cube(b),
    ensures
        occ(emitted(states, alive, full, method, b), k) == full_neighbours(states, full, method, k, b),
{
    assert forall|i: int| 0 <= i < alive.len() implies #[trigger] alive[i] < cube(b) by {
        assert(alive.to_set().contains(alive[i]));
        assert(states.contains_key(alive[i]));
    }
    lemma_census_prefix(states, alive, full, method, k, b);
    let tk = sparse_targets(method, k as int, b);
    let x = tk.map_values(|t: u64| alive.contains(t) && is_full(states, full, t));
    let y = tk.map_values(|t: u64| is_full(states, full, t));
    assert forall|i: int| 0 <= i < x.len() implies x[i] == y[i] by {
        let t = tk[i];
        if is_full(states, full, t) {
            assert(alive.to_set().contains(t));
        }
    }
    lemma_trues_same(x, y);
}

} // verus!
