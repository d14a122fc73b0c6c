//! Why the incremental neighbour counts of the dense grid stay exact: a tick
//! adds, at every cell, one for each neighbour that was born and removes one
//! for each neighbour that stopped being fully alive, which is exactly the
//! change in the number of its fully alive neighbours.
use crate::census::{
    lemma_opposite, lemma_step_symmetric, lemma_trues_bound, lemma_trues_or, lemma_trues_reverse,
    lemma_trues_zero, opposite, trues,
};
use crate::chunks::{
    grid_position, lemma_axis_split, lemma_grid_index_round_trip,
    lemma_grid_position_round_trip, Cell, Chunk, CHUNK_CELL_COUNT, CHUNK_SIZE, MAX_CHUNK_RADIUS,
};
use crate::dense::{
    adjusted, border_offset, border_reports, global_hits, global_targets, grid_cell, is_born, local_hits,
    local_targets, newly_alive, next_value, occurrences, offsets_where, reported, shaped, stops_full,
    ticked_neighbours, Report,
};
use crate::neighbours::{cube_offset, NeighbourMethod};
use crate::position::{in_cube, plus, position_at, wrapped};
use crate::rule::Rule;
use vstd::prelude::*;

verus! {

proof fn lemma_direction_small(method: NeighbourMethod, i: int)
    requires
        0 <= i < method.size(),
    ensures
        -1 <= method.direction(i).x <= 1,
        -1 <= method.direction(i).y <= 1,
        -1 <= method.direction(i).z <= 1,
{
    match method {
        NeighbourMethod::Moore => {
            let m = if i < 13 { i } else { i + 1 };
            assert(method.direction(i) == cube_offset(m));
        },
        NeighbourMethod::VonNeuman => {},
    }
}

/// Cell `j` is the `i`-th neighbour of cell `q` exactly when `q` is the
/// opposite neighbour of `j`.
proof fn lemma_global_symmetric(method: NeighbourMethod, q: int, j: int, i: int, r: int)
    requires
        1 <= r <= MAX_CHUNK_RADIUS,
        0 <= q < r * r * r * CHUNK_CELL_COUNT,
        0 <= j < r * r * r * CHUNK_CELL_COUNT,
        0 <= i < method.size(),
    ensures
        (global_targets(method, q, r)[i] == j) <==> (global_targets(method, j, r)[opposite(method, i)] == q),
{
    let s = r * CHUNK_SIZE;
    lemma_opposite(method, i);
    lemma_direction_small(method, i);
    let o = opposite(method, i);
    let d = method.direction(i);
    let e = method.direction(o);
    lemma_grid_index_round_trip(q, r);
    lemma_grid_index_round_trip(j, r);
    let pq = grid_position(q, r);
    let pj = grid_position(j, r);
    crate::chunks::lemma_radius_bounds(r);
    crate::position::lemma_wrap_congruent(plus(pq, d), s);
    crate::position::lemma_wrap_congruent(plus(pj, e), s);
    let wq = wrapped(plus(pq, d), s);
    let wj = wrapped(plus(pj, e), s);
    lemma_step_symmetric(pq.x as int, d.x as int, pj.x as int, s);
    lemma_step_symmetric(pq.y as int, d.y as int, pj.y as int, s);
    lemma_step_symmetric(pq.z as int, d.z as int, pj.z as int, s);
    lemma_grid_position_round_trip(wq, r);
    lemma_grid_position_round_trip(wj, r);
    if global_targets(method, q, r)[i] == j {
        assert(wq == pj);
        assert(wj == pq);
    }
    if global_targets(method, j, r)[o] == q {
        assert(wj == pq);
        assert(wq == pj);
    }
}

proof fn lemma_occurrences_trues(s: Seq<int>, x: int)
    ensures
        occurrences(s, x) == trues(s.map_values(|v: int| v == x)),
    decreases s.len(),
{
    if s.len() > 0 {
        lemma_occurrences_trues(s.drop_last(), x);
        assert(s.map_values(|v: int| v == x).drop_last() =~= s.drop_last().map_values(|v: int| v == x));
    }
}

/// Cell `j` is as often a neighbour of `q` as `q` is of `j`.
pub proof fn lemma_global_occurrences_symmetric(method: NeighbourMethod, q: int, j: int, r: int)
    requires
        1 <= r <= MAX_CHUNK_RADIUS,
        0 <= q < r * r * r * CHUNK_CELL_COUNT,
        0 <= j < r * r * r * CHUNK_CELL_COUNT,
    ensures
        occurrences(global_targets(method, q, r), j) == occurrences(global_targets(method, j, r), q),
{
    let tq = global_targets(method, q, r);
    let tj = global_targets(method, j, r);
    let a = tq.map_values(|v: int| v == j);
    let c = tj.map_values(|v: int| v == q);
    lemma_occurrences_trues(tq, j);
    lemma_occurrences_trues(tj, q);
    assert forall|i: int| 0 <= i < method.size() implies a[i] == c[opposite(method, i)] by {
        lemma_global_symmetric(method, q, j, i, r);
        lemma_opposite(method, i);
    }
    match method {
        NeighbourMethod::Moore => {
            lemma_trues_reverse(c, a);
        },
        NeighbourMethod::VonNeuman => {
            reveal_with_fuel(trues, 7);
            assert(a.drop_last().drop_last().drop_last().drop_last().drop_last().drop_last().len() == 0);
            assert(c.drop_last().drop_last().drop_last().drop_last().drop_last().drop_last().len() == 0);
        },
    }
}

/// The neighbours of an interior cell lie in its own chunk, where they are
/// its local neighbours.
pub proof fn lemma_interior_targets(method: NeighbourMethod, c: int, o: int, k: int, r: int)
    requires
        1 <= r <= MAX_CHUNK_RADIUS,
        0 <= c < r * r * r,
        0 <= o < CHUNK_CELL_COUNT,
        !border_offset(o),
        0 <= k < method.size(),
    ensures
        global_targets(method, c * CHUNK_CELL_COUNT + o, r)[k] == c * CHUNK_CELL_COUNT + local_targets(method, o)[k],
        0 <= local_targets(method, o)[k] < CHUNK_CELL_COUNT,
{
    let n = CHUNK_CELL_COUNT as int;
    let s = CHUNK_SIZE as int;
    let i = c * n + o;
    vstd::arithmetic::div_mod::lemma_fundamental_div_mod_converse(i, n, c, o);
    crate::position::lemma_index_position_round_trip(c, r);
    crate::position::lemma_index_position_round_trip(o, s);
    crate::chunks::lemma_radius_bounds(r);
    lemma_direction_small(method, k);
    let cv = position_at(c, r);
    let ov = position_at(o, s);
    let d = method.direction(k);
    let w = plus(ov, d);
    assert(in_cube(w, s));
    crate::position::lemma_position_index_round_trip(w, s);
    lemma_axis_split(cv.x as int, w.x as int, r);
    lemma_axis_split(cv.y as int, w.y as int, r);
    lemma_axis_split(cv.z as int, w.z as int, r);
    let p = plus(grid_position(i, r), d);
    assert(p.x == CHUNK_SIZE * cv.x + w.x);
    assert(p.y == CHUNK_SIZE * cv.y + w.y);
    assert(p.z == CHUNK_SIZE * cv.z + w.z);
    let big = r * CHUNK_SIZE;
    vstd::arithmetic::div_mod::lemma_fundamental_div_mod_converse(p.x as int, big, 0, p.x as int);
    vstd::arithmetic::div_mod::lemma_fundamental_div_mod_converse(p.y as int, big, 0, p.y as int);
    vstd::arithmetic::div_mod::lemma_fundamental_div_mod_converse(p.z as int, big, 0, p.z as int);
    assert(wrapped(p, big) == p);
}

proof fn lemma_occurrences_shift(a: Seq<int>, g: Seq<int>, base: int, o: int)
    requires
        a.len() == g.len(),
        forall|k: int| 0 <= k < a.len() ==> g[k] == base + a[k],
    ensures
        occurrences(g, base + o) == occurrences(a, o),
    decreases a.len(),
{
    if a.len() > 0 {
        lemma_occurrences_shift(a.drop_last(), g.drop_last(), base, o);
    }
}

/// `t` is one of the entries of `s`.
pub open spec fn listed(s: Seq<usize>, t: int) -> bool {
    exists|w: int| 0 <= w < s.len() && s[w] == t
}

proof fn lemma_offsets_where_members(rule: Rule, cells: Seq<Cell>, n: int, base: int, report: Report, t: int)
    requires
        0 <= base,
        0 <= n,
        base + n <= usize::MAX,
    ensures
        listed(offsets_where(rule, cells, n, base, report), t) <==> (base <= t < base + n && reported(
            rule,
            cells,
            t - base,
            report,
        )),
    decreases n,
{
    if n > 0 {
        lemma_offsets_where_members(rule, cells, n - 1, base, report, t);
        let prev = offsets_where(rule, cells, n - 1, base, report);
        let cur = offsets_where(rule, cells, n, base, report);
        if listed(cur, t) {
            let w = choose|w: int| 0 <= w < cur.len() && cur[w] == t;
            if w < prev.len() {
                assert(prev[w] == t);
            }
        }
        if listed(prev, t) {
            let w = choose|w: int| 0 <= w < prev.len() && prev[w] == t;
            assert(cur[w] == t);
        }
        if t == base + n - 1 && reported(rule, cells, n - 1, report) {
            assert(cur[cur.len() - 1] == t);
        }
    }
}

proof fn lemma_offsets_where_increasing(rule: Rule, cells: Seq<Cell>, n: int, base: int, report: Report)
    requires
        0 <= base,
        0 <= n,
        base + n <= usize::MAX,
    ensures
        forall|a: int, b: int|
            0 <= a < b < offsets_where(rule, cells, n, base, report).len() ==> offsets_where(
                rule,
                cells,
                n,
                base,
                report,
            )[a] < offsets_where(rule, cells, n, base, report)[b],
        forall|a: int|
            0 <= a < offsets_where(rule, cells, n, base, report).len() ==> base <= #[trigger] offsets_where(
                rule,
                cells,
                n,
                base,
                report,
            )[a] < base + n,
    decreases n,
{
    if n > 0 {
        lemma_offsets_where_increasing(rule, cells, n - 1, base, report);
        let prev = offsets_where(rule, cells, n - 1, base, report);
        let cur = offsets_where(rule, cells, n, base, report);
        if reported(rule, cells, n - 1, report) {
            assert(cur == prev.push((base + n - 1) as usize));
            assert forall|a: int, b: int| 0 <= a < b < cur.len() implies cur[a] < cur[b] by {
                if b == cur.len() - 1 {
                    assert(cur[a] == prev[a]);
                    assert(prev[a] < base + n - 1);
                } else {
                    assert(cur[a] == prev[a] && cur[b] == prev[b]);
                }
            }
            assert forall|a: int| 0 <= a < cur.len() implies base <= #[trigger] cur[a] < base + n by {
                if a < prev.len() {
                    assert(cur[a] == prev[a]);
                }
            }
        } else {
            assert(cur == prev);
        }
    }
}

proof fn lemma_border_reports_facts(rule: Rule, chunks: Seq<Chunk>, n: int, report: Report, t: int)
    requires
        0 <= n,
        n * CHUNK_CELL_COUNT <= usize::MAX,
    ensures
        listed(border_reports(rule, chunks, n, report), t) <==> (0 <= t < n * CHUNK_CELL_COUNT && reported(
            rule,
            chunks[t / CHUNK_CELL_COUNT as int].0@,
            t % CHUNK_CELL_COUNT as int,
            report,
        )),
        forall|a: int, b: int|
            0 <= a < b < border_reports(rule, chunks, n, report).len() ==> border_reports(rule, chunks, n, report)[a]
                < border_reports(rule, chunks, n, report)[b],
        forall|a: int|
            0 <= a < border_reports(rule, chunks, n, report).len() ==> #[trigger] border_reports(
                rule,
                chunks,
                n,
                report,
            )[a] < n * CHUNK_CELL_COUNT,
    decreases n,
{
    if n > 0 {
        let ccc = CHUNK_CELL_COUNT as int;
        let base = (n - 1) * ccc;
        assert(base + ccc == n * ccc);
        lemma_border_reports_facts(rule, chunks, n - 1, report, t);
        let prev = border_reports(rule, chunks, n - 1, report);
        let last = offsets_where(rule, chunks[n - 1].0@, ccc, base, report);
        let cur = border_reports(rule, chunks, n, report);
        assert(cur == prev + last);
        lemma_offsets_where_members(rule, chunks[n - 1].0@, ccc, base, report, t);
        lemma_offsets_where_increasing(rule, chunks[n - 1].0@, ccc, base, report);
        if listed(cur, t) {
            let w = choose|w: int| 0 <= w < cur.len() && cur[w] == t;
            if w < prev.len() {
                assert(prev[w] == t);
            } else {
                assert(last[w - prev.len()] == t);
            }
        }
        if listed(prev, t) {
            let w = choose|w: int| 0 <= w < prev.len() && prev[w] == t;
            assert(cur[w] == t);
        }
        if listed(last, t) {
            let w = choose|w: int| 0 <= w < last.len() && last[w] == t;
            assert(cur[prev.len() + w] == t);
        }
        if base <= t < base + ccc {
            vstd::arithmetic::div_mod::lemma_fundamental_div_mod_converse(t, ccc, n - 1, t - base);
        }
        if 0 <= t < base {
            vstd::arithmetic::div_mod::lemma_fundamental_div_mod(t, ccc);
            assert(t / ccc < n - 1) by (nonlinear_arith)
                requires t == ccc * (t / ccc) + t % ccc, 0 <= t % ccc, t < (n - 1) * ccc, ccc > 0;
        }
        assert forall|a: int, b: int| 0 <= a < b < cur.len() implies cur[a] < cur[b] by {
            if b < prev.len() {
            } else if a >= prev.len() {
                assert(cur[a] == last[a - prev.len()]);
                assert(cur[b] == last[b - prev.len()]);
            } else {
                assert(cur[a] == prev[a]);
                assert(cur[b] == last[b - prev.len()]);
                assert(prev[a] < base);
            }
        }
        assert forall|a: int| 0 <= a < cur.len() implies #[trigger] cur[a] < n * ccc by {
            if a < prev.len() {
                assert(cur[a] == prev[a]);
            } else {
                assert(cur[a] == last[a - prev.len()]);
            }
        }
    }
}

/// Summing, over the distinct cells of `s`, how often `j` is their
/// neighbour counts the neighbours of `j` that are listed in `s`.
proof fn lemma_global_hits_listed(method: NeighbourMethod, s: Seq<usize>, j: int, r: int)
    requires
        1 <= r <= MAX_CHUNK_RADIUS,
        0 <= j < r * r * r * CHUNK_CELL_COUNT,
        s.no_duplicates(),
        forall|a: int| 0 <= a < s.len() ==> #[trigger] s[a] < r * r * r * CHUNK_CELL_COUNT,
    ensures
        global_hits(method, s, j, r) == trues(global_targets(method, j, r).map_values(|t: int| listed(s, t))),
    decreases s.len(),
{
    let tj = global_targets(method, j, r);
    if s.len() == 0 {
        let z = tj.map_values(|t: int| listed(s, t));
        assert forall|i: int| 0 <= i < z.len() implies !z[i] by {}
        lemma_trues_zero(z);
    } else {
        let p = s.drop_last();
        let q = s.last();
        assert(p.no_duplicates());
        lemma_global_hits_listed(method, p, j, r);
        assert(s[s.len() - 1] < r * r * r * CHUNK_CELL_COUNT);
        lemma_global_occurrences_symmetric(method, q as int, j, r);
        lemma_occurrences_trues(tj, q as int);
        let before = tj.map_values(|t: int| listed(p, t));
        let here = tj.map_values(|v: int| v == q as int);
        let after = tj.map_values(|t: int| listed(s, t));
        assert forall|i: int| 0 <= i < tj.len() implies after[i] == (before[i] || here[i]) && !(before[i] && here[i]) by {
            let t = tj[i];
            if listed(s, t) {
                let w = choose|w: int| 0 <= w < s.len() && s[w] == t;
                if w < p.len() {
                    assert(p[w] == t);
                }
            }
            if listed(p, t) {
                let w = choose|w: int| 0 <= w < p.len() && p[w] == t;
                assert(s[w] == t);
                assert(s[w] != s[s.len() - 1]);
            }
            if t == q {
                assert(s[s.len() - 1] == t);
            }
        }
        lemma_trues_or(before, here, after);
    }
}

/// The local deltas of a chunk's interior cells are the global deltas of
/// those cells.
proof fn lemma_local_hits_global(rule: Rule, cells: Seq<Cell>, n: int, c: int, o: int, r: int, report: Report)
    requires
        1 <= r <= MAX_CHUNK_RADIUS,
        0 <= c < r * r * r,
        0 <= o < CHUNK_CELL_COUNT,
        0 <= n <= CHUNK_CELL_COUNT,
        report == Report::BornInterior || report == Report::StopsInterior,
    ensures
        local_hits(rule.neighbour_method, offsets_where(rule, cells, n, 0, report), o) == global_hits(
            rule.neighbour_method,
            offsets_where(rule, cells, n, c * CHUNK_CELL_COUNT, report),
            c * CHUNK_CELL_COUNT + o,
            r,
        ),
    decreases n,
{
    let ccc = CHUNK_CELL_COUNT as int;
    crate::chunks::lemma_radius_bounds(r);
    assert(c * ccc + ccc <= r * r * r * ccc) by (nonlinear_arith)
        requires 0 <= c < r * r * r, ccc == 32768;
    if n > 0 {
        let m = rule.neighbour_method;
        let base = c * ccc;
        lemma_local_hits_global(rule, cells, n - 1, c, o, r, report);
        let a1 = offsets_where(rule, cells, n - 1, 0, report);
        let a2 = offsets_where(rule, cells, n, 0, report);
        let g1 = offsets_where(rule, cells, n - 1, base, report);
        let g2 = offsets_where(rule, cells, n, base, report);
        if reported(rule, cells, n - 1, report) {
            let x = n - 1;
            assert(a2 == a1.push(x as usize));
            assert(g2 == g1.push((base + x) as usize));
            assert(a2.drop_last() =~= a1);
            assert(g2.drop_last() =~= g1);
            assert(local_hits(m, a2, o) == local_hits(m, a1, o) + occurrences(local_targets(m, x), o));
            assert(global_hits(m, g2, base + o, r) == global_hits(m, g1, base + o, r) + occurrences(
                global_targets(m, base + x, r),
                base + o,
            ));
            let lt = local_targets(m, x);
            let gt = global_targets(m, base + x, r);
            assert forall|k: int| 0 <= k < lt.len() implies gt[k] == base + lt[k] by {
                lemma_interior_targets(m, c, x, k, r);
            }
            lemma_occurrences_shift(lt, gt, base, o);
        } else {
            assert(a2 == a1);
            assert(g2 == g1);
        }
    }
}

/// Every count equals the number of fully alive neighbours, and no value
/// exceeds the rule's `states`.
pub open spec fn counts_exact(rule: Rule, chunks: Seq<Chunk>, r: int) -> bool {
    forall|c: int, o: int|
        0 <= c < chunks.len() && 0 <= o < CHUNK_CELL_COUNT ==> {
            &&& (#[trigger] chunks[c].0@[o]).neighbours == full_count(rule, chunks, c * CHUNK_CELL_COUNT + o, r)
            &&& chunks[c].0@[o].value <= rule.states
        }
}

/// The number of neighbours of cell `j` that are fully alive.
pub open spec fn full_count(rule: Rule, chunks: Seq<Chunk>, j: int, r: int) -> nat {
    trues(global_targets(rule.neighbour_method, j, r).map_values(|t: int| grid_cell(chunks, t).value == rule.states))
}

proof fn lemma_next_full(rule: Rule, cell: Cell)
    requires
        rule.states >= 1,
        cell.value <= rule.states,
    ensures
        (next_value(rule, cell) == rule.states) == ((cell.value == rule.states && !stops_full(rule, cell))
            || is_born(rule, cell)),
        next_value(rule, cell) <= rule.states,
        is_born(rule, cell) ==> cell.value != rule.states,
        stops_full(rule, cell) ==> cell.value == rule.states,
{
}

proof fn lemma_targets_in_range(method: NeighbourMethod, j: int, r: int, i: int)
    requires
        1 <= r <= MAX_CHUNK_RADIUS,
        0 <= j < r * r * r * CHUNK_CELL_COUNT,
        0 <= i < method.size(),
    ensures
        0 <= global_targets(method, j, r)[i] < r * r * r * CHUNK_CELL_COUNT,
{
    crate::chunks::lemma_radius_bounds(r);
    let p = plus(grid_position(j, r), method.direction(i));
    crate::position::lemma_wrap_congruent(p, r * CHUNK_SIZE);
    lemma_grid_position_round_trip(wrapped(p, r * CHUNK_SIZE), r);
}

/// The interior report of chunk `c` and the border report of the grid for
/// births (`born`) or stops.
pub open spec fn kind_holds(rule: Rule, cell: Cell, born: bool) -> bool {
    if born {
        is_born(rule, cell)
    } else {
        stops_full(rule, cell)
    }
}

pub open spec fn interior_report(born: bool) -> Report {
    if born {
        Report::BornInterior
    } else {
        Report::StopsInterior
    }
}

pub open spec fn border_report(born: bool) -> Report {
    if born {
        Report::BornBorder
    } else {
        Report::StopsBorder
    }
}

/// A neighbour of a cell of chunk `c` that was born (or stopped) is either
/// in chunk `c`'s interior report or in the grid's border report, not both.
proof fn lemma_neighbour_reported(rule: Rule, old: Seq<Chunk>, r: int, c: int, o: int, i: int, born: bool)
    requires
        1 <= r <= MAX_CHUNK_RADIUS,
        old.len() == r * r * r,
        0 <= c < r * r * r,
        0 <= o < CHUNK_CELL_COUNT,
        0 <= i < rule.neighbour_method.size(),
    ensures
        ({
            let ccc = CHUNK_CELL_COUNT as int;
            let t = global_targets(rule.neighbour_method, c * ccc + o, r)[i];
            let inner = listed(offsets_where(rule, old[c].0@, ccc, c * ccc, interior_report(born)), t);
            let outer = listed(border_reports(rule, old, r * r * r, border_report(born)), t);
            &&& kind_holds(rule, grid_cell(old, t), born) == (inner || outer)
            &&& !(inner && outer)
        }),
{
    let ccc = CHUNK_CELL_COUNT as int;
    let m = rule.neighbour_method;
    let j = c * ccc + o;
    let n = r * r * r * ccc;
    crate::chunks::lemma_radius_bounds(r);
    assert(c * ccc + ccc <= n) by (nonlinear_arith)
        requires 0 <= c < r * r * r, ccc == 32768, n == r * r * r * ccc;
    let t = global_targets(m, j, r)[i];
    lemma_targets_in_range(m, j, r, i);
    vstd::arithmetic::div_mod::lemma_fundamental_div_mod(t, ccc);
    let ct = t / ccc;
    let ot = t % ccc;
    assert(0 <= ct < r * r * r) by (nonlinear_arith)
        requires t == ccc * ct + ot, 0 <= ot < ccc, 0 <= t < n, n == r * r * r * ccc, ccc > 0;
    lemma_offsets_where_members(rule, old[c].0@, ccc, c * ccc, interior_report(born), t);
    lemma_border_reports_facts(rule, old, r * r * r, border_report(born), t);
    vstd::arithmetic::div_mod::lemma_fundamental_div_mod_converse(j, ccc, c, o);
    if c * ccc <= t < c * ccc + ccc {
        vstd::arithmetic::div_mod::lemma_fundamental_div_mod_converse(t, ccc, c, t - c * ccc);
    }
    if kind_holds(rule, grid_cell(old, t), born) && !border_offset(ot) {
        lemma_global_symmetric(m, j, t, i, r);
        lemma_opposite(m, i);
        let k = opposite(m, i);
        lemma_interior_targets(m, ct, ot, k, r);
        let local = local_targets(m, ot)[k];
        vstd::arithmetic::div_mod::lemma_fundamental_div_mod_converse(j, ccc, ct, local);
        assert(ct == c);
    }
}

/// The deltas a cell receives in one tick, for births (`born`) or stops,
/// count its neighbours that were born (or stopped).
proof fn lemma_deltas_count(rule: Rule, old: Seq<Chunk>, r: int, c: int, o: int, born: bool)
    requires
        1 <= r <= MAX_CHUNK_RADIUS,
        old.len() == r * r * r,
        0 <= c < r * r * r,
        0 <= o < CHUNK_CELL_COUNT,
    ensures
        local_hits(rule.neighbour_method, offsets_where(rule, old[c].0@, CHUNK_CELL_COUNT as int, 0, interior_report(born)), o)
            + global_hits(
            rule.neighbour_method,
            border_reports(rule, old, r * r * r, border_report(born)),
            c * CHUNK_CELL_COUNT + o,
            r,
        ) == trues(
            global_targets(rule.neighbour_method, c * CHUNK_CELL_COUNT + o, r).map_values(
                |t: int| kind_holds(rule, grid_cell(old, t), born),
            ),
        ),
        local_hits(rule.neighbour_method, offsets_where(rule, old[c].0@, CHUNK_CELL_COUNT as int, 0, interior_report(born)), o)
            <= trues(
            global_targets(rule.neighbour_method, c * CHUNK_CELL_COUNT + o, r).map_values(
                |t: int| kind_holds(rule, grid_cell(old, t), born),
            ),
        ),
{
    let ccc = CHUNK_CELL_COUNT as int;
    let m = rule.neighbour_method;
    let j = c * ccc + o;
    let n = r * r * r * ccc;
    crate::chunks::lemma_radius_bounds(r);
    assert(c * ccc + ccc <= n) by (nonlinear_arith)
        requires 0 <= c < r * r * r, ccc == 32768, n == r * r * r * ccc;
    assert(0 <= j < n);
    let inner = offsets_where(rule, old[c].0@, ccc, c * ccc, interior_report(born));
    let outer = border_reports(rule, old, r * r * r, border_report(born));
    lemma_local_hits_global(rule, old[c].0@, ccc, c, o, r, interior_report(born));
    lemma_offsets_where_increasing(rule, old[c].0@, ccc, c * ccc, interior_report(born));
    lemma_border_reports_facts(rule, old, r * r * r, border_report(born), 0);
    assert(inner.no_duplicates()) by {
        assert forall|x: int, y: int| 0 <= x < inner.len() && 0 <= y < inner.len() && x != y implies inner[x] != inner[y] by {
            if x < y {
                assert(inner[x] < inner[y]);
            } else {
                assert(inner[y] < inner[x]);
            }
        }
    }
    assert(outer.no_duplicates()) by {
        assert forall|x: int, y: int| 0 <= x < outer.len() && 0 <= y < outer.len() && x != y implies outer[x] != outer[y] by {
            if x < y {
                assert(outer[x] < outer[y]);
            } else {
                assert(outer[y] < outer[x]);
            }
        }
    }
    lemma_global_hits_listed(m, inner, j, r);
    lemma_global_hits_listed(m, outer, j, r);
    let tj = global_targets(m, j, r);
    let a = tj.map_values(|t: int| listed(inner, t));
    let b = tj.map_values(|t: int| listed(outer, t));
    let k = tj.map_values(|t: int| kind_holds(rule, grid_cell(old, t), born));
    assert forall|i: int| 0 <= i < tj.len() implies k[i] == (a[i] || b[i]) && !(a[i] && b[i]) by {
        lemma_neighbour_reported(rule, old, r, c, o, i, born);
    }
    lemma_trues_or(a, b, k);
}

proof fn lemma_cell_flags(rule: Rule, old: Seq<Chunk>, new: Seq<Chunk>, r: int, c: int, o: int)
    requires
        1 <= r <= MAX_CHUNK_RADIUS,
        rule.states >= 1,
        shaped(old, r * r * r),
        new.len() == r * r * r,
        counts_exact(rule, old, r),
        forall|c2: int, o2: int|
            0 <= c2 < r * r * r && 0 <= o2 < CHUNK_CELL_COUNT ==> #[trigger] new[c2].0@[o2] == (Cell {
                value: next_value(rule, old[c2].0@[o2]),
                neighbours: ticked_neighbours(rule, old, c2, o2, r),
            }),
        0 <= c < r * r * r,
        0 <= o < CHUNK_CELL_COUNT,
    ensures
        ({
            let tj = global_targets(rule.neighbour_method, c * CHUNK_CELL_COUNT + o, r);
            let of = trues(tj.map_values(|t: int| grid_cell(old, t).value == rule.states));
            let nf = trues(tj.map_values(|t: int| grid_cell(new, t).value == rule.states));
            let born = trues(tj.map_values(|t: int| kind_holds(rule, grid_cell(old, t), true)));
            let stop = trues(tj.map_values(|t: int| kind_holds(rule, grid_cell(old, t), false)));
            &&& nf + stop == of + born
            &&& stop <= of
            &&& of <= 26
            &&& born <= 26
        }),
{
    let ccc = CHUNK_CELL_COUNT as int;
    let m = rule.neighbour_method;
    let j = c * ccc + o;
    let n = r * r * r * ccc;
    crate::chunks::lemma_radius_bounds(r);
    assert(c * ccc + ccc <= n) by (nonlinear_arith)
        requires 0 <= c < r * r * r, ccc == 32768, n == r * r * r * ccc;
    let tj = global_targets(m, j, r);
    let of = tj.map_values(|t: int| grid_cell(old, t).value == rule.states);
    let nf = tj.map_values(|t: int| grid_cell(new, t).value == rule.states);
    let keep = tj.map_values(|t: int| grid_cell(old, t).value == rule.states && !stops_full(rule, grid_cell(old, t)));
    let born = tj.map_values(|t: int| kind_holds(rule, grid_cell(old, t), true));
    let stop = tj.map_values(|t: int| kind_holds(rule, grid_cell(old, t), false));
    assert forall|i: int| 0 <= i < tj.len() implies {
        &&& nf[i] == (keep[i] || born[i])
        &&& !(keep[i] && born[i])
        &&& of[i] == (keep[i] || stop[i])
        &&& !(keep[i] && stop[i])
    } by {
        let t = tj[i];
        lemma_targets_in_range(m, j, r, i);
        vstd::arithmetic::div_mod::lemma_fundamental_div_mod(t, ccc);
        let ct = t / ccc;
        let ot = t % ccc;
        assert(0 <= ct < r * r * r) by (nonlinear_arith)
            requires t == ccc * ct + ot, 0 <= ot < ccc, 0 <= t < n, n == r * r * r * ccc, ccc > 0;
        assert(old[ct].0@[ot].value <= rule.states);
        assert(new[ct].0@[ot].value == next_value(rule, old[ct].0@[ot]));
        lemma_next_full(rule, old[ct].0@[ot]);
    }
    lemma_trues_or(keep, born, nf);
    lemma_trues_or(keep, stop, of);
    lemma_trues_bound(of);
    lemma_trues_bound(born);
}

proof fn lemma_phases_arithmetic(a: u8, lb: nat, ls: nat, gb: nat, gs: nat)
    requires
        a <= 26,
        lb + gb <= 26,
        ls + gs <= a,
    ensures
        adjusted(adjusted(adjusted(adjusted(a, lb, true), ls, false), gb, true), gs, false) == a + lb + gb
            - ls - gs,
{
}

/// One tick keeps the count of one cell exact.
proof fn lemma_cell_after_tick(rule: Rule, old: Seq<Chunk>, new: Seq<Chunk>, r: int, c: int, o: int)
    requires
        1 <= r <= MAX_CHUNK_RADIUS,
        rule.states >= 1,
        shaped(old, r * r * r),
        new.len() == r * r * r,
        counts_exact(rule, old, r),
        forall|c2: int, o2: int|
            0 <= c2 < r * r * r && 0 <= o2 < CHUNK_CELL_COUNT ==> #[trigger] new[c2].0@[o2] == (Cell {
                value: next_value(rule, old[c2].0@[o2]),
                neighbours: ticked_neighbours(rule, old, c2, o2, r),
            }),
        0 <= c < r * r * r,
        0 <= o < CHUNK_CELL_COUNT,
    ensures
        new[c].0@[o].neighbours == full_count(rule, new, c * CHUNK_CELL_COUNT + o, r),
        new[c].0@[o].value <= rule.states,
{
    let ccc = CHUNK_CELL_COUNT as int;
    let m = rule.neighbour_method;
    let j = c * ccc + o;
    lemma_cell_flags(rule, old, new, r, c, o);
    lemma_deltas_count(rule, old, r, c, o, true);
    lemma_deltas_count(rule, old, r, c, o, false);
    lemma_next_full(rule, old[c].0@[o]);
    let cells = old[c].0@;
    let lb = local_hits(m, offsets_where(rule, cells, ccc, 0, Report::BornInterior), o);
    let ls = local_hits(m, offsets_where(rule, cells, ccc, 0, Report::StopsInterior), o);
    let gb = global_hits(m, border_reports(rule, old, old.len() as int, Report::BornBorder), j, r);
    let gs = global_hits(m, border_reports(rule, old, old.len() as int, Report::StopsBorder), j, r);
    assert(old[c].0@[o].neighbours == full_count(rule, old, j, r));
    lemma_phases_arithmetic(cells[o].neighbours, lb, ls, gb, gs);
    assert(ticked_neighbours(rule, old, c, o, r) == adjusted(
        adjusted(adjusted(adjusted(cells[o].neighbours, lb, true), ls, false), gb, true),
        gs,
        false,
    ));
}

/// A tick keeps the neighbour counts exact: if every count of the grid
/// equals the number of fully alive neighbours before a tick (and no value
/// exceeds `states`), the same holds after it.
pub proof fn lemma_tick_keeps_counts(rule: Rule, old: Seq<Chunk>, new: Seq<Chunk>, r: int)
    requires
        1 <= r <= MAX_CHUNK_RADIUS,
        rule.states >= 1,
        shaped(old, r * r * r),
        new.len() == r * r * r,
        counts_exact(rule, old, r),
        forall|c: int, o: int|
            0 <= c < r * r * r && 0 <= o < CHUNK_CELL_COUNT ==> #[trigger] new[c].0@[o] == (Cell {
                value: next_value(rule, old[c].0@[o]),
                neighbours: ticked_neighbours(rule, old, c, o, r),
            }),
    ensures
        counts_exact(rule, new, r),
{
    assert forall|c: int, o: int| 0 <= c < new.len() && 0 <= o < CHUNK_CELL_COUNT implies {
        &&& (#[trigger] new[c].0@[o]).neighbours == full_count(rule, new, c * CHUNK_CELL_COUNT + o, r)
        &&& new[c].0@[o].value <= rule.states
    } by {
        lemma_cell_after_tick(rule, old, new, r, c, o);
    }
}

proof fn lemma_newly_alive_facts(old: Seq<Chunk>, ts: Seq<int>, t: int)
    requires
        forall|i: int| 0 <= i < ts.len() ==> 0 <= #[trigger] ts[i] <= usize::MAX,
    ensures
        listed(newly_alive(old, ts), t) <==> (ts.contains(t) && grid_cell(old, t).value == 0),
        newly_alive(old, ts).no_duplicates(),
        forall|a: int| 0 <= a < newly_alive(old, ts).len() ==> ts.contains(#[trigger] newly_alive(old, ts)[a] as int),
    decreases ts.len(),
{
    if ts.len() > 0 {
        let p = ts.drop_last();
        let q = ts.last();
        assert(0 <= ts[ts.len() - 1] <= usize::MAX);
        assert forall|i: int| 0 <= i < p.len() implies 0 <= #[trigger] p[i] <= usize::MAX by {
            assert(0 <= ts[i] <= usize::MAX);
        }
        lemma_newly_alive_facts(old, p, t);
        lemma_newly_alive_facts(old, p, q);
        let prev = newly_alive(old, p);
        let cur = newly_alive(old, ts);
        assert forall|x: int| ts.contains(x) <==> (p.contains(x) || x == q) by {
            if ts.contains(x) {
                let w = choose|w: int| 0 <= w < ts.len() && ts[w] == x;
                if w < p.len() {
                    assert(p[w] == x);
                }
            }
            if p.contains(x) {
                let w = choose|w: int| 0 <= w < p.len() && p[w] == x;
                assert(ts[w] == x);
            }
            if x == q {
                assert(ts[ts.len() - 1] == x);
            }
        }
        if grid_cell(old, q).value == 0 && !p.contains(q) {
            assert(cur == prev.push(q as usize));
            assert(!listed(prev, q));
            if listed(cur, t) {
                let w = choose|w: int| 0 <= w < cur.len() && cur[w] == t;
                if w < prev.len() {
                    assert(prev[w] == t);
                }
            }
            if listed(prev, t) {
                let w = choose|w: int| 0 <= w < prev.len() && prev[w] == t;
                assert(cur[w] == t);
            }
            assert forall|x: int, y: int| 0 <= x < cur.len() && 0 <= y < cur.len() && x != y implies cur[x] != cur[y] by {
                if x == cur.len() - 1 {
                    assert(cur[y] == prev[y]);
                    assert(listed(prev, prev[y] as int));
                } else if y == cur.len() - 1 {
                    assert(cur[x] == prev[x]);
                    assert(listed(prev, prev[x] as int));
                } else {
                    assert(cur[x] == prev[x] && cur[y] == prev[y]);
                }
            }
            if t == q {
                assert(cur[cur.len() - 1] == q as usize);
            }
            assert forall|a: int| 0 <= a < cur.len() implies ts.contains(#[trigger] cur[a] as int) by {
                if a < prev.len() {
                    assert(cur[a] == prev[a]);
                }
            }
        } else {
            assert(cur == prev);
        }
    }
}

/// Seeding keeps the neighbour counts exact: a cell brought to life adds one
/// to each of its neighbours, which gained one fully alive neighbour.
pub proof fn lemma_seed_keeps_counts(rule: Rule, old: Seq<Chunk>, new: Seq<Chunk>, ts: Seq<int>, r: int)
    requires
        1 <= r <= MAX_CHUNK_RADIUS,
        rule.states >= 1,
        shaped(old, r * r * r),
        new.len() == r * r * r,
        counts_exact(rule, old, r),
        forall|i: int| 0 <= i < ts.len() ==> 0 <= #[trigger] ts[i] < r * r * r * CHUNK_CELL_COUNT,
        r * r * r * CHUNK_CELL_COUNT <= usize::MAX,
        forall|c: int, o: int|
            0 <= c < r * r * r && 0 <= o < CHUNK_CELL_COUNT ==> #[trigger] new[c].0@[o] == (Cell {
                value: if old[c].0@[o].value == 0 && ts.contains(c * CHUNK_CELL_COUNT + o) {
                    rule.states
                } else {
                    old[c].0@[o].value
                },
                neighbours: adjusted(
                    old[c].0@[o].neighbours,
                    global_hits(rule.neighbour_method, newly_alive(old, ts), c * CHUNK_CELL_COUNT + o, r),
                    true,
                ),
            }),
    ensures
        counts_exact(rule, new, r),
{
    let ccc = CHUNK_CELL_COUNT as int;
    let m = rule.neighbour_method;
    let n = r * r * r * ccc;
    let na = newly_alive(old, ts);
    assert forall|i: int| 0 <= i < ts.len() implies 0 <= #[trigger] ts[i] <= usize::MAX by {
        assert(0 <= ts[i] < n);
    }
    lemma_newly_alive_facts(old, ts, 0);
    assert forall|a: int| 0 <= a < na.len() implies #[trigger] na[a] < n by {
        assert(ts.contains(na[a] as int));
        let w = choose|w: int| 0 <= w < ts.len() && ts[w] == na[a] as int;
        assert(0 <= ts[w] < n);
    }
    assert forall|c: int, o: int| 0 <= c < new.len() && 0 <= o < CHUNK_CELL_COUNT implies {
        &&& (#[trigger] new[c].0@[o]).neighbours == full_count(rule, new, c * CHUNK_CELL_COUNT + o, r)
        &&& new[c].0@[o].value <= rule.states
    } by {
        let j = c * ccc + o;
        crate::chunks::lemma_radius_bounds(r);
        assert(c * ccc + ccc <= n) by (nonlinear_arith)
            requires 0 <= c < r * r * r, ccc == 32768, n == r * r * r * ccc;
        lemma_global_hits_listed(m, na, j, r);
        let tj = global_targets(m, j, r);
        let of = tj.map_values(|t: int| grid_cell(old, t).value == rule.states);
        let nf = tj.map_values(|t: int| grid_cell(new, t).value == rule.states);
        let li = tj.map_values(|t: int| listed(na, t));
        assert forall|i: int| 0 <= i < tj.len() implies nf[i] == (of[i] || li[i]) && !(of[i] && li[i]) by {
            let t = tj[i];
            lemma_targets_in_range(m, j, r, i);
            vstd::arithmetic::div_mod::lemma_fundamental_div_mod(t, ccc);
            let ct = t / ccc;
            let ot = t % ccc;
            assert(0 <= ct < r * r * r) by (nonlinear_arith)
                requires t == ccc * ct + ot, 0 <= ot < ccc, 0 <= t < n, n == r * r * r * ccc, ccc > 0;
            assert(ct * ccc + ot == t);
            lemma_newly_alive_facts(old, ts, t);
            assert(old[ct].0@[ot].value <= rule.states);
        }
        lemma_trues_or(of, li, nf);
        lemma_trues_bound(of);
        lemma_trues_bound(li);
        assert(old[c].0@[o].neighbours == trues(of));
    }
}

/// On a grid of dead cells every count is exact.
pub proof fn lemma_dead_grid_exact(rule: Rule, chunks: Seq<Chunk>, r: int)
    requires
        1 <= r <= MAX_CHUNK_RADIUS,
        rule.states >= 1,
        shaped(chunks, r * r * r),
        forall|c: int, o: int|
            0 <= c < chunks.len() && 0 <= o < CHUNK_CELL_COUNT ==> #[trigger] chunks[c].0@[o] == crate::chunks::dead_cell(),
    ensures
        counts_exact(rule, chunks, r),
{
    let ccc = CHUNK_CELL_COUNT as int;
    let n = r * r * r * ccc;
    assert forall|c: int, o: int| 0 <= c < chunks.len() && 0 <= o < CHUNK_CELL_COUNT implies {
        &&& (#[trigger] chunks[c].0@[o]).neighbours == full_count(rule, chunks, c * CHUNK_CELL_COUNT + o, r)
        &&& chunks[c].0@[o].value <= rule.states
    } by {
        let j = c * ccc + o;
        crate::chunks::lemma_radius_bounds(r);
        assert(c * ccc + ccc <= n) by (nonlinear_arith)
            requires 0 <= c < r * r * r, ccc == 32768, n == r * r * r * ccc;
        let tj = global_targets(rule.neighbour_method, j, r);
        let f = tj.map_values(|t: int| grid_cell(chunks, t).value == rule.states);
        assert forall|i: int| 0 <= i < f.len() implies !f[i] by {
            let t = tj[i];
            lemma_targets_in_range(rule.neighbour_method, j, r, i);
            vstd::arithmetic::div_mod::lemma_fundamental_div_mod(t, ccc);
            let ct = t / ccc;
            let ot = t % ccc;
            assert(0 <= ct < r * r * r) by (nonlinear_arith)
                requires t == ccc * ct + ot, 0 <= ot < ccc, 0 <= t < n, n == r * r * r * ccc, ccc > 0;
            assert(chunks[ct].0@[ot] == crate::chunks::dead_cell());
        }
        lemma_trues_zero(f);
    }
}

} // verus!
