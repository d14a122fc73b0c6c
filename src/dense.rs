//! The chunk-parallel simulation over the dense grid.
//!
//! One tick has three phases. Each chunk first decides its own cells' next
//! values and reports the cells that were born or stopped being fully alive,
//! split into interior cells (whose neighbours lie in the same chunk) and
//! border cells. Each chunk then applies the neighbour-count deltas of its
//! interior cells. Last, the deltas of the border cells are applied one at a
//! time across the whole grid. The first two phases touch one chunk each and
//! can run in parallel; this module holds the work of each phase.
use crate::chunks::{
    index_to_chunk_index, index_to_chunk_offset, on_border, Cell, Chunk, Chunks, CHUNK_CELL_COUNT,
    CHUNK_SIZE,
};
use crate::neighbours::NeighbourMethod;
use crate::noise::{within, NOISE_AMOUNT, NOISE_RADIUS};
use crate::position::{in_cube, linear_index, middle, plus, position_at, wrap, wrapped, Position};
use crate::chunks::{grid_index, grid_position, MAX_CHUNK_RADIUS};
use crate::rule::{Rule, Value};
use vstd::arithmetic::div_mod::{lemma_fundamental_div_mod, lemma_fundamental_div_mod_converse};
use crate::counts::{counts_exact, lemma_dead_grid_exact, lemma_seed_keeps_counts, lemma_tick_keeps_counts};
use vstd::prelude::*;

verus! {

/// Whether neighbour count `n` belongs to `v`; counts past the table belong
/// to no set.
pub open spec fn allows(v: Value, n: u8) -> bool {
    n < 27 && v.has(n as int)
}

fn allows_exec(v: &Value, n: u8) -> (r: bool)
    ensures
        r == allows(*v, n),
{
    n < 27 && v.in_range(n)
}

/// A dead cell that the birth rule brings to life.
pub open spec fn is_born(rule: Rule, c: Cell) -> bool {
    c.value == 0 && allows(rule.birth_rule, c.neighbours)
}

/// A fully alive cell that the survival rule lets go: it starts to decay.
pub open spec fn stops_full(rule: Rule, c: Cell) -> bool {
    c.value != 0 && c.value == rule.states && !allows(rule.survival_rule, c.neighbours)
}

/// The value of a cell after one tick.
pub open spec fn next_value(rule: Rule, c: Cell) -> u8 {
    if c.value == 0 {
        if allows(rule.birth_rule, c.neighbours) {
            rule.states
        } else {
            0
        }
    } else if c.value < rule.states || !allows(rule.survival_rule, c.neighbours) {
        (c.value - 1) as u8
    } else {
        c.value
    }
}

/// Whether a local offset is on the border of its chunk.
pub open spec fn border_offset(o: int) -> bool {
    on_border(position_at(o, CHUNK_SIZE as int), 0)
}

/// The four reports of the chunk-local phase.
#[derive(Clone, Copy, Debug)]
pub enum Report {
    BornInterior,
    BornBorder,
    StopsInterior,
    StopsBorder,
}

/// Whether offset `o` of a chunk holding `cells` belongs in `report`.
pub open spec fn reported(rule: Rule, cells: Seq<Cell>, o: int, report: Report) -> bool {
    match report {
        Report::BornInterior => is_born(rule, cells[o]) && !border_offset(o),
        Report::BornBorder => is_born(rule, cells[o]) && border_offset(o),
        Report::StopsInterior => stops_full(rule, cells[o]) && !border_offset(o),
        Report::StopsBorder => stops_full(rule, cells[o]) && border_offset(o),
    }
}

/// The offsets `o < n`, in increasing order, that belong in `report`, each
/// shifted by `base`.
pub open spec fn offsets_where(rule: Rule, cells: Seq<Cell>, n: int, base: int, report: Report) -> Seq<usize>
    decreases n,
{
    if n <= 0 {
        seq![]
    } else {
        let prev = offsets_where(rule, cells, n - 1, base, report);
        if reported(rule, cells, n - 1, report) {
            prev.push((base + n - 1) as usize)
        } else {
            prev
        }
    }
}

/// How often `t` occurs in `s`.
pub open spec fn occurrences(s: Seq<int>, t: int) -> nat
    decreases s.len(),
{
    if s.len() == 0 {
        0
    } else {
        occurrences(s.drop_last(), t) + if s.last() == t {
            1nat
        } else {
            0nat
        }
    }
}

/// A neighbour count after `k` clamped increments or decrements.
pub open spec fn adjusted(n: u8, k: nat, increment: bool) -> u8 {
    if increment {
        if n + k > 255 {
            255
        } else {
            (n + k) as u8
        }
    } else {
        if n - k < 0 {
            0
        } else {
            (n - k) as u8
        }
    }
}

/// The local offsets of the neighbours of interior offset `o`.
pub open spec fn local_targets(method: NeighbourMethod, o: int) -> Seq<int> {
    method.directions().map_values(
        |d: Position| linear_index(plus(position_at(o, CHUNK_SIZE as int), d), CHUNK_SIZE as int),
    )
}

/// The chunk-local part of one tick for one chunk: every cell takes its next
/// value. Cells that are born are reported in `chunk_spawns` (as offsets) when
/// interior and in `spawns` (as global indices) when on the border; cells that
/// stop being fully alive go to `chunk_deaths` and `deaths` likewise.
pub fn update_values_chunk(
    chunk: &mut Chunk,
    chunk_index: usize,
    rule: &Rule,
    chunk_spawns: &mut Vec<usize>,
    spawns: &mut Vec<usize>,
    chunk_deaths: &mut Vec<usize>,
    deaths: &mut Vec<usize>,
)
    requires
        old(chunk).wf(),
        chunk_index * CHUNK_CELL_COUNT + CHUNK_CELL_COUNT <= usize::MAX,
    ensures
        final(chunk).wf(),
        forall|o: int|
            0 <= o < CHUNK_CELL_COUNT ==> #[trigger] final(chunk).0@[o] == (Cell {
                value: next_value(*rule, old(chunk).0@[o]),
                neighbours: old(chunk).0@[o].neighbours,
            }),
        final(chunk_spawns)@ == old(chunk_spawns)@ + offsets_where(
            *rule, old(chunk).0@, CHUNK_CELL_COUNT as int, 0, Report::BornInterior,
        ),
        final(spawns)@ == old(spawns)@ + offsets_where(
            *rule, old(chunk).0@, CHUNK_CELL_COUNT as int, chunk_index * CHUNK_CELL_COUNT, Report::BornBorder,
        ),
        final(chunk_deaths)@ == old(chunk_deaths)@ + offsets_where(
            *rule, old(chunk).0@, CHUNK_CELL_COUNT as int, 0, Report::StopsInterior,
        ),
        final(deaths)@ == old(deaths)@ + offsets_where(
            *rule, old(chunk).0@, CHUNK_CELL_COUNT as int, chunk_index * CHUNK_CELL_COUNT, Report::StopsBorder,
        ),
{
    let ghost cells = chunk.0@;
    let ghost base = chunk_index * CHUNK_CELL_COUNT;
    let ghost cs0 = chunk_spawns@;
    let ghost s0 = spawns@;
    let ghost cd0 = chunk_deaths@;
    let ghost d0 = deaths@;
    let base_index = chunk_index * CHUNK_CELL_COUNT;
    let mut offset: usize = 0;
    while offset < CHUNK_CELL_COUNT
        invariant
            0 <= offset <= CHUNK_CELL_COUNT,
            base_index == base,
            base + CHUNK_CELL_COUNT <= usize::MAX,
            chunk.0@.len() == CHUNK_CELL_COUNT,
            cells.len() == CHUNK_CELL_COUNT,
            forall|o: int|
                0 <= o < offset ==> #[trigger] chunk.0@[o] == (Cell {
                    value: next_value(*rule, cells[o]),
                    neighbours: cells[o].neighbours,
                }),
            forall|o: int| offset <= o < CHUNK_CELL_COUNT ==> #[trigger] chunk.0@[o] == cells[o],
            chunk_spawns@ == cs0 + offsets_where(*rule, cells, offset as int, 0, Report::BornInterior),
            spawns@ == s0 + offsets_where(*rule, cells, offset as int, base, Report::BornBorder),
            chunk_deaths@ == cd0 + offsets_where(*rule, cells, offset as int, 0, Report::StopsInterior),
            deaths@ == d0 + offsets_where(*rule, cells, offset as int, base, Report::StopsBorder),
        decreases CHUNK_CELL_COUNT - offset,
    {
        let cell = chunk.0[offset];
        let border = Chunk::is_border_position(Chunk::index_to_position(offset), 0);
        let mut value = cell.value;
        if cell.value == 0 {
            if allows_exec(&rule.birth_rule, cell.neighbours) {
                value = rule.states;
                if border {
                    spawns.push(base_index + offset);
                } else {
                    chunk_spawns.push(offset);
                }
            }
        } else {
            if cell.value < rule.states || !allows_exec(&rule.survival_rule, cell.neighbours) {
                if cell.value == rule.states {
                    if border {
                        deaths.push(base_index + offset);
                    } else {
                        chunk_deaths.push(offset);
                    }
                }
                value = cell.value - 1;
            }
        }
        chunk.0[offset] = Cell { value, neighbours: cell.neighbours };
        proof {
            let n = offset + 1;
            assert(offsets_where(*rule, cells, n as int, 0, Report::BornInterior) == if reported(*rule, cells, offset as int, Report::BornInterior) {
                offsets_where(*rule, cells, offset as int, 0, Report::BornInterior).push(offset)
            } else {
                offsets_where(*rule, cells, offset as int, 0, Report::BornInterior)
            });
            assert(offsets_where(*rule, cells, n as int, base, Report::BornBorder) == if reported(*rule, cells, offset as int, Report::BornBorder) {
                offsets_where(*rule, cells, offset as int, base, Report::BornBorder).push((base + offset) as usize)
            } else {
                offsets_where(*rule, cells, offset as int, base, Report::BornBorder)
            });
            assert(offsets_where(*rule, cells, n as int, 0, Report::StopsInterior) == if reported(*rule, cells, offset as int, Report::StopsInterior) {
                offsets_where(*rule, cells, offset as int, 0, Report::StopsInterior).push(offset)
            } else {
                offsets_where(*rule, cells, offset as int, 0, Report::StopsInterior)
            });
            assert(offsets_where(*rule, cells, n as int, base, Report::StopsBorder) == if reported(*rule, cells, offset as int, Report::StopsBorder) {
                offsets_where(*rule, cells, offset as int, base, Report::StopsBorder).push((base + offset) as usize)
            } else {
                offsets_where(*rule, cells, offset as int, base, Report::StopsBorder)
            });
            assert(chunk_spawns@ =~= cs0 + offsets_where(*rule, cells, n as int, 0, Report::BornInterior));
            assert(spawns@ =~= s0 + offsets_where(*rule, cells, n as int, base, Report::BornBorder));
            assert(chunk_deaths@ =~= cd0 + offsets_where(*rule, cells, n as int, 0, Report::StopsInterior));
            assert(deaths@ =~= d0 + offsets_where(*rule, cells, n as int, base, Report::StopsBorder));
        }
        offset = offset + 1;
    }
}


/// One clamped step of a neighbour count.
fn step_count(n: u8, increment: bool) -> (r: u8)
    ensures
        r == adjusted(n, 1, increment),
{
    if increment {
        n.saturating_add(1)
    } else {
        n.saturating_sub(1)
    }
}

proof fn lemma_adjusted_step(n: u8, k: nat, increment: bool)
    ensures
        adjusted(n, k + 1, increment) == adjusted(adjusted(n, k, increment), 1, increment),
{
}

proof fn lemma_occurrences_take(s: Seq<int>, k: int, t: int)
    requires
        0 <= k < s.len(),
    ensures
        occurrences(s.take(k + 1), t) == occurrences(s.take(k), t) + if s[k] == t {
            1nat
        } else {
            0nat
        },
{
    assert(s.take(k + 1).drop_last() =~= s.take(k));
}

/// Applies to the neighbours of interior offset `offset` one clamped
/// increment (a neighbour became fully alive) or decrement (it stopped being
/// fully alive). Every neighbour lies in the same chunk.
pub fn update_neighbours_chunk(chunk: &mut Chunk, rule: &Rule, offset: usize, increment: bool)
    requires
        old(chunk).wf(),
        offset < CHUNK_CELL_COUNT,
        !border_offset(offset as int),
    ensures
        final(chunk).wf(),
        forall|j: int|
            0 <= j < CHUNK_CELL_COUNT ==> #[trigger] final(chunk).0@[j] == (Cell {
                value: old(chunk).0@[j].value,
                neighbours: adjusted(
                    old(chunk).0@[j].neighbours,
                    occurrences(local_targets(rule.neighbour_method, offset as int), j),
                    increment,
                ),
            }),
{
    let ghost cells = chunk.0@;
    let ghost targets = local_targets(rule.neighbour_method, offset as int);
    let position = Chunk::index_to_position(offset);
    let n = rule.neighbour_method.neighbour_count();
    let mut k: usize = 0;
    while k < n
        invariant
            n == rule.neighbour_method.size(),
            k <= n,
            targets.len() == n,
            targets == local_targets(rule.neighbour_method, offset as int),
            position == position_at(offset as int, CHUNK_SIZE as int),
            !on_border(position, 0),
            in_cube(position, CHUNK_SIZE as int),
            chunk.0@.len() == CHUNK_CELL_COUNT,
            cells.len() == CHUNK_CELL_COUNT,
            forall|j: int|
                0 <= j < CHUNK_CELL_COUNT ==> #[trigger] chunk.0@[j] == (Cell {
                    value: cells[j].value,
                    neighbours: adjusted(cells[j].neighbours, occurrences(targets.take(k as int), j), increment),
                }),
        decreases n - k,
    {
        let dir = rule.neighbour_method.offset(k);
        let neighbour_position = position.translated(dir);
        let index = Chunk::position_to_index(neighbour_position);
        let cell = chunk.0[index];
        chunk.0[index] = Cell { value: cell.value, neighbours: step_count(cell.neighbours, increment) };
        proof {
            assert(targets[k as int] == index);
            assert forall|j: int| 0 <= j < CHUNK_CELL_COUNT implies #[trigger] chunk.0@[j] == (Cell {
                value: cells[j].value,
                neighbours: adjusted(cells[j].neighbours, occurrences(targets.take(k + 1), j), increment),
            }) by {
                lemma_occurrences_take(targets, k as int, j);
                lemma_adjusted_step(cells[j].neighbours, occurrences(targets.take(k as int), j), increment);
            }
        }
        k = k + 1;
    }
    assert(targets.take(n as int) =~= targets);
}

/// How often local offset `j` is a neighbour of the interior offsets in
/// `offsets`, counted with multiplicity.
pub open spec fn local_hits(method: NeighbourMethod, offsets: Seq<usize>, j: int) -> nat
    decreases offsets.len(),
{
    if offsets.len() == 0 {
        0
    } else {
        local_hits(method, offsets.drop_last(), j) + occurrences(
            local_targets(method, offsets.last() as int),
            j,
        )
    }
}

proof fn lemma_adjusted_twice(n: u8, a: nat, b: nat, increment: bool)
    ensures
        adjusted(adjusted(n, a, increment), b, increment) == adjusted(n, a + b, increment),
{
}

/// Every offset of `offsets` is an interior offset of a chunk.
pub open spec fn interior_offsets(offsets: Seq<usize>) -> bool {
    forall|i: int|
        0 <= i < offsets.len() ==> #[trigger] offsets[i] < CHUNK_CELL_COUNT && !border_offset(
            offsets[i] as int,
        )
}

fn apply_local(chunk: &mut Chunk, rule: &Rule, offsets: &Vec<usize>, increment: bool)
    requires
        old(chunk).wf(),
        interior_offsets(offsets@),
    ensures
        final(chunk).wf(),
        forall|j: int|
            0 <= j < CHUNK_CELL_COUNT ==> #[trigger] final(chunk).0@[j] == (Cell {
                value: old(chunk).0@[j].value,
                neighbours: adjusted(
                    old(chunk).0@[j].neighbours,
                    local_hits(rule.neighbour_method, offsets@, j),
                    increment,
                ),
            }),
{
    let ghost cells = chunk.0@;
    let mut i: usize = 0;
    while i < offsets.len()
        invariant
            i <= offsets@.len(),
            interior_offsets(offsets@),
            chunk.wf(),
            cells.len() == CHUNK_CELL_COUNT,
            forall|j: int|
                0 <= j < CHUNK_CELL_COUNT ==> #[trigger] chunk.0@[j] == (Cell {
                    value: cells[j].value,
                    neighbours: adjusted(
                        cells[j].neighbours,
                        local_hits(rule.neighbour_method, offsets@.take(i as int), j),
                        increment,
                    ),
                }),
        decreases offsets@.len() - i,
    {
        let offset = offsets[i];
        update_neighbours_chunk(chunk, rule, offset, increment);
        proof {
            assert(offsets@.take(i + 1).drop_last() =~= offsets@.take(i as int));
            assert forall|j: int| 0 <= j < CHUNK_CELL_COUNT implies #[trigger] chunk.0@[j] == (Cell {
                value: cells[j].value,
                neighbours: adjusted(
                    cells[j].neighbours,
                    local_hits(rule.neighbour_method, offsets@.take(i + 1), j),
                    increment,
                ),
            }) by {
                lemma_adjusted_twice(
                    cells[j].neighbours,
                    local_hits(rule.neighbour_method, offsets@.take(i as int), j),
                    occurrences(local_targets(rule.neighbour_method, offset as int), j),
                    increment,
                );
            }
        }
        i = i + 1;
    }
    assert(offsets@.take(offsets@.len() as int) =~= offsets@);
}

/// The second phase for one chunk: applies the neighbour-count deltas of the
/// chunk's interior cells that were born (`spawns`) and then of those that
/// stopped being fully alive (`deaths`). Only this chunk is written.
pub fn apply_chunk_deltas(chunk: &mut Chunk, rule: &Rule, spawns: &Vec<usize>, deaths: &Vec<usize>)
    requires
        old(chunk).wf(),
        interior_offsets(spawns@),
        interior_offsets(deaths@),
    ensures
        final(chunk).wf(),
        forall|j: int|
            0 <= j < CHUNK_CELL_COUNT ==> #[trigger] final(chunk).0@[j] == (Cell {
                value: old(chunk).0@[j].value,
                neighbours: adjusted(
                    adjusted(
                        old(chunk).0@[j].neighbours,
                        local_hits(rule.neighbour_method, spawns@, j),
                        true,
                    ),
                    local_hits(rule.neighbour_method, deaths@, j),
                    false,
                ),
            }),
{
    apply_local(chunk, rule, spawns, true);
    apply_local(chunk, rule, deaths, false);
}

/// The global indices of the neighbours of global index `index` in a grid of
/// chunk radius `r`, wrapping around the faces of the grid.
pub open spec fn global_targets(method: NeighbourMethod, index: int, r: int) -> Seq<int> {
    method.directions().map_values(
        |d: Position|
            grid_index(wrapped(plus(grid_position(index, r), d), r * CHUNK_SIZE), r),
    )
}

/// How often global index `j` is a neighbour of the indices in `indices`,
/// counted with multiplicity.
pub open spec fn global_hits(method: NeighbourMethod, indices: Seq<usize>, j: int, r: int) -> nat
    decreases indices.len(),
{
    if indices.len() == 0 {
        0
    } else {
        global_hits(method, indices.drop_last(), j, r) + occurrences(
            global_targets(method, indices.last() as int, r),
            j,
        )
    }
}

/// `chunks` has the shape of a grid of `count` chunks.
pub open spec fn shaped(chunks: Seq<Chunk>, count: int) -> bool {
    &&& chunks.len() == count
    &&& forall|c: int| 0 <= c < chunks.len() ==> #[trigger] chunks[c].wf()
}

proof fn lemma_take_contains(s: Seq<int>, k: int, t: int)
    requires
        0 <= k < s.len(),
    ensures
        s.take(k + 1).contains(t) <==> (s.take(k).contains(t) || s[k] == t),
{
    if s.take(k + 1).contains(t) {
        let i = choose|i: int| 0 <= i < k + 1 && #[trigger] s.take(k + 1)[i] == t;
        if i < k {
            assert(s.take(k)[i] == t);
        }
    }
    if s.take(k).contains(t) {
        let i = choose|i: int| 0 <= i < k && #[trigger] s.take(k)[i] == t;
        assert(s.take(k + 1)[i] == t);
    }
    if s[k] == t {
        assert(s.take(k + 1)[k] == t);
    }
}

proof fn lemma_split_index(t: int, c: int, o: int)
    requires
        0 <= t,
        0 <= o < CHUNK_CELL_COUNT,
    ensures
        (t == c * CHUNK_CELL_COUNT + o) <==> (c == t / CHUNK_CELL_COUNT as int && o == t
            % CHUNK_CELL_COUNT as int),
{
    if t == c * CHUNK_CELL_COUNT + o {
        lemma_fundamental_div_mod_converse(t, CHUNK_CELL_COUNT as int, c, o);
    }
    lemma_fundamental_div_mod(t, CHUNK_CELL_COUNT as int);
}

/// The border reports of chunks `0..n`, chunk by chunk, as global indices.
pub open spec fn border_reports(rule: Rule, chunks: Seq<Chunk>, n: int, report: Report) -> Seq<usize>
    decreases n,
{
    if n <= 0 {
        seq![]
    } else {
        border_reports(rule, chunks, n - 1, report) + offsets_where(
            rule,
            chunks[n - 1].0@,
            CHUNK_CELL_COUNT as int,
            (n - 1) * CHUNK_CELL_COUNT,
            report,
        )
    }
}

proof fn lemma_offsets_where_range(rule: Rule, cells: Seq<Cell>, n: int, base: int, report: Report)
    requires
        0 <= base,
        0 <= n,
        base + n <= usize::MAX,
    ensures
        forall|i: int|
            0 <= i < offsets_where(rule, cells, n, base, report).len() ==> {
                let v = #[trigger] offsets_where(rule, cells, n, base, report)[i];
                &&& base <= v < base + n
                &&& reported(rule, cells, v - base, report)
            },
    decreases n,
{
    if n > 0 {
        lemma_offsets_where_range(rule, cells, n - 1, base, report);
        let prev = offsets_where(rule, cells, n - 1, base, report);
        let cur = offsets_where(rule, cells, n, base, report);
        assert forall|i: int| 0 <= i < cur.len() implies {
            let v = #[trigger] cur[i];
            &&& base <= v < base + n
            &&& reported(rule, cells, v - base, report)
        } by {
            if i < prev.len() {
                assert(cur[i] == prev[i]);
            }
        }
    }
}

proof fn lemma_interior_reports(rule: Rule, cells: Seq<Cell>, report: Report)
    requires
        report == Report::BornInterior || report == Report::StopsInterior,
    ensures
        interior_offsets(offsets_where(rule, cells, CHUNK_CELL_COUNT as int, 0, report)),
{
    lemma_offsets_where_range(rule, cells, CHUNK_CELL_COUNT as int, 0, report);
}

proof fn lemma_border_reports_range(rule: Rule, chunks: Seq<Chunk>, n: int, report: Report)
    requires
        0 <= n,
        n * CHUNK_CELL_COUNT <= usize::MAX,
    ensures
        forall|i: int|
            0 <= i < border_reports(rule, chunks, n, report).len() ==> #[trigger] border_reports(
                rule,
                chunks,
                n,
                report,
            )[i] < n * CHUNK_CELL_COUNT,
    decreases n,
{
    if n > 0 {
        assert((n - 1) * CHUNK_CELL_COUNT + CHUNK_CELL_COUNT == n * CHUNK_CELL_COUNT);
        lemma_border_reports_range(rule, chunks, n - 1, report);
        lemma_offsets_where_range(
            rule,
            chunks[n - 1].0@,
            CHUNK_CELL_COUNT as int,
            (n - 1) * CHUNK_CELL_COUNT,
            report,
        );
        let prev = border_reports(rule, chunks, n - 1, report);
        let last = offsets_where(rule, chunks[n - 1].0@, CHUNK_CELL_COUNT as int, (n - 1) * CHUNK_CELL_COUNT, report);
        assert forall|i: int| 0 <= i < border_reports(rule, chunks, n, report).len() implies #[trigger] border_reports(
                rule,
                chunks,
                n,
                report,
            )[i] < n * CHUNK_CELL_COUNT by {
            if i >= prev.len() {
                assert(border_reports(rule, chunks, n, report)[i] == last[i - prev.len()]);
            }
        }
    }
}

/// The neighbour count of cell `(c, o)` after a whole tick that started from
/// `chunks`: the clamped deltas of the interior births and stops of its chunk,
/// then those of the border births and stops of the whole grid.
pub open spec fn ticked_neighbours(rule: Rule, chunks: Seq<Chunk>, c: int, o: int, r: int) -> u8 {
    let m = rule.neighbour_method;
    let cells = chunks[c].0@;
    let count = chunks.len() as int;
    adjusted(
        adjusted(
            adjusted(
                adjusted(
                    cells[o].neighbours,
                    local_hits(m, offsets_where(rule, cells, CHUNK_CELL_COUNT as int, 0, Report::BornInterior), o),
                    true,
                ),
                local_hits(m, offsets_where(rule, cells, CHUNK_CELL_COUNT as int, 0, Report::StopsInterior), o),
                false,
            ),
            global_hits(m, border_reports(rule, chunks, count, Report::BornBorder), c * CHUNK_CELL_COUNT + o, r),
            true,
        ),
        global_hits(m, border_reports(rule, chunks, count, Report::StopsBorder), c * CHUNK_CELL_COUNT + o, r),
        false,
    )
}

/// The number of live cells among `cells[0..n]`.
pub open spec fn alive_in(cells: Seq<Cell>, n: int) -> nat
    decreases n,
{
    if n <= 0 {
        0
    } else {
        alive_in(cells, n - 1) + if cells[n - 1].value != 0 {
            1nat
        } else {
            0nat
        }
    }
}

/// The number of live cells in chunks `0..n`.
pub open spec fn alive_total(chunks: Seq<Chunk>, n: int) -> nat
    decreases n,
{
    if n <= 0 {
        0
    } else {
        alive_total(chunks, n - 1) + alive_in(chunks[n - 1].0@, CHUNK_CELL_COUNT as int)
    }
}

proof fn lemma_alive_in_bound(cells: Seq<Cell>, n: int)
    requires
        0 <= n,
    ensures
        alive_in(cells, n) <= n,
    decreases n,
{
    if n > 0 {
        lemma_alive_in_bound(cells, n - 1);
    }
}

proof fn lemma_alive_total_bound(chunks: Seq<Chunk>, n: int)
    requires
        0 <= n,
    ensures
        alive_total(chunks, n) <= n * CHUNK_CELL_COUNT,
    decreases n,
{
    if n > 0 {
        lemma_alive_total_bound(chunks, n - 1);
        lemma_alive_in_bound(chunks[n - 1].0@, CHUNK_CELL_COUNT as int);
    }
}

/// What the renderer needs of one live cell.
#[derive(Clone, Copy, Debug, PartialEq, Eq, Structural)]
pub struct CellRecord {
    /// The cell's position relative to the middle of the domain.
    pub position: Position,
    pub value: u8,
    pub neighbours: u8,
}

/// The record of the cell at global index `i`, in a grid of radius `r`.
#[verifier::opaque]
pub open spec fn record_of(cell: Cell, i: int, r: int) -> CellRecord {
    let p = grid_position(i, r);
    let h = r * CHUNK_SIZE / 2;
    CellRecord {
        position: Position { x: (p.x - h) as i32, y: (p.y - h) as i32, z: (p.z - h) as i32 },
        value: cell.value,
        neighbours: cell.neighbours,
    }
}

/// The records of the live cells among the first `n` cells of chunk `c`.
pub open spec fn chunk_records(cells: Seq<Cell>, c: int, n: int, r: int) -> Seq<CellRecord>
    decreases n,
{
    if n <= 0 {
        seq![]
    } else {
        let prev = chunk_records(cells, c, n - 1, r);
        if cells[n - 1].value != 0 {
            prev.push(record_of(cells[n - 1], c * CHUNK_CELL_COUNT + n - 1, r))
        } else {
            prev
        }
    }
}

/// The records of the live cells of chunks `0..n`, in index order.
pub open spec fn grid_records(chunks: Seq<Chunk>, n: int, r: int) -> Seq<CellRecord>
    decreases n,
{
    if n <= 0 {
        seq![]
    } else {
        grid_records(chunks, n - 1, r) + chunk_records(chunks[n - 1].0@, n - 1, CHUNK_CELL_COUNT as int, r)
    }
}

/// The cell at global index `t`.
pub open spec fn grid_cell(chunks: Seq<Chunk>, t: int) -> Cell {
    chunks[t / CHUNK_CELL_COUNT as int].0@[t % CHUNK_CELL_COUNT as int]
}

/// The global index that seeding position `p` lands on, after wrapping.
pub open spec fn landing(p: Position, r: int) -> int {
    grid_index(wrapped(p, r * CHUNK_SIZE), r)
}

pub open spec fn landings(ps: Seq<Position>, r: int) -> Seq<int> {
    ps.map_values(|p: Position| landing(p, r))
}

/// The indices among `ts` that seeding brings to life: those whose cell was
/// dead, at their first occurrence.
pub open spec fn newly_alive(chunks: Seq<Chunk>, ts: Seq<int>) -> Seq<usize>
    decreases ts.len(),
{
    if ts.len() == 0 {
        seq![]
    } else {
        let prev = newly_alive(chunks, ts.drop_last());
        let t = ts.last();
        if grid_cell(chunks, t).value == 0 && !ts.drop_last().contains(t) {
            prev.push(t as usize)
        } else {
            prev
        }
    }
}

/// `cur` is `start` after seeding the landing indices `ts` in order.
pub open spec fn seeded(rule: Rule, start: Seq<Chunk>, cur: Seq<Chunk>, ts: Seq<int>, r: int) -> bool {
    forall|c: int, o: int|
        0 <= c < start.len() && 0 <= o < CHUNK_CELL_COUNT ==> #[trigger] cur[c].0@[o] == (Cell {
            value: if start[c].0@[o].value == 0 && ts.contains(c * CHUNK_CELL_COUNT + o) {
                rule.states
            } else {
                start[c].0@[o].value
            },
            neighbours: adjusted(
                start[c].0@[o].neighbours,
                global_hits(rule.neighbour_method, newly_alive(start, ts), c * CHUNK_CELL_COUNT + o, r),
                true,
            ),
        })
}

proof fn lemma_seed_live(rule: Rule, start: Seq<Chunk>, cur: Seq<Chunk>, ts: Seq<int>, k: int, r: int)
    requires
        0 <= k < ts.len(),
        0 <= ts[k],
        seeded(rule, start, cur, ts.take(k), r),
        ts[k] % (CHUNK_CELL_COUNT as int) + 0 == ts[k] % (CHUNK_CELL_COUNT as int),
        !(start[ts[k] / (CHUNK_CELL_COUNT as int)].0@[ts[k] % (CHUNK_CELL_COUNT as int)].value == 0
            && !ts.take(k).contains(ts[k])),
    ensures
        seeded(rule, start, cur, ts.take(k + 1), r),
{
    let t = ts[k];
    assert(ts.take(k + 1).drop_last() =~= ts.take(k));
    assert(newly_alive(start, ts.take(k + 1)) == newly_alive(start, ts.take(k)));
    assert forall|c: int, o: int|
        0 <= c < start.len() && 0 <= o < CHUNK_CELL_COUNT implies #[trigger] cur[c].0@[o] == (Cell {
            value: if start[c].0@[o].value == 0 && ts.take(k + 1).contains(c * CHUNK_CELL_COUNT + o) {
                rule.states
            } else {
                start[c].0@[o].value
            },
            neighbours: adjusted(
                start[c].0@[o].neighbours,
                global_hits(rule.neighbour_method, newly_alive(start, ts.take(k + 1)), c * CHUNK_CELL_COUNT + o, r),
                true,
            ),
        }) by {
        lemma_split_index(t, c, o);
        lemma_take_contains(ts, k, c * CHUNK_CELL_COUNT + o);
    }
}

proof fn lemma_seed_dead(
    rule: Rule,
    start: Seq<Chunk>,
    cur: Seq<Chunk>,
    set: Seq<Chunk>,
    after: Seq<Chunk>,
    ts: Seq<int>,
    k: int,
    r: int,
)
    requires
        0 <= k < ts.len(),
        0 <= ts[k],
        ts[k] / (CHUNK_CELL_COUNT as int) < start.len(),
        shaped(start, start.len() as int),
        shaped(cur, start.len() as int),
        seeded(rule, start, cur, ts.take(k), r),
        start[ts[k] / (CHUNK_CELL_COUNT as int)].0@[ts[k] % (CHUNK_CELL_COUNT as int)].value == 0,
        !ts.take(k).contains(ts[k]),
        set == cur.update(ts[k] / (CHUNK_CELL_COUNT as int), set[ts[k] / (CHUNK_CELL_COUNT as int)]),
        set[ts[k] / (CHUNK_CELL_COUNT as int)].0@ == cur[ts[k] / (CHUNK_CELL_COUNT as int)].0@.update(
            ts[k] % (CHUNK_CELL_COUNT as int),
            Cell {
                value: rule.states,
                neighbours: cur[ts[k] / (CHUNK_CELL_COUNT as int)].0@[ts[k] % (CHUNK_CELL_COUNT as int)].neighbours,
            },
        ),
        forall|c: int, o: int|
            0 <= c < after.len() && 0 <= o < CHUNK_CELL_COUNT ==> #[trigger] after[c].0@[o] == (Cell {
                value: set[c].0@[o].value,
                neighbours: adjusted(
                    set[c].0@[o].neighbours,
                    occurrences(global_targets(rule.neighbour_method, ts[k], r), c * CHUNK_CELL_COUNT + o),
                    true,
                ),
            }),
        after.len() == start.len(),
        ts[k] <= usize::MAX,
    ensures
        seeded(rule, start, after, ts.take(k + 1), r),
        newly_alive(start, ts.take(k + 1)) == newly_alive(start, ts.take(k)).push(ts[k] as usize),
{
    let t = ts[k];
    let tc = t / (CHUNK_CELL_COUNT as int);
    let to = t % (CHUNK_CELL_COUNT as int);
    assert(ts.take(k + 1).drop_last() =~= ts.take(k));
    assert(ts.take(k + 1).last() == t);
    assert(grid_cell(start, t).value == 0);
    assert(newly_alive(start, ts.take(k + 1)) == newly_alive(start, ts.take(k)).push(t as usize));
    assert forall|c: int, o: int|
        0 <= c < start.len() && 0 <= o < CHUNK_CELL_COUNT implies #[trigger] after[c].0@[o] == (Cell {
            value: if start[c].0@[o].value == 0 && ts.take(k + 1).contains(c * CHUNK_CELL_COUNT + o) {
                rule.states
            } else {
                start[c].0@[o].value
            },
            neighbours: adjusted(
                start[c].0@[o].neighbours,
                global_hits(rule.neighbour_method, newly_alive(start, ts.take(k + 1)), c * CHUNK_CELL_COUNT + o, r),
                true,
            ),
        }) by {
        lemma_split_index(t, c, o);
        lemma_take_contains(ts, k, c * CHUNK_CELL_COUNT + o);
        let j = c * CHUNK_CELL_COUNT + o;
        let prev = newly_alive(start, ts.take(k));
        assert(prev.push(t as usize).drop_last() =~= prev);
        assert(global_hits(rule.neighbour_method, prev.push(t as usize), j, r) == global_hits(
            rule.neighbour_method,
            prev,
            j,
            r,
        ) + occurrences(global_targets(rule.neighbour_method, t, r), j));
        assert(cur[c].wf());
        assert(cur[tc].wf());
        if c != tc {
            assert(set[c] == cur[c]);
        }
        if c == tc && o == to {
            assert(set[c].0@[o] == Cell { value: rule.states, neighbours: cur[c].0@[o].neighbours });
        } else {
            assert(set[c].0@[o] == cur[c].0@[o]);
        }
        lemma_adjusted_twice(
            start[c].0@[o].neighbours,
            global_hits(rule.neighbour_method, newly_alive(start, ts.take(k)), c * CHUNK_CELL_COUNT + o, r),
            occurrences(global_targets(rule.neighbour_method, t, r), c * CHUNK_CELL_COUNT + o),
            true,
        );
    }
}

/// The number of live cells of a chunk.
fn count_chunk(chunk: &Chunk) -> (r: usize)
    requires
        chunk.wf(),
    ensures
        r == alive_in(chunk.0@, CHUNK_CELL_COUNT as int),
{
    let mut total: usize = 0;
    let mut o: usize = 0;
    while o < CHUNK_CELL_COUNT
        invariant
            chunk.wf(),
            o <= CHUNK_CELL_COUNT,
            total == alive_in(chunk.0@, o as int),
        decreases CHUNK_CELL_COUNT - o,
    {
        proof {
            lemma_alive_in_bound(chunk.0@, o as int);
        }
        if !chunk.0[o].is_dead() {
            total = total + 1;
        }
        o = o + 1;
    }
    total
}

fn record_at(cell: Cell, index: usize, radius: usize, half: i32) -> (r: CellRecord)
    requires
        1 <= radius <= MAX_CHUNK_RADIUS,
        index < radius * radius * radius * CHUNK_CELL_COUNT,
        half == radius * CHUNK_SIZE / 2,
    ensures
        r == record_of(cell, index as int, radius as int),
{
    let p = Chunks::index_to_position_ex(index, radius);
    proof {
        reveal(record_of);
    }
    CellRecord {
        position: Position { x: p.x - half, y: p.y - half, z: p.z - half },
        value: cell.value,
        neighbours: cell.neighbours,
    }
}

/// The records of the live cells of chunk `c`.
#[verifier::spinoff_prover]
fn render_chunk(chunk: &Chunk, c: usize, radius: usize, half: i32) -> (r: Vec<CellRecord>)
    requires
        chunk.wf(),
        1 <= radius <= MAX_CHUNK_RADIUS,
        c < radius * radius * radius,
        half == radius * CHUNK_SIZE / 2,
    ensures
        r@ == chunk_records(chunk.0@, c as int, CHUNK_CELL_COUNT as int, radius as int),
{
    proof {
        crate::chunks::lemma_radius_bounds(radius as int);
        assert(c * CHUNK_CELL_COUNT + CHUNK_CELL_COUNT <= radius * radius * radius * CHUNK_CELL_COUNT) by (nonlinear_arith)
            requires c < radius * radius * radius;
    }
    let mut records: Vec<CellRecord> = Vec::new();
    let base = c * CHUNK_CELL_COUNT;
    let mut o: usize = 0;
    while o < CHUNK_CELL_COUNT
        invariant
            chunk.wf(),
            1 <= radius <= MAX_CHUNK_RADIUS,
            base == c * CHUNK_CELL_COUNT,
            base + CHUNK_CELL_COUNT <= radius * radius * radius * CHUNK_CELL_COUNT,
            half == radius * CHUNK_SIZE / 2,
            o <= CHUNK_CELL_COUNT,
            records@ == chunk_records(chunk.0@, c as int, o as int, radius as int),
        decreases CHUNK_CELL_COUNT - o,
    {
        let cell = chunk.0[o];
        if !cell.is_dead() {
            let record = record_at(cell, base + o, radius, half);
            records.push(record);
        }
        o = o + 1;
    }
    records
}

/// The serial grid of a dense simulation.
pub struct MultiThreaded {
    pub chunks: Chunks,
}

impl MultiThreaded {
    pub open spec fn wf(self) -> bool {
        self.chunks.wf()
    }

    /// The chunk radius.
    pub open spec fn radius(self) -> int {
        self.chunks.chunk_radius as int
    }

    /// The grid has cells, and its chunk count matches its radius.
    pub open spec fn addressable(self) -> bool {
        &&& 1 <= self.chunks.chunk_radius <= MAX_CHUNK_RADIUS
        &&& self.chunks.chunk_count == self.chunks.chunk_radius * self.chunks.chunk_radius
            * self.chunks.chunk_radius
    }

    /// An empty simulation; `set_bounds` gives it cells.
    pub fn new() -> (r: MultiThreaded)
        ensures
            r.wf(),
            r.radius() == 0,
    {
        MultiThreaded { chunks: Chunks::new() }
    }

    /// Grows the grid to hold at least `new_bounds` cells per side, rounded
    /// up to whole chunks; returns the side. See `Chunks::set_bounds`.
    pub fn set_bounds(&mut self, new_bounds: i32) -> (r: i32)
        requires
            old(self).wf(),
            0 <= new_bounds <= MAX_CHUNK_RADIUS * CHUNK_SIZE,
        ensures
            final(self).wf(),
            final(self).radius() == if crate::chunks::radius_for(new_bounds as int) > old(self).radius() {
                crate::chunks::radius_for(new_bounds as int)
            } else {
                old(self).radius()
            },
            r == final(self).chunks.side(),
            r >= new_bounds,
            final(self).chunks.chunks@.subrange(0, old(self).chunks.chunks@.len() as int)
                == old(self).chunks.chunks@,
            forall|c: int, i: int|
                old(self).chunks.chunks@.len() <= c < final(self).chunks.chunks@.len() && 0 <= i
                    < CHUNK_CELL_COUNT ==> #[trigger] final(self).chunks.chunks@[c].0@[i]
                    == crate::chunks::dead_cell(),
            old(self).radius() == 0 && final(self).radius() >= 1 ==> forall|rule: Rule|
                rule.states >= 1 ==> #[trigger] counts_exact(rule, final(self).chunks.chunks@, final(self).radius()),
    {
        let r = self.chunks.set_bounds(new_bounds);
        proof {
            if old(self).radius() == 0 && self.radius() >= 1 {
                let r0 = old(self).chunks.chunk_radius as int;
                assert(r0 * r0 * r0 == 0) by (nonlinear_arith)
                    requires r0 == 0;
                assert(old(self).chunks.chunks@.len() == 0);
                assert forall|rule: Rule| rule.states >= 1 implies #[trigger] counts_exact(
                    rule,
                    self.chunks.chunks@,
                    self.radius(),
                ) by {
                    lemma_dead_grid_exact(rule, self.chunks.chunks@, self.radius());
                }
            }
        }
        r
    }

    /// The side of the simulated cube.
    pub fn bounds(&self) -> (r: i32)
        requires
            self.wf(),
        ensures
            r == self.chunks.side(),
    {
        self.chunks.bounds()
    }

    /// The middle point of the simulated cube.
    pub fn center(&self) -> (r: Position)
        requires
            self.wf(),
        ensures
            r.x == self.chunks.side() / 2,
            r.y == self.chunks.side() / 2,
            r.z == self.chunks.side() / 2,
    {
        crate::position::center(self.bounds())
    }

    fn wrap(&self, position: Position) -> (r: Position)
        requires
            self.wf(),
            self.radius() >= 1,
        ensures
            r == wrapped(position, self.chunks.side()),
            in_cube(r, self.chunks.side()),
    {
        wrap(position, self.bounds())
    }

    /// Applies to the neighbours of global index `index` one clamped increment
    /// or decrement, wrapping around the faces of the grid. `chunks` is this
    /// grid's chunk collection, taken out while a tick runs.
    fn update_neighbours(&self, chunks: &mut Vec<Chunk>, rule: &Rule, index: usize, increment: bool)
        requires
            self.addressable(),
            shaped(old(chunks)@, self.chunks.chunk_count as int),
            index < self.chunks.cell_total(),
        ensures
            shaped(final(chunks)@, self.chunks.chunk_count as int),
            forall|c: int, o: int|
                0 <= c < final(chunks)@.len() && 0 <= o < CHUNK_CELL_COUNT
                    ==> #[trigger] final(chunks)@[c].0@[o] == (Cell {
                    value: old(chunks)@[c].0@[o].value,
                    neighbours: adjusted(
                        old(chunks)@[c].0@[o].neighbours,
                        occurrences(
                            global_targets(rule.neighbour_method, index as int, self.radius()),
                            c * CHUNK_CELL_COUNT + o,
                        ),
                        increment,
                    ),
                }),
    {
        let ghost before = chunks@;
        let ghost targets = global_targets(rule.neighbour_method, index as int, self.radius());
        let radius = self.chunks.chunk_radius;
        let bounds = (radius * CHUNK_SIZE) as i32;
        proof {
            crate::chunks::lemma_radius_bounds(radius as int);
        }
        let position = Chunks::index_to_position_ex(index, radius);
        let n = rule.neighbour_method.neighbour_count();
        let mut k: usize = 0;
        while k < n
            invariant
                self.addressable(),
                radius == self.chunks.chunk_radius,
                bounds == self.chunks.side(),
                n == rule.neighbour_method.size(),
                k <= n,
                targets.len() == n,
                targets == global_targets(rule.neighbour_method, index as int, self.radius()),
                position == grid_position(index as int, self.radius()),
                in_cube(position, self.chunks.side()),
                shaped(chunks@, self.chunks.chunk_count as int),
                shaped(before, self.chunks.chunk_count as int),
                forall|c: int, o: int|
                    0 <= c < chunks@.len() && 0 <= o < CHUNK_CELL_COUNT
                        ==> #[trigger] chunks@[c].0@[o] == (Cell {
                        value: before[c].0@[o].value,
                        neighbours: adjusted(
                            before[c].0@[o].neighbours,
                            occurrences(targets.take(k as int), c * CHUNK_CELL_COUNT + o),
                            increment,
                        ),
                    }),
            decreases n - k,
        {
            let dir = rule.neighbour_method.offset(k);
            let neighbour_position = wrap(position.translated(dir), bounds);
            let target = Chunks::position_to_index_ex(neighbour_position, radius);
            let chunk = index_to_chunk_index(target);
            let offset = index_to_chunk_offset(target);
            proof {
                assert(chunk < self.chunks.chunk_count) by (nonlinear_arith)
                    requires
                        chunk == target / 32768,
                        target < self.chunks.chunk_count * 32768,
                ;
            }
            assert(chunks@[chunk as int].wf());
            let ghost mid = chunks@;
            let cell = chunks[chunk].0[offset];
            chunks[chunk].0[offset] = Cell {
                value: cell.value,
                neighbours: step_count(cell.neighbours, increment),
            };
            proof {
                assert(chunks@ == mid.update(chunk as int, chunks@[chunk as int]));
                assert(chunks@[chunk as int].0@ == mid[chunk as int].0@.update(offset as int, Cell {
                    value: cell.value,
                    neighbours: adjusted(cell.neighbours, 1, increment),
                }));
                assert(targets[k as int] == target);
                assert forall|c: int, o: int|
                    0 <= c < chunks@.len() && 0 <= o < CHUNK_CELL_COUNT implies #[trigger] chunks@[c].0@[o]
                        == (Cell {
                        value: before[c].0@[o].value,
                        neighbours: adjusted(
                            before[c].0@[o].neighbours,
                            occurrences(targets.take(k + 1), c * CHUNK_CELL_COUNT + o),
                            increment,
                        ),
                    }) by {
                    lemma_split_index(target as int, c, o);
                    lemma_occurrences_take(targets, k as int, c * CHUNK_CELL_COUNT + o);
                    lemma_adjusted_step(
                        before[c].0@[o].neighbours,
                        occurrences(targets.take(k as int), c * CHUNK_CELL_COUNT + o),
                        increment,
                    );
                }
            }
            k = k + 1;
        }
        assert(targets.take(n as int) =~= targets);
    }

    fn apply_global(&self, chunks: &mut Vec<Chunk>, rule: &Rule, indices: &Vec<usize>, increment: bool)
        requires
            self.addressable(),
            shaped(old(chunks)@, self.chunks.chunk_count as int),
            forall|i: int| 0 <= i < indices@.len() ==> #[trigger] indices@[i] < self.chunks.cell_total(),
        ensures
            shaped(final(chunks)@, self.chunks.chunk_count as int),
            forall|c: int, o: int|
                0 <= c < final(chunks)@.len() && 0 <= o < CHUNK_CELL_COUNT
                    ==> #[trigger] final(chunks)@[c].0@[o] == (Cell {
                    value: old(chunks)@[c].0@[o].value,
                    neighbours: adjusted(
                        old(chunks)@[c].0@[o].neighbours,
                        global_hits(rule.neighbour_method, indices@, c * CHUNK_CELL_COUNT + o, self.radius()),
                        increment,
                    ),
                }),
    {
        let ghost before = chunks@;
        let mut i: usize = 0;
        while i < indices.len()
            invariant
                self.addressable(),
                i <= indices@.len(),
                forall|i: int| 0 <= i < indices@.len() ==> #[trigger] indices@[i] < self.chunks.cell_total(),
                shaped(chunks@, self.chunks.chunk_count as int),
                shaped(before, self.chunks.chunk_count as int),
                forall|c: int, o: int|
                    0 <= c < chunks@.len() && 0 <= o < CHUNK_CELL_COUNT
                        ==> #[trigger] chunks@[c].0@[o] == (Cell {
                        value: before[c].0@[o].value,
                        neighbours: adjusted(
                            before[c].0@[o].neighbours,
                            global_hits(rule.neighbour_method, indices@.take(i as int), c * CHUNK_CELL_COUNT + o, self.radius()),
                            increment,
                        ),
                    }),
            decreases indices@.len() - i,
        {
            let index = indices[i];
            self.update_neighbours(chunks, rule, index, increment);
            proof {
                assert(indices@.take(i + 1).drop_last() =~= indices@.take(i as int));
                assert forall|c: int, o: int|
                    0 <= c < chunks@.len() && 0 <= o < CHUNK_CELL_COUNT implies #[trigger] chunks@[c].0@[o]
                        == (Cell {
                        value: before[c].0@[o].value,
                        neighbours: adjusted(
                            before[c].0@[o].neighbours,
                            global_hits(rule.neighbour_method, indices@.take(i + 1), c * CHUNK_CELL_COUNT + o, self.radius()),
                            increment,
                        ),
                    }) by {
                    lemma_adjusted_twice(
                        before[c].0@[o].neighbours,
                        global_hits(rule.neighbour_method, indices@.take(i as int), c * CHUNK_CELL_COUNT + o, self.radius()),
                        occurrences(
                            global_targets(rule.neighbour_method, index as int, self.radius()),
                            c * CHUNK_CELL_COUNT + o,
                        ),
                        increment,
                    );
                }
            }
            i = i + 1;
        }
        assert(indices@.take(indices@.len() as int) =~= indices@);
    }

    /// The serial phase of a tick: applies, one at a time, the neighbour-count
    /// deltas of the border cells that were born (`spawns`) and then of those
    /// that stopped being fully alive (`deaths`). These may write into any
    /// chunk, so they are not applied in parallel.
    pub fn apply_border_deltas(&mut self, rule: &Rule, spawns: &Vec<usize>, deaths: &Vec<usize>)
        requires
            old(self).wf(),
            old(self).addressable(),
            forall|i: int| 0 <= i < spawns@.len() ==> #[trigger] spawns@[i] < old(self).chunks.cell_total(),
            forall|i: int| 0 <= i < deaths@.len() ==> #[trigger] deaths@[i] < old(self).chunks.cell_total(),
        ensures
            final(self).wf(),
            final(self).chunks.chunk_radius == old(self).chunks.chunk_radius,
            forall|c: int, o: int|
                0 <= c < final(self).chunks.chunks@.len() && 0 <= o < CHUNK_CELL_COUNT
                    ==> #[trigger] final(self).chunks.chunks@[c].0@[o] == (Cell {
                    value: old(self).chunks.chunks@[c].0@[o].value,
                    neighbours: adjusted(
                        adjusted(
                            old(self).chunks.chunks@[c].0@[o].neighbours,
                            global_hits(rule.neighbour_method, spawns@, c * CHUNK_CELL_COUNT + o, old(self).radius()),
                            true,
                        ),
                        global_hits(rule.neighbour_method, deaths@, c * CHUNK_CELL_COUNT + o, old(self).radius()),
                        false,
                    ),
                }),
    {
        let mut chunks: Vec<Chunk> = Vec::new();
        std::mem::swap(&mut chunks, &mut self.chunks.chunks);
        self.apply_global(&mut chunks, rule, spawns, true);
        self.apply_global(&mut chunks, rule, deaths, false);
        std::mem::swap(&mut chunks, &mut self.chunks.chunks);
    }

    /// One tick: every cell takes its next value, and the neighbour counts
    /// take the deltas of the cells that were born or stopped being fully
    /// alive (interior deltas per chunk, then border deltas serially).
    pub fn update(&mut self, rule: &Rule)
        requires
            old(self).wf(),
        ensures
            final(self).wf(),
            final(self).chunks.chunk_radius == old(self).chunks.chunk_radius,
            forall|c: int, o: int|
                0 <= c < final(self).chunks.chunks@.len() && 0 <= o < CHUNK_CELL_COUNT
                    ==> #[trigger] final(self).chunks.chunks@[c].0@[o] == (Cell {
                    value: next_value(*rule, old(self).chunks.chunks@[c].0@[o]),
                    neighbours: ticked_neighbours(*rule, old(self).chunks.chunks@, c, o, old(self).radius()),
                }),
            rule.states >= 1 && counts_exact(*rule, old(self).chunks.chunks@, old(self).radius())
                ==> counts_exact(*rule, final(self).chunks.chunks@, final(self).radius()),
    {
        let count = self.chunks.chunk_count;
        if count == 0 {
            return;
        }
        proof {
            assert(self.chunks.chunk_radius >= 1) by (nonlinear_arith)
                requires
                    count == self.chunks.chunk_radius * self.chunks.chunk_radius * self.chunks.chunk_radius,
                    count != 0,
            ;
            crate::chunks::lemma_radius_bounds(self.chunks.chunk_radius as int);
        }
        let ghost start = self.chunks.chunks@;
        let mut chunk_spawns: Vec<Vec<usize>> = Vec::new();
        let mut chunk_deaths: Vec<Vec<usize>> = Vec::new();
        let mut spawns: Vec<usize> = Vec::new();
        let mut deaths: Vec<usize> = Vec::new();
        let mut c: usize = 0;
        while c < count
            invariant
                self.wf(),
                self.addressable(),
                count == self.chunks.chunk_count,
                self.chunks.chunk_radius == old(self).chunks.chunk_radius,
                shaped(start, count as int),
                c <= count,
                chunk_spawns@.len() == c,
                chunk_deaths@.len() == c,
                forall|d: int| 0 <= d < c ==> (#[trigger] chunk_spawns@[d])@ == offsets_where(
                    *rule, start[d].0@, CHUNK_CELL_COUNT as int, 0, Report::BornInterior),
                forall|d: int| 0 <= d < c ==> (#[trigger] chunk_deaths@[d])@ == offsets_where(
                    *rule, start[d].0@, CHUNK_CELL_COUNT as int, 0, Report::StopsInterior),
                spawns@ == border_reports(*rule, start, c as int, Report::BornBorder),
                deaths@ == border_reports(*rule, start, c as int, Report::StopsBorder),
                forall|d: int, o: int|
                    0 <= d < c && 0 <= o < CHUNK_CELL_COUNT ==> #[trigger] self.chunks.chunks@[d].0@[o]
                        == (Cell { value: next_value(*rule, start[d].0@[o]), neighbours: start[d].0@[o].neighbours }),
                forall|d: int| c <= d < count ==> #[trigger] self.chunks.chunks@[d] == start[d],
            decreases count - c,
        {
            proof {
                assert(c * CHUNK_CELL_COUNT + CHUNK_CELL_COUNT <= count * CHUNK_CELL_COUNT) by (nonlinear_arith)
                    requires c < count;
                crate::chunks::lemma_radius_bounds(self.chunks.chunk_radius as int);
                assert(self.chunks.chunks@[c as int].wf());
            }
            let mut local_spawns: Vec<usize> = Vec::new();
            let mut local_deaths: Vec<usize> = Vec::new();
            update_values_chunk(
                &mut self.chunks.chunks[c],
                c,
                rule,
                &mut local_spawns,
                &mut spawns,
                &mut local_deaths,
                &mut deaths,
            );
            chunk_spawns.push(local_spawns);
            chunk_deaths.push(local_deaths);
            proof {
                assert(local_spawns@ =~= offsets_where(*rule, start[c as int].0@, CHUNK_CELL_COUNT as int, 0, Report::BornInterior));
                assert(local_deaths@ =~= offsets_where(*rule, start[c as int].0@, CHUNK_CELL_COUNT as int, 0, Report::StopsInterior));
            }
            c = c + 1;
        }
        let ghost mid = self.chunks.chunks@;
        c = 0;
        while c < count
            invariant
                self.wf(),
                self.addressable(),
                count == self.chunks.chunk_count,
                self.chunks.chunk_radius == old(self).chunks.chunk_radius,
                shaped(mid, count as int),
                c <= count,
                chunk_spawns@.len() == count,
                chunk_deaths@.len() == count,
                forall|d: int| 0 <= d < count ==> (#[trigger] chunk_spawns@[d])@ == offsets_where(
                    *rule, start[d].0@, CHUNK_CELL_COUNT as int, 0, Report::BornInterior),
                forall|d: int| 0 <= d < count ==> (#[trigger] chunk_deaths@[d])@ == offsets_where(
                    *rule, start[d].0@, CHUNK_CELL_COUNT as int, 0, Report::StopsInterior),
                forall|d: int, o: int|
                    0 <= d < c && 0 <= o < CHUNK_CELL_COUNT ==> #[trigger] self.chunks.chunks@[d].0@[o]
                        == (Cell {
                        value: mid[d].0@[o].value,
                        neighbours: adjusted(
                            adjusted(
                                mid[d].0@[o].neighbours,
                                local_hits(rule.neighbour_method, chunk_spawns@[d]@, o),
                                true,
                            ),
                            local_hits(rule.neighbour_method, chunk_deaths@[d]@, o),
                            false,
                        ),
                    }),
                forall|d: int| c <= d < count ==> #[trigger] self.chunks.chunks@[d] == mid[d],
            decreases count - c,
        {
            proof {
                assert(self.chunks.chunks@[c as int].wf());
                lemma_interior_reports(*rule, start[c as int].0@, Report::BornInterior);
                lemma_interior_reports(*rule, start[c as int].0@, Report::StopsInterior);
                assert(chunk_spawns@[c as int]@ == offsets_where(*rule, start[c as int].0@, CHUNK_CELL_COUNT as int, 0, Report::BornInterior));
                assert(chunk_deaths@[c as int]@ == offsets_where(*rule, start[c as int].0@, CHUNK_CELL_COUNT as int, 0, Report::StopsInterior));
            }
            apply_chunk_deltas(&mut self.chunks.chunks[c], rule, &chunk_spawns[c], &chunk_deaths[c]);
            c = c + 1;
        }
        proof {
            lemma_border_reports_range(*rule, start, count as int, Report::BornBorder);
            lemma_border_reports_range(*rule, start, count as int, Report::StopsBorder);
        }
        self.apply_border_deltas(rule, &spawns, &deaths);
        proof {
            if rule.states >= 1 && counts_exact(*rule, start, self.radius()) {
                lemma_tick_keeps_counts(*rule, start, self.chunks.chunks@, self.radius());
            }
        }
    }

    /// The number of live cells.
    pub fn cell_count(&self) -> (r: usize)
        requires
            self.wf(),
        ensures
            r == alive_total(self.chunks.chunks@, self.chunks.chunk_count as int),
    {
        let count = self.chunks.chunk_count;
        proof {
            crate::chunks::lemma_radius_bounds(self.chunks.chunk_radius as int);
            lemma_alive_total_bound(self.chunks.chunks@, count as int);
        }
        let mut total: usize = 0;
        let mut c: usize = 0;
        while c < count
            invariant
                self.wf(),
                count == self.chunks.chunk_count,
                count * CHUNK_CELL_COUNT <= usize::MAX,
                c <= count,
                total == alive_total(self.chunks.chunks@, c as int),
            decreases count - c,
        {
            let chunk = &self.chunks.chunks[c];
            assert(chunk.wf());
            proof {
                lemma_alive_total_bound(self.chunks.chunks@, c + 1);
                assert((c + 1) * CHUNK_CELL_COUNT <= count * CHUNK_CELL_COUNT) by (nonlinear_arith)
                    requires c < count;
            }
            total = total + count_chunk(chunk);
            c = c + 1;
        }
        total
    }

    /// A record of every live cell, in index order, placed relative to the
    /// middle of the domain.
    pub fn render(&self) -> (r: Vec<CellRecord>)
        requires
            self.wf(),
        ensures
            r@ == grid_records(self.chunks.chunks@, self.chunks.chunk_count as int, self.radius()),
    {
        let count = self.chunks.chunk_count;
        let mut records: Vec<CellRecord> = Vec::new();
        if count == 0 {
            return records;
        }
        proof {
            assert(self.chunks.chunk_radius >= 1) by (nonlinear_arith)
                requires
                    count == self.chunks.chunk_radius * self.chunks.chunk_radius * self.chunks.chunk_radius,
                    count != 0,
            ;
            crate::chunks::lemma_radius_bounds(self.chunks.chunk_radius as int);
        }
        let half = self.bounds() / 2;
        let mut c: usize = 0;
        while c < count
            invariant
                self.wf(),
                self.addressable(),
                count == self.chunks.chunk_count,
                count * CHUNK_CELL_COUNT <= usize::MAX,
                half == self.chunks.side() / 2,
                c <= count,
                records@ == grid_records(self.chunks.chunks@, c as int, self.radius()),
            decreases count - c,
        {
            let chunk = &self.chunks.chunks[c];
            assert(chunk.wf());
            proof {
                assert(c * CHUNK_CELL_COUNT + CHUNK_CELL_COUNT <= count * CHUNK_CELL_COUNT) by (nonlinear_arith)
                    requires c < count;
            }
            let mut part = render_chunk(chunk, c, self.chunks.chunk_radius, half);
            records.append(&mut part);
            c = c + 1;
        }
        records
    }

    /// Back to an empty simulation.
    pub fn reset(&mut self)
        ensures
            final(self).wf(),
            final(self).radius() == 0,
    {
        *self = MultiThreaded::new();
    }

    /// Brings to life, with value `rule.states`, the dead cells that the
    /// given positions land on after wrapping, and counts each one as a new
    /// fully alive neighbour of the cells around it. Live cells are left as
    /// they are.
    pub fn spawn_at(&mut self, rule: &Rule, positions: &Vec<Position>)
        requires
            old(self).wf(),
            rule.states >= 1,
        ensures
            final(self).wf(),
            final(self).chunks.chunk_radius == old(self).chunks.chunk_radius,
            forall|c: int, o: int|
                0 <= c < final(self).chunks.chunks@.len() && 0 <= o < CHUNK_CELL_COUNT
                    ==> #[trigger] final(self).chunks.chunks@[c].0@[o] == (Cell {
                    value: if old(self).chunks.chunks@[c].0@[o].value == 0 && landings(
                        positions@,
                        old(self).radius(),
                    ).contains(c * CHUNK_CELL_COUNT + o) {
                        rule.states
                    } else {
                        old(self).chunks.chunks@[c].0@[o].value
                    },
                    neighbours: adjusted(
                        old(self).chunks.chunks@[c].0@[o].neighbours,
                        global_hits(
                            rule.neighbour_method,
                            newly_alive(old(self).chunks.chunks@, landings(positions@, old(self).radius())),
                            c * CHUNK_CELL_COUNT + o,
                            old(self).radius(),
                        ),
                        true,
                    ),
                }),
            counts_exact(*rule, old(self).chunks.chunks@, old(self).radius()) ==> counts_exact(
                *rule,
                final(self).chunks.chunks@,
                final(self).radius(),
            ),
            seeded(
                *rule,
                old(self).chunks.chunks@,
                final(self).chunks.chunks@,
                landings(positions@, old(self).radius()),
                old(self).radius(),
            ),
    {
        let count = self.chunks.chunk_count;
        if count == 0 {
            return;
        }
        proof {
            assert(self.chunks.chunk_radius >= 1) by (nonlinear_arith)
                requires
                    count == self.chunks.chunk_radius * self.chunks.chunk_radius * self.chunks.chunk_radius,
                    count != 0,
            ;
            crate::chunks::lemma_radius_bounds(self.chunks.chunk_radius as int);
        }
        let ghost start = self.chunks.chunks@;
        let ghost ts = landings(positions@, self.radius());
        let radius = self.chunks.chunk_radius;
        let bounds = self.bounds();
        let mut chunks: Vec<Chunk> = Vec::new();
        std::mem::swap(&mut chunks, &mut self.chunks.chunks);
        let mut k: usize = 0;
        while k < positions.len()
            invariant
                self.addressable(),
                self.chunks.chunk_count == count,
                self.chunks.chunk_radius == radius,
                radius == old(self).chunks.chunk_radius,
                bounds == self.chunks.side(),
                ts == landings(positions@, self.radius()),
                rule.states >= 1,
                shaped(start, count as int),
                shaped(chunks@, count as int),
                k <= positions@.len(),
                seeded(*rule, start, chunks@, ts.take(k as int), self.radius()),
                forall|i: int| 0 <= i < newly_alive(start, ts.take(k as int)).len()
                    ==> #[trigger] newly_alive(start, ts.take(k as int))[i] < count * CHUNK_CELL_COUNT,
            decreases positions@.len() - k,
        {
            let target = Chunks::position_to_index_ex(wrap(positions[k], bounds), radius);
            let chunk = index_to_chunk_index(target);
            let offset = index_to_chunk_offset(target);
            proof {
                assert(chunk < count) by (nonlinear_arith)
                    requires
                        chunk == target / 32768,
                        target < count * 32768,
                ;
                assert(chunks@[chunk as int].wf());
                assert(ts.take(k + 1).drop_last() =~= ts.take(k as int));
                assert(ts[k as int] == target);
                lemma_split_index(target as int, chunk as int, offset as int);
            }
            let ghost before = chunks@;
            let cell = chunks[chunk].0[offset];
            proof {
                assert(chunk * CHUNK_CELL_COUNT + offset == target);
                assert(chunks@[chunk as int].0@[offset as int] == cell);
                if cell.value == 0 {
                    assert(start[chunk as int].0@[offset as int].value == 0);
                    assert(!ts.take(k as int).contains(target as int));
                }
            }
            if cell.value == 0 {
                chunks[chunk].0[offset] = Cell { value: rule.states, neighbours: cell.neighbours };
                let ghost set = chunks@;
                proof {
                    assert(set == before.update(chunk as int, set[chunk as int]));
                    assert(set[chunk as int].0@ == before[chunk as int].0@.update(
                        offset as int,
                        Cell { value: rule.states, neighbours: cell.neighbours },
                    ));
                }
                self.update_neighbours(&mut chunks, rule, target, true);
                proof {
                    lemma_seed_dead(*rule, start, before, set, chunks@, ts, k as int, self.radius());
                    let na = newly_alive(start, ts.take(k + 1));
                    assert forall|i: int| 0 <= i < na.len() implies #[trigger] na[i] < count * CHUNK_CELL_COUNT by {
                        if i < na.len() - 1 {
                            assert(na[i] == newly_alive(start, ts.take(k as int))[i]);
                        }
                    }
                }
            } else {
                proof {
                    lemma_seed_live(*rule, start, chunks@, ts, k as int, self.radius());
                    assert(ts.take(k + 1).drop_last() =~= ts.take(k as int));
                    assert(newly_alive(start, ts.take(k + 1)) == newly_alive(start, ts.take(k as int)));
                }
            }
            k = k + 1;
        }
        std::mem::swap(&mut chunks, &mut self.chunks.chunks);
        assert(ts.take(positions@.len() as int) =~= ts);
        assert(seeded(*rule, start, self.chunks.chunks@, ts, self.radius()));
        proof {
            if counts_exact(*rule, start, self.radius()) {
                let r = self.radius();
                assert forall|i: int| 0 <= i < ts.len() implies 0 <= #[trigger] ts[i] < r * r * r * CHUNK_CELL_COUNT by {
                    let p = positions@[i];
                    crate::position::lemma_wrap_congruent(p, r * CHUNK_SIZE);
                    crate::chunks::lemma_grid_position_round_trip(wrapped(p, r * CHUNK_SIZE), r);
                }
                lemma_seed_keeps_counts(*rule, start, self.chunks.chunks@, ts, r);
            }
        }
    }

    /// Seeds random cells in the box of half-side 6 around the middle of the
    /// domain: dead cells there may come to life; live cells keep their value.
    pub fn spawn_noise(&mut self, rule: &Rule)
        requires
            old(self).wf(),
            rule.states >= 1,
        ensures
            final(self).wf(),
            final(self).chunks.chunk_radius == old(self).chunks.chunk_radius,
            forall|c: int, o: int|
                0 <= c < final(self).chunks.chunks@.len() && 0 <= o < CHUNK_CELL_COUNT
                    ==> {
                    let before = old(self).chunks.chunks@[c].0@[o].value;
                    let after = #[trigger] final(self).chunks.chunks@[c].0@[o].value;
                    if before == 0 {
                        after == 0 || after == rule.states
                    } else {
                        after == before
                    }
                },
            counts_exact(*rule, old(self).chunks.chunks@, old(self).radius()) ==> counts_exact(
                *rule,
                final(self).chunks.chunks@,
                final(self).radius(),
            ),
            exists|ps: Seq<Position>|
                {
                    &&& ps.len() == NOISE_AMOUNT
                    &&& forall|i: int|
                        0 <= i < ps.len() ==> within(
                            #[trigger] ps[i],
                            middle(old(self).chunks.side()),
                            NOISE_RADIUS as int,
                        )
                    &&& seeded(
                        *rule,
                        old(self).chunks.chunks@,
                        final(self).chunks.chunks@,
                        landings(ps, old(self).radius()),
                        old(self).radius(),
                    )
                },
    {
        proof {
            crate::chunks::lemma_radius_bounds(self.chunks.chunk_radius as int);
        }
        let center = self.center();
        let positions = crate::noise::spawn_noise_default(center);
        self.spawn_at(rule, &positions);
        assert(positions@.len() == NOISE_AMOUNT);
        assert(forall|i: int|
            0 <= i < positions@.len() ==> within(
                #[trigger] positions@[i],
                middle(old(self).chunks.side()),
                NOISE_RADIUS as int,
            ));
    }
}

} // verus!
