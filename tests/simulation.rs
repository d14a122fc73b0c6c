use cellular_automata::chunks::CHUNK_CELL_COUNT;
use cellular_automata::dense::MultiThreaded;
use cellular_automata::neighbours::NeighbourMethod;
use cellular_automata::noise::spawn_noise;
use cellular_automata::position::Position;
use cellular_automata::rule::{Rule, Value};
use cellular_automata::sparse::{
    change_job, neighbour_job, partition, CellsMultithreaded, ProcessStep, StateChange,
};
use std::collections::{BTreeSet, HashMap};

fn life_rule(bound: i32) -> Rule {
    Rule {
        survival_rule: Value::new(&[2, 3]),
        birth_rule: Value::new(&[3]),
        states: 1,
        bounding_size: bound,
        neighbour_method: NeighbourMethod::Moore,
    }
}

fn lonely_rule(bound: i32) -> Rule {
    Rule {
        survival_rule: Value::from_range(1, 26),
        birth_rule: Value::new(&[]),
        states: 3,
        bounding_size: bound,
        neighbour_method: NeighbourMethod::Moore,
    }
}

fn tromino() -> Vec<Position> {
    vec![Position::new(1, 1, 1), Position::new(2, 1, 1), Position::new(1, 2, 1)]
}

/// The 2x2x3 block that the tromino grows into under the rule above.
fn tromino_successor() -> BTreeSet<(i32, i32, i32)> {
    let mut s = BTreeSet::new();
    for x in 1..=2 {
        for y in 1..=2 {
            for z in 0..=2 {
                s.insert((x, y, z));
            }
        }
    }
    s
}

fn run_sparse_tick(cells: &mut CellsMultithreaded, rule: &Rule) {
    cells.ready();
    for _ in 0..4 {
        cells.advance(rule, 3);
    }
    assert_eq!(cells.process_step, ProcessStep::Ready);
}

fn sparse_alive(cells: &CellsMultithreaded) -> BTreeSet<(i32, i32, i32)> {
    let h = cells.bound / 2;
    cells
        .render()
        .iter()
        .map(|r| (r.position.x + h, r.position.y + h, r.position.z + h))
        .collect()
}

fn dense_alive(sim: &MultiThreaded) -> BTreeSet<(i32, i32, i32)> {
    let h = sim.bounds() / 2;
    sim.render()
        .iter()
        .map(|r| (r.position.x + h, r.position.y + h, r.position.z + h))
        .collect()
}

#[test]
fn process_step_cycles_through_five_states() {
    let mut s = ProcessStep::Ready;
    let order = [
        ProcessStep::CalculateNeighbours,
        ProcessStep::AwaitNeighbours,
        ProcessStep::CalculateChanges,
        ProcessStep::AwaitChanges,
        ProcessStep::Ready,
    ];
    for next in order {
        s.advance_to_next_step();
        assert_eq!(s, next);
    }
}

#[test]
fn tromino_grows_into_a_block_sparse() {
    let rule = life_rule(8);
    let mut cells = CellsMultithreaded::new(&rule);
    assert!(cells.spawn_at(&rule, &tromino()));
    assert_eq!(cells.cell_count(), 3);
    run_sparse_tick(&mut cells, &rule);
    assert_eq!(sparse_alive(&cells), tromino_successor());
    assert_eq!(cells.cell_count(), 12);
}

#[test]
fn tromino_grows_into_a_block_dense() {
    let rule = life_rule(32);
    let mut sim = MultiThreaded::new();
    assert_eq!(sim.set_bounds(8), 32);
    sim.spawn_at(&rule, &tromino());
    assert_eq!(sim.cell_count(), 3);
    sim.update(&rule);
    assert_eq!(dense_alive(&sim), tromino_successor());
    assert_eq!(sim.cell_count(), 12);
}

#[test]
fn isolated_cell_decays_then_vanishes_sparse() {
    let rule = lonely_rule(8);
    let mut cells = CellsMultithreaded::new(&rule);
    assert!(cells.spawn_at(&rule, &vec![Position::new(4, 4, 4)]));
    assert_eq!(cells.render()[0].value, 3);
    run_sparse_tick(&mut cells, &rule);
    assert_eq!(cells.cell_count(), 1);
    assert_eq!(cells.render()[0].value, 2);
    run_sparse_tick(&mut cells, &rule);
    assert_eq!(cells.render()[0].value, 1);
    run_sparse_tick(&mut cells, &rule);
    assert_eq!(cells.cell_count(), 0);
    run_sparse_tick(&mut cells, &rule);
    assert_eq!(cells.cell_count(), 0);
}

#[test]
fn isolated_cell_decays_then_vanishes_dense() {
    let rule = lonely_rule(32);
    let mut sim = MultiThreaded::new();
    sim.set_bounds(32);
    sim.spawn_at(&rule, &vec![Position::new(10, 10, 10)]);
    assert_eq!(sim.render()[0].value, 3);
    sim.update(&rule);
    assert_eq!(sim.render()[0].value, 2);
    for _ in 0..3 {
        sim.update(&rule);
    }
    assert_eq!(sim.cell_count(), 0);
}

#[test]
fn spawn_noise_is_refused_while_busy() {
    let rule = life_rule(32);
    let mut cells = CellsMultithreaded::new(&rule);
    assert!(cells.spawn_at(&rule, &tromino()));
    assert!(cells.is_busy());
    let before = cells.cell_count();
    assert!(!cells.spawn_noise(&rule));
    assert_eq!(cells.cell_count(), before);
    cells.advance(&rule, 2);
    assert_eq!(cells.process_step, ProcessStep::AwaitNeighbours);
    assert!(!cells.spawn_noise(&rule));
    assert!(!cells.spawn_at(&rule, &vec![Position::new(9, 9, 9)]));
    assert_eq!(cells.cell_count(), before);
}

#[test]
fn ready_state_driver_changes_nothing() {
    let rule = life_rule(8);
    let mut cells = CellsMultithreaded::new(&rule);
    cells.spawn_at(&rule, &tromino());
    run_sparse_tick(&mut cells, &rule);
    let snapshot = cells.render();
    for _ in 0..5 {
        cells.advance(&rule, 4);
        cells.tick(4);
        assert_eq!(cells.process_step, ProcessStep::Ready);
        assert_eq!(cells.render(), snapshot);
    }
}

#[test]
fn growth_keeps_existing_cells() {
    let rule = life_rule(32);
    let mut sim = MultiThreaded::new();
    sim.set_bounds(32);
    sim.spawn_at(&rule, &tromino());
    let before: Vec<_> = sim.chunks.chunks[0].0.clone();
    for b in [40, 64, 70, 100, 128] {
        let side = sim.set_bounds(b);
        assert!(side >= b && side % 32 == 0);
        assert_eq!(sim.chunks.chunks[0].0, before);
        assert_eq!(sim.cell_count(), 3);
        for c in 1..sim.chunks.chunks.len() {
            assert!(sim.chunks.chunks[c].0.iter().all(|cell| cell.value == 0 && cell.neighbours == 0));
        }
    }
    assert_eq!(dense_alive(&sim), tromino().iter().map(|p| (p.x, p.y, p.z)).collect());
}

#[test]
fn smaller_bounds_leave_the_grid_as_it_is() {
    let mut sim = MultiThreaded::new();
    assert_eq!(sim.set_bounds(64), 64);
    assert_eq!(sim.set_bounds(10), 64);
    assert_eq!(sim.bounds(), 64);
    assert_eq!(sim.center(), Position::new(32, 32, 32));
}

/// Neighbour counts kept by delta equal a recount from scratch.
fn check_counts(sim: &MultiThreaded, rule: &Rule) {
    let side = sim.bounds();
    let dirs = rule.neighbour_method.get_neighbour_iter();
    let mut full = HashMap::new();
    for (c, chunk) in sim.chunks.chunks.iter().enumerate() {
        for (o, cell) in chunk.0.iter().enumerate() {
            full.insert(c * CHUNK_CELL_COUNT + o, cell.value == rule.states);
        }
    }
    for (c, chunk) in sim.chunks.chunks.iter().enumerate() {
        for (o, cell) in chunk.0.iter().enumerate() {
            let p = sim.chunks.index_to_position(c * CHUNK_CELL_COUNT + o);
            let mut n = 0u8;
            for d in &dirs {
                let q = Position::new(
                    (p.x + d.x).rem_euclid(side),
                    (p.y + d.y).rem_euclid(side),
                    (p.z + d.z).rem_euclid(side),
                );
                if full[&sim.chunks.position_to_index(q)] {
                    n += 1;
                }
            }
            assert_eq!(cell.neighbours, n, "at {:?}", p);
        }
    }
}

#[test]
fn incremental_counts_match_recount() {
    let rule = Rule {
        survival_rule: Value::from_range(2, 6),
        birth_rule: Value::new(&[3, 4]),
        states: 3,
        bounding_size: 32,
        neighbour_method: NeighbourMethod::Moore,
    };
    let mut sim = MultiThreaded::new();
    sim.set_bounds(32);
    let mut seeds = vec![];
    for i in 0..40 {
        seeds.push(Position::new((i * 7) % 32 - 1, (i * 3) % 5 + 14, (i * 11) % 6 + 30));
    }
    sim.spawn_at(&rule, &seeds);
    check_counts(&sim, &rule);
    for _ in 0..4 {
        sim.update(&rule);
        check_counts(&sim, &rule);
    }
}

#[test]
fn incremental_counts_match_recount_von_neumann() {
    let rule = Rule {
        survival_rule: Value::from_range(0, 6),
        birth_rule: Value::new(&[1, 3]),
        states: 2,
        bounding_size: 32,
        neighbour_method: NeighbourMethod::VonNeuman,
    };
    let mut sim = MultiThreaded::new();
    sim.set_bounds(32);
    sim.spawn_at(&rule, &vec![Position::new(0, 0, 0), Position::new(31, 15, 16), Position::new(16, 16, 16)]);
    check_counts(&sim, &rule);
    for _ in 0..3 {
        sim.update(&rule);
        check_counts(&sim, &rule);
    }
}

#[test]
fn noise_stays_in_its_box_and_varies() {
    let c = Position::new(10, -4, 100);
    let ps = spawn_noise(c, 6, 500);
    assert_eq!(ps.len(), 500);
    for p in &ps {
        assert!((p.x - c.x).abs() <= 6 && (p.y - c.y).abs() <= 6 && (p.z - c.z).abs() <= 6);
    }
    let distinct: BTreeSet<_> = ps.iter().map(|p| (p.x, p.y, p.z)).collect();
    assert!(distinct.len() > 1);
}

#[test]
fn dense_spawn_noise_only_adds_cells() {
    let rule = life_rule(32);
    let mut sim = MultiThreaded::new();
    sim.set_bounds(32);
    sim.spawn_noise(&rule);
    let n = sim.cell_count();
    assert!(n > 0 && n <= 1728);
    for r in sim.render() {
        assert!(r.position.x.abs() <= 6 && r.position.y.abs() <= 6 && r.position.z.abs() <= 6);
        assert_eq!(r.value, 1);
    }
}

#[test]
fn partition_covers_the_keys_in_order() {
    let keys: Vec<u64> = (0..10).collect();
    let parts = partition(&keys, 3);
    assert_eq!(parts, vec![vec![0, 1, 2, 3], vec![4, 5, 6, 7], vec![8, 9]]);
    let parts = partition(&vec![], 2);
    assert_eq!(parts, vec![Vec::<u64>::new(), vec![]]);
    let parts = partition(&vec![5], 4);
    assert_eq!(parts.concat(), vec![5]);
    assert_eq!(parts.len(), 4);
}

#[test]
fn jobs_emit_neighbours_and_decide_changes() {
    let rule = life_rule(8);
    let mut cells = CellsMultithreaded::new(&rule);
    cells.spawn_at(&rule, &vec![Position::new(0, 0, 0)]);
    let out = neighbour_job(&cells.states, &vec![0, 5], &rule, 8);
    assert_eq!(out.len(), 26);
    // (-1, -1, -1) wraps to (7, 7, 7)
    assert_eq!(out[0], 7 + 7 * 8 + 7 * 64);
    assert!(out.contains(&1) && out.contains(&8) && out.contains(&64));
    let mut neighbours = HashMap::new();
    neighbours.insert(1u64, 3u8);
    neighbours.insert(2u64, 2u8);
    let changes = change_job(&cells.states, &neighbours, &vec![0, 1, 2, 3], &rule);
    assert_eq!(changes, vec![(0, StateChange::Decay), (1, StateChange::Spawn { neighbours: 3 })]);
}

#[test]
fn neighbour_pass_counts_full_neighbours() {
    let rule = Rule {
        survival_rule: Value::from_range(1, 5),
        birth_rule: Value::new(&[2]),
        states: 2,
        bounding_size: 6,
        neighbour_method: NeighbourMethod::Moore,
    };
    let mut cells = CellsMultithreaded::new(&rule);
    let seeds = vec![
        Position::new(0, 0, 0),
        Position::new(5, 5, 5),
        Position::new(1, 0, 0),
        Position::new(3, 3, 3),
        Position::new(3, 4, 3),
    ];
    cells.spawn_at(&rule, &seeds);
    for _ in 0..2 {
        cells.advance(&rule, 2);
    }
    assert_eq!(cells.process_step, ProcessStep::CalculateChanges);
    let b = cells.bound;
    let dirs = rule.neighbour_method.get_neighbour_iter();
    for x in 0..b {
        for y in 0..b {
            for z in 0..b {
                let mut n = 0u8;
                for d in &dirs {
                    let q = ((x + d.x).rem_euclid(b), (y + d.y).rem_euclid(b), (z + d.z).rem_euclid(b));
                    let key = (q.0 + q.1 * b + q.2 * b * b) as u64;
                    if cells.states.get(&key).map_or(false, |c| c.value == rule.states) {
                        n += 1;
                    }
                }
                let key = (x + y * b + z * b * b) as u64;
                assert_eq!(*cells.neighbours.get(&key).unwrap_or(&0), n);
            }
        }
    }
    // every counted key and every live key is to be decided
    for k in cells.neighbours.keys().chain(cells.states.keys()) {
        assert!(cells.change_mask.contains(k));
    }
}

#[test]
fn commit_ignores_stray_changes() {
    let rule = life_rule(4);
    let mut cells = CellsMultithreaded::new(&rule);
    cells.spawn_at(&rule, &vec![Position::new(1, 1, 1)]);
    cells.advance(&rule, 1);
    cells.finish_neighbours(&vec![vec![1, 1, 2, 64, 1000]]);
    assert_eq!(cells.neighbours.get(&1), Some(&2));
    assert_eq!(cells.neighbours.get(&2), Some(&1));
    assert!(cells.neighbours.get(&64).is_none());
    assert_eq!(cells.process_step, ProcessStep::CalculateChanges);
    cells.tick(1);
    assert_eq!(cells.process_step, ProcessStep::AwaitChanges);
    let key = (1 + 4 + 16) as u64;
    cells.finish_changes(
        &rule,
        &vec![
            vec![(5, StateChange::Decay), (key, StateChange::Decay)],
            vec![(7, StateChange::Spawn { neighbours: 3 }), (99, StateChange::Spawn { neighbours: 3 })],
        ],
    );
    assert_eq!(cells.process_step, ProcessStep::Ready);
    assert_eq!(cells.cell_count(), 1);
    assert!(cells.states.get(&key).is_none());
    assert_eq!(cells.states.get(&7).map(|c| c.value), Some(1));
    assert!(cells.neighbours.is_empty());
    assert!(cells.change_mask.is_empty());
}

#[test]
fn incremental_counts_match_recount_across_chunks() {
    let rule = Rule {
        survival_rule: Value::from_range(1, 8),
        birth_rule: Value::new(&[2, 3]),
        states: 2,
        bounding_size: 64,
        neighbour_method: NeighbourMethod::Moore,
    };
    let mut sim = MultiThreaded::new();
    assert_eq!(sim.set_bounds(40), 64);
    let mut seeds = vec![];
    for i in 0..30 {
        // around the faces between chunks and around the faces of the grid
        seeds.push(Position::new(31 + i % 2, 30 + (i * 5) % 4, 63 - (i * 7) % 3));
        seeds.push(Position::new((i * 3) % 64, 0, 32 + i % 2));
    }
    sim.spawn_at(&rule, &seeds);
    check_counts(&sim, &rule);
    for _ in 0..2 {
        sim.update(&rule);
        check_counts(&sim, &rule);
    }
}

#[test]
fn partition_buckets_are_at_most_the_ceiling() {
    let keys: Vec<u64> = (0..10).collect();
    let parts = partition(&keys, 4);
    assert_eq!(parts.len(), 4);
    assert!(parts.iter().all(|b| b.len() <= 3));
    assert_eq!(parts.concat(), keys);
    let parts = partition(&keys, 20);
    assert!(parts.iter().all(|b| b.len() <= 1));
    assert_eq!(parts.concat(), keys);
}
