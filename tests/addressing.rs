use cellular_automata::chunks::{
    index_to_chunk_index, index_to_chunk_offset, Chunk, Chunks, CHUNK_CELL_COUNT,
};
use cellular_automata::position::{center, index_to_position, position_to_index, wrap, Position};
use cellular_automata::sparse::{key_of, position_of_key, MAX_SPARSE_BOUND};

#[test]
fn index_round_trip_over_small_cube() {
    let b: i32 = 5;
    for i in 0..(b * b * b) as usize {
        let p = index_to_position(i, b);
        assert!(p.x >= 0 && p.x < b && p.y >= 0 && p.y < b && p.z >= 0 && p.z < b);
        assert_eq!(position_to_index(p, b), i);
    }
    for x in 0..b {
        for y in 0..b {
            for z in 0..b {
                let p = Position::new(x, y, z);
                assert_eq!(index_to_position(position_to_index(p, b), b), p);
            }
        }
    }
}

#[test]
fn index_layout_is_x_fastest() {
    assert_eq!(index_to_position(0, 4), Position::new(0, 0, 0));
    assert_eq!(index_to_position(1, 4), Position::new(1, 0, 0));
    assert_eq!(index_to_position(4, 4), Position::new(0, 1, 0));
    assert_eq!(index_to_position(16, 4), Position::new(0, 0, 1));
    assert_eq!(index_to_position(63, 4), Position::new(3, 3, 3));
    assert_eq!(position_to_index(Position::new(2, 3, 1), 4), 2 + 3 * 4 + 16);
}

#[test]
fn wrap_lands_in_cube_and_is_congruent() {
    let b: i32 = 7;
    for v in [-50, -15, -8, -7, -1, 0, 3, 6, 7, 8, 20, 100] {
        let p = wrap(Position::new(v, v + 1, -v), b);
        for (w, orig) in [(p.x, v), (p.y, v + 1), (p.z, -v)] {
            assert!(w >= 0 && w < b);
            assert_eq!((w - orig).rem_euclid(b), 0);
        }
    }
    assert_eq!(wrap(Position::new(-1, 8, -15), 8), Position::new(7, 0, 1));
    assert_eq!(wrap(Position::new(i32::MIN, i32::MAX, 0), 10), Position::new(2, 7, 0));
}

#[test]
fn center_is_half_the_side() {
    assert_eq!(center(8), Position::new(4, 4, 4));
    assert_eq!(center(33), Position::new(16, 16, 16));
}

#[test]
fn chunk_index_and_offset_split_a_global_index() {
    assert_eq!(CHUNK_CELL_COUNT, 32768);
    assert_eq!(index_to_chunk_index(70000), 2);
    assert_eq!(index_to_chunk_offset(70000), 70000 - 65536);
    assert_eq!(index_to_chunk_index(32767), 0);
    assert_eq!(index_to_chunk_offset(32768), 0);
}

#[test]
fn border_positions_of_a_chunk() {
    assert!(Chunk::is_border_position(Position::new(0, 5, 5), 0));
    assert!(Chunk::is_border_position(Position::new(5, 31, 5), 0));
    assert!(!Chunk::is_border_position(Position::new(1, 30, 15), 0));
    assert!(Chunk::is_border_position(Position::new(1, 15, 15), 1));
    assert!(!Chunk::is_border_position(Position::new(2, 29, 15), 1));
}

#[test]
fn local_chunk_addressing() {
    let p = Chunk::index_to_position(32 + 1024 * 3 + 5);
    assert_eq!(p, Position::new(5, 1, 3));
    assert_eq!(Chunk::position_to_index(p), 32 + 1024 * 3 + 5);
}

#[test]
fn grid_addressing_round_trips() {
    let mut chunks = Chunks::new();
    assert_eq!(chunks.set_bounds(64), 64);
    let p = Position::new(40, 3, 63);
    let i = chunks.position_to_index(p);
    assert_eq!(chunks.index_to_position(i), p);
    // chunk (1, 0, 1) of a radius-2 grid is chunk 1 + 4 = 5
    assert_eq!(index_to_chunk_index(i), 5);
    for i in [0usize, 1, 32767, 32768, 100000, 8 * 32768 - 1] {
        let q = chunks.index_to_position(i);
        assert_eq!(chunks.position_to_index(q), i);
    }
}

#[test]
fn set_bounds_rounds_up_and_never_shrinks() {
    let mut chunks = Chunks::new();
    assert_eq!(chunks.bounds(), 0);
    assert_eq!(chunks.set_bounds(1), 32);
    assert_eq!(chunks.chunks.len(), 1);
    assert_eq!(chunks.set_bounds(33), 64);
    assert_eq!(chunks.chunk_radius, 2);
    assert_eq!(chunks.chunk_count, 8);
    assert_eq!(chunks.chunks.len(), 8);
    assert_eq!(chunks.set_bounds(10), 64);
    assert_eq!(chunks.chunks.len(), 8);
    assert_eq!(chunks.set_bounds(64), 64);
}

#[test]
fn default_chunk_is_dead() {
    let chunk = Chunk::default();
    assert_eq!(chunk.0.len(), CHUNK_CELL_COUNT);
    assert!(chunk.0.iter().all(|c| c.is_dead() && c.neighbours == 0));
}

#[test]
fn sparse_keys_reach_the_far_corner() {
    let b = MAX_SPARSE_BOUND;
    let corner = Position::new(b - 1, b - 1, b - 1);
    let k = key_of(corner, b);
    assert_eq!(k, (b as u64).pow(3) - 1);
    assert_eq!(position_of_key(k, b), corner);
    assert_eq!(key_of(Position::new(1, 2, 3), 10), 321);
    assert_eq!(position_of_key(321, 10), Position::new(1, 2, 3));
}
