use cellular_automata::neighbours::NeighbourMethod;
use cellular_automata::position::Position;
use cellular_automata::rule::{Rule, Value};

#[test]
fn value_from_list_holds_exactly_the_list() {
    let v = Value::new(&[2, 6, 9, 26]);
    for n in 0..27u8 {
        assert_eq!(v.in_range(n), [2, 6, 9, 26].contains(&n));
    }
    let empty = Value::new(&[]);
    assert!((0..27u8).all(|n| !empty.in_range(n)));
}

#[test]
fn value_from_range_is_inclusive() {
    let v = Value::from_range(9, 26);
    for n in 0..27u8 {
        assert_eq!(v.in_range(n), n >= 9);
    }
    let single = Value::from_range(0, 0);
    assert!(single.in_range(0));
    assert!(!single.in_range(1));
    let empty = Value::from_range(5, 4);
    assert!((0..27u8).all(|n| !empty.in_range(n)));
}

#[test]
fn moore_neighbourhood_is_the_cube_without_its_centre() {
    let dirs = NeighbourMethod::Moore.get_neighbour_iter();
    assert_eq!(dirs.len(), 26);
    assert_eq!(dirs[0], Position::new(-1, -1, -1));
    assert_eq!(dirs[1], Position::new(0, -1, -1));
    assert_eq!(dirs[13], Position::new(1, 0, 0));
    assert_eq!(dirs[25], Position::new(1, 1, 1));
    assert!(!dirs.contains(&Position::new(0, 0, 0)));
    for (i, a) in dirs.iter().enumerate() {
        for b in &dirs[i + 1..] {
            assert_ne!(a, b);
        }
    }
}

#[test]
fn von_neumann_neighbourhood_has_six_faces() {
    let dirs = NeighbourMethod::VonNeuman.get_neighbour_iter();
    assert_eq!(
        dirs,
        vec![
            Position::new(1, 0, 0),
            Position::new(-1, 0, 0),
            Position::new(0, 1, 0),
            Position::new(0, -1, 0),
            Position::new(0, 0, -1),
            Position::new(0, 0, 1),
        ]
    );
}

#[test]
fn rule_bounding_ranges_and_center() {
    let rule = Rule {
        survival_rule: Value::new(&[4]),
        birth_rule: Value::new(&[4]),
        states: 5,
        bounding_size: 50,
        neighbour_method: NeighbourMethod::Moore,
    };
    let (x, y, z) = rule.get_bounding_ranges();
    assert_eq!(x, 0..=49);
    assert_eq!(y, 0..=49);
    assert_eq!(z, 0..=49);
    assert_eq!(rule.center(), Position::new(25, 25, 25));
}
