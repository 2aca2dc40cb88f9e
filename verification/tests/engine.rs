use simcore::graph::{GraphError, ValueManager};
use simcore::grid::is_neighbor;
use simcore::ops::{apply_operator, get_func, Operator};
use simcore::populate::{build_pixel_manager, HEAT_ID, HEIGHT_ID, RAIN_ID, RIVER_ID, VEGET_ID, WATER_ID};

#[test]
fn operator_names_resolve() {
    assert_eq!(get_func(&"SET".to_string()), 0);
    assert_eq!(get_func(&"MAX".to_string()), 1);
    assert_eq!(get_func(&"MIN".to_string()), 2);
    assert_eq!(get_func(&"ADD".to_string()), 3);
    assert_eq!(get_func(&"SUBT".to_string()), 4);
    assert_eq!(get_func(&"MULT".to_string()), 5);
    assert_eq!(get_func(&"DIV".to_string()), 6);
    assert_eq!(get_func(&"POW".to_string()), 7);
    assert_eq!(get_func(&"ROOT".to_string()), 8);
    assert_eq!(get_func(&"LOG".to_string()), 9);
    assert_eq!(get_func(&"NOPE".to_string()), 10);
    assert_eq!(get_func(&"set".to_string()), 10);
}

#[test]
fn operator_codes_decode() {
    assert_eq!(Operator::from_code(0), Some(Operator::Assign));
    assert_eq!(Operator::from_code(3), Some(Operator::Add));
    assert_eq!(Operator::from_code(9), Some(Operator::Log));
    assert_eq!(Operator::from_code(10), None);
    assert_eq!(Operator::from_code(255), None);
}

#[test]
fn operators_compute_exact_values() {
    assert_eq!(apply_operator(Operator::Assign, 7, -3), -3);
    assert_eq!(apply_operator(Operator::Max, 7, -3), 7);
    assert_eq!(apply_operator(Operator::Min, 7, -3), -3);
    assert_eq!(apply_operator(Operator::Add, 7, -3), 4);
    assert_eq!(apply_operator(Operator::Subt, 7, -3), 10);
    assert_eq!(apply_operator(Operator::Mult, 7, -3), -21);
    assert_eq!(apply_operator(Operator::Div, 7, 2), 3);
    assert_eq!(apply_operator(Operator::Div, -7, 2), -3);
    assert_eq!(apply_operator(Operator::Div, 7, -2), -3);
    assert_eq!(apply_operator(Operator::Pow, 3, 4), 81);
    assert_eq!(apply_operator(Operator::Pow, -2, 3), -8);
    assert_eq!(apply_operator(Operator::Pow, 5, 0), 1);
    assert_eq!(apply_operator(Operator::Root, 27, 3), 3);
    assert_eq!(apply_operator(Operator::Root, 26, 3), 2);
    assert_eq!(apply_operator(Operator::Root, 1, 5), 1);
    assert_eq!(apply_operator(Operator::Log, 8, 2), 3);
    assert_eq!(apply_operator(Operator::Log, 7, 2), 2);
    assert_eq!(apply_operator(Operator::Log, 1000, 10), 3);
}

#[test]
fn operators_are_total() {
    assert_eq!(apply_operator(Operator::Div, 5, 0), 0);
    assert_eq!(apply_operator(Operator::Div, i64::MIN, -1), i64::MAX);
    assert_eq!(apply_operator(Operator::Add, i64::MAX, 1), i64::MAX);
    assert_eq!(apply_operator(Operator::Add, i64::MIN, -1), i64::MIN);
    assert_eq!(apply_operator(Operator::Subt, i64::MIN, 1), i64::MIN);
    assert_eq!(apply_operator(Operator::Mult, 1 << 40, 1 << 40), i64::MAX);
    assert_eq!(apply_operator(Operator::Mult, 1 << 40, -(1 << 40)), i64::MIN);
    assert_eq!(apply_operator(Operator::Pow, 2, -1), 0);
    assert_eq!(apply_operator(Operator::Pow, 0, 0), 1);
    assert_eq!(apply_operator(Operator::Pow, 0, 7), 0);
    assert_eq!(apply_operator(Operator::Pow, 2, 80), i64::MAX);
    assert_eq!(apply_operator(Operator::Root, -8, 3), 0);
    assert_eq!(apply_operator(Operator::Root, 8, 0), 0);
    assert_eq!(apply_operator(Operator::Log, 0, 2), 0);
    assert_eq!(apply_operator(Operator::Log, 8, 1), 0);
    assert_eq!(apply_operator(Operator::Log, -5, 2), 0);
}

#[test]
fn exponential_operators_handle_large_values() {
    assert_eq!(apply_operator(Operator::Pow, 2, 62), 1 << 62);
    assert_eq!(apply_operator(Operator::Pow, 2, 63), i64::MAX);
    assert_eq!(apply_operator(Operator::Pow, -2, 63), i64::MIN);
    assert_eq!(
        apply_operator(Operator::Root, 1_000_000_000_000_000_000, 2),
        1_000_000_000
    );
    assert_eq!(apply_operator(Operator::Root, i64::MAX, 1), i64::MAX);
    assert_eq!(apply_operator(Operator::Log, i64::MAX, 2), 62);
}

#[test]
fn pending_deltas_saturate() {
    let mut m = ValueManager::new();
    let a = m.add_value(0, Vec::new()).unwrap();
    m.push_delta(a, i64::MAX);
    m.push_delta(a, i64::MAX);
    m.update();
    assert_eq!(m.value_of(a), i64::MAX);
    m.push_delta(a, 1);
    m.update();
    assert_eq!(m.value_of(a), i64::MAX);
}

#[test]
fn manager_seeds_constants() {
    let m = ValueManager::new();
    assert_eq!(m.len(), 5);
    assert_eq!(m.value_of(0), 0);
    assert_eq!(m.value_of(1), 1);
    assert_eq!(m.value_of(2), -1);
    assert_eq!(m.value_of(3), 2);
    assert_eq!(m.value_of(4), -2);
}

#[test]
fn add_value_computes_initial_value_eagerly() {
    let mut m = ValueManager::new();
    let a = m.add_value(10, Vec::new()).unwrap();
    let b = m.add_value(5, Vec::new()).unwrap();
    assert_eq!(a, 5);
    assert_eq!(b, 6);
    let c = m
        .add_value(0, vec![(Operator::Assign, a as u16), (Operator::Add, b as u16)])
        .unwrap();
    assert_eq!(m.value_of(c), 15);
}

#[test]
fn add_value_rejects_missing_parent() {
    let mut m = ValueManager::new();
    let r = m.add_value(1, vec![(Operator::Assign, 9)]);
    assert_eq!(r, Err(GraphError::MissingParent));
    assert_eq!(m.len(), 5);
}

#[test]
fn delta_round_trip_through_update() {
    // A = 10, B = 5, C = SET(A) then ADD(B): C == A + B.
    let mut m = ValueManager::new();
    let a = m.add_value(10, Vec::new()).unwrap();
    let b = m.add_value(5, Vec::new()).unwrap();
    let c = m
        .add_value(0, vec![(Operator::Assign, a as u16), (Operator::Add, b as u16)])
        .unwrap();
    assert_eq!(m.value_of(c), 15);
    m.push_delta(a, 3);
    m.update();
    assert_eq!(m.value_of(a), 13);
    assert_eq!(m.base_of(a), 13);
    assert_eq!(m.value_of(c), 18);
    assert_eq!(m.value_of(b), 5);
}

#[test]
fn update_without_deltas_is_idempotent() {
    let mut m = ValueManager::new();
    let a = m.add_value(10, Vec::new()).unwrap();
    let b = m.add_value(5, Vec::new()).unwrap();
    let c = m
        .add_value(0, vec![(Operator::Assign, a as u16), (Operator::Add, b as u16)])
        .unwrap();
    m.push_delta(a, 3);
    m.update();
    let before: Vec<i64> = (0..m.len()).map(|i| m.value_of(i)).collect();
    let bases: Vec<i64> = (0..m.len()).map(|i| m.base_of(i)).collect();
    m.update();
    m.update();
    for i in 0..m.len() {
        assert_eq!(m.value_of(i), before[i]);
        assert_eq!(m.base_of(i), bases[i]);
    }
    assert_eq!(m.value_of(c), 18);
}

#[test]
fn update_leaves_non_descendants_alone() {
    let mut m = ValueManager::new();
    let a = m.add_value(100, Vec::new()).unwrap();
    let b = m.add_value(200, Vec::new()).unwrap();
    let c = m.add_value(0, vec![(Operator::Assign, a as u16)]).unwrap();
    let d = m.add_value(0, vec![(Operator::Assign, b as u16)]).unwrap();
    m.push_delta(a, 7);
    m.update();
    assert_eq!(m.value_of(a), 107);
    assert_eq!(m.value_of(c), 107);
    assert_eq!(m.value_of(b), 200);
    assert_eq!(m.value_of(d), 200);
}

#[test]
fn deltas_accumulate_until_update_commits() {
    let mut m = ValueManager::new();
    let a = m.add_value(1, Vec::new()).unwrap();
    m.push_delta(a, 4);
    m.push_delta(a, -2);
    assert_eq!(m.value_of(a), 1);
    m.update();
    assert_eq!(m.value_of(a), 3);
    assert_eq!(m.base_of(a), 3);
}

#[test]
fn update_folds_operator_chains_in_declaration_order() {
    let mut m = ValueManager::new();
    let a = m.add_value(7, Vec::new()).unwrap();
    // value = ((0 max A) * 2) via MAX then MULT against the constant 2.
    let c = m
        .add_value(0, vec![(Operator::Max, a as u16), (Operator::Mult, 3)])
        .unwrap();
    assert_eq!(m.value_of(c), 14);
    m.push_delta(a, 1);
    m.update();
    assert_eq!(m.value_of(c), 16);
}

#[test]
fn remove_node_shifts_references_down() {
    let mut m = ValueManager::new();
    let x = m.add_value(50, Vec::new()).unwrap();
    let y = m.add_value(60, Vec::new()).unwrap();
    let z = m.add_value(0, vec![(Operator::Assign, y as u16)]).unwrap();
    assert_eq!((x, y, z), (5, 6, 7));
    // x is unreferenced: removal shifts y to 5 and z to 6.
    assert_eq!(m.remove_node(x), Ok(()));
    assert_eq!(m.len(), 7);
    assert_eq!(m.value_of(5), 60);
    assert_eq!(m.value_of(6), 60);
    // The shifted reference still tracks its parent.
    m.push_delta(5, 2);
    m.update();
    assert_eq!(m.value_of(6), 62);
}

#[test]
fn remove_node_rejects_referenced_or_missing() {
    let mut m = ValueManager::new();
    let y = m.add_value(60, Vec::new()).unwrap();
    let _z = m.add_value(0, vec![(Operator::Assign, y as u16)]).unwrap();
    assert_eq!(m.remove_node(y), Err(GraphError::NodeReferenced));
    assert_eq!(m.remove_node(99), Err(GraphError::OutOfRange));
    assert_eq!(m.len(), 7);
}

#[test]
fn pixel_graph_wires_water_from_river_and_rain() {
    let m = build_pixel_manager(80, 40, 6, 4, 9);
    assert_eq!(m.len(), 11);
    assert_eq!(m.value_of(HEIGHT_ID), 80);
    assert_eq!(m.value_of(HEAT_ID), 40);
    assert_eq!(m.value_of(RIVER_ID), 6);
    assert_eq!(m.value_of(RAIN_ID), 4);
    assert_eq!(m.value_of(VEGET_ID), 9);
    assert_eq!(m.value_of(WATER_ID), 5);
}

#[test]
fn pixel_graph_water_follows_its_sources() {
    let mut m = build_pixel_manager(0, 0, 10, 20, 0);
    assert_eq!(m.value_of(WATER_ID), 15);
    m.push_delta(RIVER_ID, 4);
    m.update();
    assert_eq!(m.value_of(WATER_ID), 17);
    assert_eq!(m.value_of(RAIN_ID), 20);
}

#[test]
fn neighbor_relation_on_the_grid() {
    // 4x4 grid, row-major.
    assert!(is_neighbor(5, 5, 4));
    assert!(is_neighbor(5, 6, 4));
    assert!(is_neighbor(5, 1, 4));
    assert!(is_neighbor(5, 10, 4));
    assert!(!is_neighbor(5, 7, 4));
    // No wrap-around between row ends.
    assert!(!is_neighbor(3, 4, 4));
    // Below the last row is off the grid.
    assert!(!is_neighbor(13, 17, 4));
}
