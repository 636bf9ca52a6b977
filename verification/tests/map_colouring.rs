use classic_computer_science_problems::csp::{Constraint, CSP};
use classic_computer_science_problems::map_colouring::{colour_map, MapColouringConstraint};
use std::collections::HashMap;

#[test]
fn constraint_names_its_two_places() {
    let constraint = MapColouringConstraint::new(3, 5);
    assert_eq!(constraint.place_1, 3);
    assert_eq!(constraint.place_2, 5);
    assert_eq!(constraint.variables(), vec![3, 5]);
}

#[test]
fn constraint_holds_until_both_places_share_a_colour() {
    let constraint = MapColouringConstraint::new(3, 5);
    let mut assignment = HashMap::new();
    assert!(constraint.is_satisfied(&assignment));
    assignment.insert(3, 1);
    assert!(constraint.is_satisfied(&assignment));
    assignment.insert(5, 2);
    assert!(constraint.is_satisfied(&assignment));
    assignment.insert(5, 1);
    assert!(!constraint.is_satisfied(&assignment));
    assignment.insert(7, 1);
    assignment.insert(3, 4);
    assert!(constraint.is_satisfied(&assignment));
}

#[test]
fn australia_takes_three_colours() {
    let places: Vec<u32> = (0..7).collect();
    let mut domains = HashMap::new();
    for place in &places {
        domains.insert(*place, vec![10u32, 20, 30]);
    }
    let mut csp: CSP<u32, u32, MapColouringConstraint> = CSP::new(places.clone(), domains).unwrap();
    let borders = [(0, 1), (0, 2), (2, 1), (3, 1), (3, 2), (3, 4), (4, 2), (5, 2), (5, 4), (5, 6)];
    for (a, b) in borders {
        csp.add_constraint(MapColouringConstraint::new(a, b)).unwrap();
    }
    let found = csp.backtracking_search().unwrap();
    assert_eq!(found.len(), 7);
    for (a, b) in borders {
        assert_ne!(found[&a], found[&b]);
    }
    let expected: HashMap<u32, u32> =
        [(0, 10), (1, 20), (2, 30), (3, 10), (4, 20), (5, 10), (6, 20)].into_iter().collect();
    assert_eq!(found, expected);
}

#[test]
fn triangle_cannot_take_two_colours() {
    let mut domains = HashMap::new();
    for place in 0..3u32 {
        domains.insert(place, vec![1u32, 2]);
    }
    let mut csp: CSP<u32, u32, MapColouringConstraint> = CSP::new(vec![0, 1, 2], domains).unwrap();
    for (a, b) in [(0, 1), (1, 2), (0, 2)] {
        csp.add_constraint(MapColouringConstraint::new(a, b)).unwrap();
    }
    assert!(csp.backtracking_search().is_none());
}

#[test]
fn colour_map_colours_australia() {
    let borders = vec![(0, 1), (0, 2), (2, 1), (3, 1), (3, 2), (3, 4), (4, 2), (5, 2), (5, 4), (5, 6)];
    let found = colour_map((0..7).collect(), vec![1, 2, 3], borders.clone()).unwrap().unwrap();
    assert_eq!(found.len(), 7);
    for (a, b) in borders {
        assert_ne!(found[&a], found[&b]);
    }
    for place in 0..7u32 {
        assert!([1, 2, 3].contains(&found[&place]));
    }
}

#[test]
fn colour_map_reports_that_no_colouring_exists() {
    let borders = vec![(0, 1), (1, 2), (0, 2)];
    assert_eq!(colour_map(vec![0, 1, 2], vec![1, 2], borders), Ok(None));
    assert_eq!(colour_map(vec![0], vec![], vec![]), Ok(None));
    assert_eq!(colour_map(vec![0], vec![4], vec![(0, 0)]), Ok(None));
}

#[test]
fn colour_map_refuses_a_border_with_an_unknown_place() {
    let result = colour_map(vec![0, 1], vec![1, 2], vec![(0, 1), (1, 7)]);
    assert_eq!(result, Err("Variable in constraint is not in CSP"));
}

#[test]
fn colour_map_of_nothing_is_empty() {
    assert_eq!(colour_map(vec![], vec![1], vec![]), Ok(Some(HashMap::new())));
}
