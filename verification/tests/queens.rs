use classic_computer_science_problems::csp::{Constraint, CSP};
use classic_computer_science_problems::queens::QueensConstraint;
use std::collections::HashMap;

fn board(queens: &[(i32, i32)]) -> HashMap<i32, i32> {
    queens.iter().cloned().collect()
}

fn solve(size: i32) -> Option<HashMap<i32, i32>> {
    let columns: Vec<i32> = (1..=size).collect();
    let mut rows = HashMap::new();
    for column in &columns {
        rows.insert(*column, columns.clone());
    }
    let mut csp: CSP<i32, i32, QueensConstraint> = CSP::new(columns.clone(), rows).unwrap();
    csp.add_constraint(QueensConstraint { columns }).unwrap();
    csp.backtracking_search()
}

#[test]
fn queens_constraint_names_its_columns() {
    let constraint = QueensConstraint { columns: vec![1, 2, 3] };
    assert_eq!(constraint.variables(), vec![1, 2, 3]);
}

#[test]
fn queens_in_one_row_or_on_one_diagonal_attack() {
    let constraint = QueensConstraint { columns: vec![1, 2, 3, 4] };
    assert!(constraint.is_satisfied(&board(&[])));
    assert!(constraint.is_satisfied(&board(&[(1, 1)])));
    assert!(constraint.is_satisfied(&board(&[(1, 1), (2, 3)])));
    assert!(!constraint.is_satisfied(&board(&[(1, 1), (2, 1)])));
    assert!(!constraint.is_satisfied(&board(&[(1, 1), (2, 2)])));
    assert!(!constraint.is_satisfied(&board(&[(1, 3), (3, 1)])));
    assert!(!constraint.is_satisfied(&board(&[(1, 2), (4, 2)])));
    assert!(constraint.is_satisfied(&board(&[(1, 2), (2, 4), (3, 1), (4, 3)])));
    assert!(!constraint.is_satisfied(&board(&[(1, 2), (2, 4), (3, 1), (4, 4)])));
}

#[test]
fn queens_right_of_the_last_column_are_not_looked_at() {
    let constraint = QueensConstraint { columns: vec![1, 2] };
    assert!(constraint.is_satisfied(&board(&[(1, 1), (3, 1)])));
    assert!(!constraint.is_satisfied(&board(&[(1, 1), (2, 1)])));
}

#[test]
fn eight_queens_have_a_first_solution() {
    let found = solve(8).unwrap();
    let expected = board(&[(1, 1), (2, 5), (3, 8), (4, 6), (5, 3), (6, 7), (7, 2), (8, 4)]);
    assert_eq!(found, expected);
}

#[test]
fn small_boards_without_a_solution() {
    assert!(solve(2).is_none());
    assert!(solve(3).is_none());
    assert_eq!(solve(1), Some(board(&[(1, 1)])));
    assert_eq!(solve(4), Some(board(&[(1, 2), (2, 4), (3, 1), (4, 3)])));
}
