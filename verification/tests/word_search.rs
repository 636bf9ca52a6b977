use classic_computer_science_problems::word_search::{GridLocation, WordGrid};

fn at(row: i32, column: i32) -> GridLocation {
    GridLocation { row, column }
}

#[test]
fn new_word_grid_has_no_cells() {
    let grid = WordGrid::new();
    assert_eq!(grid.rows, 0);
    assert_eq!(grid.columns, 0);
    assert!(grid.grid.is_empty());
    assert!(grid.generate_domain("AB").is_empty());
}

#[test]
fn grid_of_a_given_size_holds_the_first_letter() {
    let grid = WordGrid::new_with_with_and_height(2, 3);
    assert_eq!(grid.grid, vec![vec!['A'; 3]; 2]);
}

#[test]
fn random_grid_holds_capital_letters() {
    let grid = WordGrid::new_with_setup(8, 9);
    assert_eq!(grid.rows, 8);
    assert_eq!(grid.columns, 9);
    assert_eq!(grid.grid.len(), 8);
    let mut different = false;
    for row in &grid.grid {
        assert_eq!(row.len(), 9);
        for letter in row {
            assert!(('A'..='Z').contains(letter));
            different = different || *letter != grid.grid[0][0];
        }
    }
    assert!(different);
}

#[test]
fn lines_run_in_four_directions() {
    assert_eq!(WordGrid::get_right_locations(1, 2, 3), Some(vec![at(1, 2), at(1, 3), at(1, 4)]));
    assert_eq!(WordGrid::get_diagonal_right_locations(1, 2, 3), Some(vec![at(1, 2), at(2, 3), at(3, 4)]));
    assert_eq!(WordGrid::get_down_locations(1, 2, 3), Some(vec![at(1, 2), at(2, 2), at(3, 2)]));
    assert_eq!(WordGrid::get_diagonal_left_locations(1, 2, 3), Some(vec![at(1, 2), at(2, 1), at(3, 0)]));
    assert_eq!(WordGrid::get_right_locations(1, 2, 0), None);
    assert_eq!(WordGrid::get_diagonal_right_locations(1, 2, 0), None);
    assert_eq!(WordGrid::get_down_locations(1, 2, 0), None);
    assert_eq!(WordGrid::get_diagonal_left_locations(1, 2, 0), None);
}

#[test]
fn domain_of_a_word_in_a_small_grid() {
    let grid = WordGrid::new_with_with_and_height(2, 3);
    let domain = grid.generate_domain("AB");
    assert_eq!(
        domain,
        vec![
            vec![at(0, 0), at(0, 1)],
            vec![at(0, 0), at(1, 1)],
            vec![at(0, 0), at(1, 0)],
            vec![at(0, 1), at(0, 2)],
            vec![at(0, 1), at(1, 2)],
            vec![at(0, 1), at(1, 1)],
            vec![at(0, 2), at(1, 2)],
            vec![at(0, 2), at(1, 1)],
            vec![at(1, 0), at(1, 1)],
            vec![at(1, 1), at(1, 2)],
        ]
    );
    assert!(grid.generate_domain("ABCD").is_empty());
    assert!(grid.generate_domain("").is_empty());
    assert_eq!(grid.generate_domain("ABC"), vec![vec![at(0, 0), at(0, 1), at(0, 2)], vec![at(1, 0), at(1, 1), at(1, 2)]]);
}

#[test]
fn mark_word_writes_letter_by_letter() {
    let mut grid = WordGrid::new_with_with_and_height(3, 3);
    grid.mark_word("JOE", vec![at(0, 2), at(1, 1), at(2, 0)]);
    assert_eq!(grid.grid, vec![vec!['A', 'A', 'J'], vec!['A', 'O', 'A'], vec!['E', 'A', 'A']]);
    grid.mark_word("XYZ", vec![at(0, 0)]);
    assert_eq!(grid.grid[0], vec!['X', 'A', 'J']);
    grid.mark_word("Q", vec![at(2, 2), at(2, 1)]);
    assert_eq!(grid.grid[2], vec!['E', 'A', 'Q']);
}
