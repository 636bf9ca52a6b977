use classic_computer_science_problems::generic_search::{astar, bfs, dfs};
use classic_computer_science_problems::maze::{Cell, Maze, MazeLocation};

fn at(row: i32, column: i32) -> MazeLocation {
    MazeLocation { row, column }
}

fn open_pattern(rows: usize, columns: usize) -> Vec<Vec<bool>> {
    vec![vec![false; columns]; rows]
}

#[test]
fn bfs_through_an_open_three_by_three_maze_takes_four_edges() {
    let maze = Maze::new_with_blocked_cells(3, 3, at(0, 0), at(2, 2), &open_pattern(3, 3));
    let found = bfs(maze.start, |loc| maze.test_goal(loc), |loc| maze.get_successors(loc)).unwrap();
    let path: Vec<MazeLocation> = found.to_path().into_iter().collect();
    assert_eq!(path.len(), 5);
    assert_eq!(path[0], at(0, 0));
    assert_eq!(path[4], at(2, 2));
    for pair in path.windows(2) {
        assert!(maze.get_successors(pair[0]).contains(&pair[1]));
    }
}

#[test]
fn searches_go_round_blocked_cells() {
    let mut blocked = open_pattern(3, 3);
    blocked[0][1] = true;
    blocked[1][1] = true;
    let maze = Maze::new_with_blocked_cells(3, 3, at(0, 0), at(0, 2), &blocked);
    let by_bfs = bfs(maze.start, |loc| maze.test_goal(loc), |loc| maze.get_successors(loc)).unwrap();
    assert_eq!(by_bfs.to_path().len(), 7);
    let by_astar = astar(
        maze.start,
        |loc| maze.test_goal(loc),
        |loc| maze.get_successors(loc),
        |loc| maze.distance_to_goal(loc) as u64,
    )
    .unwrap();
    assert_eq!(by_astar.cost, 6);
    let by_dfs = dfs(maze.start, |loc| maze.test_goal(loc), |loc| maze.get_successors(loc)).unwrap();
    assert_eq!(by_dfs.state, at(0, 2));
}

#[test]
fn walled_in_goal_is_not_found() {
    let mut blocked = open_pattern(3, 3);
    blocked[1][2] = true;
    blocked[2][1] = true;
    let maze = Maze::new_with_blocked_cells(3, 3, at(0, 0), at(2, 2), &blocked);
    assert!(bfs(maze.start, |loc| maze.test_goal(loc), |loc| maze.get_successors(loc)).is_none());
    assert!(dfs(maze.start, |loc| maze.test_goal(loc), |loc| maze.get_successors(loc)).is_none());
}

#[test]
fn successors_come_in_the_order_up_left_right_down() {
    let maze = Maze::new_with_with_and_height(3, 3);
    assert_eq!(maze.get_successors(at(1, 1)), vec![at(0, 1), at(1, 0), at(1, 2), at(2, 1)]);
    assert_eq!(maze.get_successors(at(0, 0)), vec![at(0, 1), at(1, 0)]);
    assert_eq!(maze.get_successors(at(2, 2)), vec![at(1, 2), at(2, 1)]);
}

#[test]
fn successors_leave_out_blocked_cells_and_the_outside() {
    let mut blocked = open_pattern(2, 3);
    blocked[0][1] = true;
    let maze = Maze::new_with_blocked_cells(2, 3, at(0, 0), at(1, 2), &blocked);
    assert_eq!(maze.get_successors(at(0, 0)), vec![at(1, 0)]);
    assert_eq!(maze.get_successors(at(1, 1)), vec![at(1, 0), at(1, 2)]);
    assert_eq!(maze.get_successors(at(5, 5)), vec![]);
    assert_eq!(maze.get_successors(at(-1, 0)), vec![at(0, 0)]);
    assert_eq!(maze.get_successors(at(i32::MAX, 0)), vec![]);
    assert_eq!(maze.get_successors(at(i32::MIN, i32::MIN)), vec![]);
}

#[test]
fn new_maze_has_no_cells() {
    let maze = Maze::new();
    assert_eq!(maze.rows, 0);
    assert_eq!(maze.columns, 0);
    assert_eq!(maze.start, at(0, 0));
    assert_eq!(maze.goal, at(0, 0));
    assert!(maze.grid.is_empty());
    assert_eq!(maze.get_successors(at(0, 0)), vec![]);
}

#[test]
fn maze_of_a_given_size_is_empty() {
    let maze = Maze::new_with_with_and_height(2, 3);
    assert_eq!(maze.rows, 2);
    assert_eq!(maze.columns, 3);
    assert_eq!(maze.grid, vec![vec![Cell::Empty; 3]; 2]);
}

#[test]
fn setup_marks_blocked_cells_start_and_goal() {
    let mut blocked = open_pattern(2, 2);
    blocked[0][0] = true;
    blocked[0][1] = true;
    blocked[1][1] = true;
    let maze = Maze::new_with_blocked_cells(2, 2, at(0, 0), at(1, 1), &blocked);
    assert_eq!(maze.cell_at(at(0, 0)), Cell::Start);
    assert_eq!(maze.cell_at(at(0, 1)), Cell::Blocked);
    assert_eq!(maze.cell_at(at(1, 0)), Cell::Empty);
    assert_eq!(maze.cell_at(at(1, 1)), Cell::Goal);
    assert_eq!(maze.start, at(0, 0));
    assert_eq!(maze.goal, at(1, 1));
}

#[test]
fn goal_wins_where_start_and_goal_are_the_same_cell() {
    let maze = Maze::new_with_blocked_cells(1, 1, at(0, 0), at(0, 0), &open_pattern(1, 1));
    assert_eq!(maze.cell_at(at(0, 0)), Cell::Goal);
}

#[test]
fn mark_path_and_clear_path_undo_each_other() {
    let mut maze = Maze::new_with_blocked_cells(3, 3, at(0, 0), at(2, 2), &open_pattern(3, 3));
    let clean = maze.grid.clone();
    maze.mark_path(vec![at(0, 0), at(0, 1), at(1, 1), at(2, 1), at(2, 2)]);
    assert_eq!(maze.cell_at(at(0, 0)), Cell::Start);
    assert_eq!(maze.cell_at(at(0, 1)), Cell::Path);
    assert_eq!(maze.cell_at(at(1, 1)), Cell::Path);
    assert_eq!(maze.cell_at(at(2, 1)), Cell::Path);
    assert_eq!(maze.cell_at(at(2, 2)), Cell::Goal);
    assert_eq!(maze.cell_at(at(1, 0)), Cell::Empty);
    maze.clear_path();
    assert_eq!(maze.grid, clean);
}

#[test]
fn clear_path_keeps_blocked_cells() {
    let mut blocked = open_pattern(2, 2);
    blocked[0][1] = true;
    let mut maze = Maze::new_with_blocked_cells(2, 2, at(0, 0), at(1, 1), &blocked);
    maze.mark_path(vec![at(1, 0)]);
    maze.clear_path();
    assert_eq!(maze.cell_at(at(0, 1)), Cell::Blocked);
    assert_eq!(maze.cell_at(at(1, 0)), Cell::Empty);
}

#[test]
fn mark_start_and_goal_follows_the_fields() {
    let mut maze = Maze::new_with_with_and_height(2, 2);
    maze.start = at(1, 0);
    maze.goal = at(0, 1);
    maze.mark_start_and_goal();
    assert_eq!(maze.cell_at(at(1, 0)), Cell::Start);
    assert_eq!(maze.cell_at(at(0, 1)), Cell::Goal);
    assert_eq!(maze.cell_at(at(0, 0)), Cell::Empty);
}

#[test]
fn manhattan_distance_adds_rows_and_columns() {
    assert_eq!(at(1, 2).manhattan_distance_to(at(4, 6)), 7);
    assert_eq!(at(4, 6).manhattan_distance_to(at(1, 2)), 7);
    assert_eq!(at(-3, 2).manhattan_distance_to(at(3, -2)), 10);
    assert_eq!(at(0, 0).manhattan_distance_to(at(0, 0)), 0);
    assert_eq!(at(0, 0).manhattan_distance_to(at(i32::MAX, i32::MAX)), 4294967294);
}

#[test]
fn distance_to_goal_is_measured_from_the_goal() {
    let maze = Maze::new_with_blocked_cells(10, 10, at(0, 0), at(9, 9), &open_pattern(10, 10));
    assert_eq!(maze.distance_to_goal(at(0, 0)), 18);
    assert_eq!(maze.distance_to_goal(at(9, 9)), 0);
    assert_eq!(maze.distance_to_goal(at(5, 7)), 6);
}

#[test]
fn test_goal_accepts_the_goal_only() {
    let maze = Maze::new_with_blocked_cells(3, 3, at(0, 0), at(2, 2), &open_pattern(3, 3));
    assert!(maze.test_goal(at(2, 2)));
    assert!(!maze.test_goal(at(2, 1)));
}

#[test]
fn location_is_valid_inside_the_maze_only() {
    let maze = Maze::new_with_with_and_height(2, 3);
    assert!(maze.is_location_valid(&at(0, 0)));
    assert!(maze.is_location_valid(&at(1, 2)));
    assert!(!maze.is_location_valid(&at(2, 0)));
    assert!(!maze.is_location_valid(&at(0, 3)));
    assert!(!maze.is_location_valid(&at(-1, 0)));
    assert!(!maze.is_location_valid(&at(0, -1)));
}

#[test]
fn cells_have_their_characters() {
    assert_eq!(Cell::Empty.to_character(), " ");
    assert_eq!(Cell::Blocked.to_character(), "◼︎");
    assert_eq!(Cell::Start.to_character(), "▶︎");
    assert_eq!(Cell::Goal.to_character(), "★");
    assert_eq!(Cell::Path.to_character(), "●");
    assert_eq!(Cell::default(), Cell::Empty);
    assert_eq!(MazeLocation::default(), at(0, 0));
}

#[test]
fn random_setup_blocks_nothing_at_no_chance_and_everything_at_full_chance() {
    let open = Maze::new_with_setup(4, 5, at(0, 0), at(3, 4), 0);
    let shut = Maze::new_with_setup(4, 5, at(0, 0), at(3, 4), 100);
    for row in 0..4 {
        for column in 0..5 {
            let expected = match (row, column) {
                (0, 0) => Cell::Start,
                (3, 4) => Cell::Goal,
                _ => Cell::Empty,
            };
            assert_eq!(open.cell_at(at(row, column)), expected);
            let expected = match (row, column) {
                (0, 0) => Cell::Start,
                (3, 4) => Cell::Goal,
                _ => Cell::Blocked,
            };
            assert_eq!(shut.cell_at(at(row, column)), expected);
        }
    }
}

#[test]
fn random_setup_leaves_cells_empty_or_blocked() {
    let maze = Maze::new_with_setup(10, 10, at(0, 0), at(9, 9), 20);
    assert_eq!(maze.rows, 10);
    assert_eq!(maze.columns, 10);
    assert_eq!(maze.cell_at(at(0, 0)), Cell::Start);
    assert_eq!(maze.cell_at(at(9, 9)), Cell::Goal);
    let mut blocked = 0;
    for row in 0..10 {
        for column in 0..10 {
            match maze.cell_at(at(row, column)) {
                Cell::Blocked => blocked += 1,
                Cell::Path => panic!("a new maze has no path"),
                _ => {}
            }
        }
    }
    assert!(blocked < 98);
}

#[test]
fn randomly_block_cells_keeps_what_is_blocked() {
    let mut maze = Maze::new_with_with_and_height(3, 3);
    maze.randomly_block_cells(100);
    assert_eq!(maze.grid, vec![vec![Cell::Blocked; 3]; 3]);
    maze.randomly_block_cells(0);
    assert_eq!(maze.grid, vec![vec![Cell::Blocked; 3]; 3]);
}
