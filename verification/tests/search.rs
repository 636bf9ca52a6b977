use classic_computer_science_problems::generic_search::{
    astar, bfs, binary_contains, dfs, is_sorted, linear_contains, Node,
};

fn grid_successors(size: i32, blocked: Vec<(i32, i32)>) -> impl Fn((i32, i32)) -> Vec<(i32, i32)> {
    move |(row, column): (i32, i32)| {
        let mut next = Vec::new();
        for (dr, dc) in [(-1, 0), (0, -1), (0, 1), (1, 0)] {
            let cell = (row + dr, column + dc);
            if cell.0 >= 0 && cell.0 < size && cell.1 >= 0 && cell.1 < size && !blocked.contains(&cell) {
                next.push(cell);
            }
        }
        next
    }
}

fn manhattan_to(goal: (i32, i32)) -> impl Fn((i32, i32)) -> u64 {
    move |(row, column): (i32, i32)| ((goal.0 - row).abs() + (goal.1 - column).abs()) as u64
}

fn assert_valid_path(path: &[(i32, i32)], successors: &dyn Fn((i32, i32)) -> Vec<(i32, i32)>) {
    for pair in path.windows(2) {
        assert!(successors(pair[0]).contains(&pair[1]));
    }
}

#[test]
fn bfs_on_open_three_by_three_grid_takes_four_edges() {
    let found = bfs((0, 0), |s| s == (2, 2), grid_successors(3, vec![])).unwrap();
    let path: Vec<(i32, i32)> = found.to_path().into_iter().collect();
    assert_eq!(path.len(), 5);
    assert_eq!(path[0], (0, 0));
    assert_eq!(path[4], (2, 2));
    assert_valid_path(&path, &grid_successors(3, vec![]));
}

#[test]
fn bfs_finds_the_shortest_way_round_a_wall() {
    let blocked = vec![(0, 1), (1, 1), (2, 1)];
    let found = bfs((0, 0), |s| s == (0, 2), grid_successors(4, blocked.clone())).unwrap();
    let path: Vec<(i32, i32)> = found.to_path().into_iter().collect();
    assert_eq!(path.len(), 9);
    assert_valid_path(&path, &grid_successors(4, blocked));
}

#[test]
fn dfs_returns_a_valid_path_to_the_goal() {
    let found = dfs((0, 0), |s| s == (2, 2), grid_successors(3, vec![])).unwrap();
    let path: Vec<(i32, i32)> = found.to_path().into_iter().collect();
    assert_eq!(path[0], (0, 0));
    assert_eq!(*path.last().unwrap(), (2, 2));
    assert_valid_path(&path, &grid_successors(3, vec![]));
}

#[test]
fn dfs_expands_the_state_discovered_last() {
    let successors = |s: u32| match s {
        0 => vec![1, 2],
        1 => vec![3],
        2 => vec![3],
        _ => vec![],
    };
    let found = dfs(0u32, |s| s == 3, successors).unwrap();
    let path: Vec<u32> = found.to_path().into_iter().collect();
    assert_eq!(path, vec![0, 2, 3]);
}

#[test]
fn bfs_expands_the_state_discovered_first() {
    let successors = |s: u32| match s {
        0 => vec![1, 2],
        1 => vec![3],
        2 => vec![3],
        _ => vec![],
    };
    let found = bfs(0u32, |s| s == 3, successors).unwrap();
    let path: Vec<u32> = found.to_path().into_iter().collect();
    assert_eq!(path, vec![0, 1, 3]);
}

#[test]
fn astar_cost_is_the_least_number_of_edges() {
    let blocked = vec![(0, 1), (1, 1), (2, 1)];
    let goal = (0, 2);
    let found =
        astar((0, 0), |s| s == goal, grid_successors(4, blocked.clone()), manhattan_to(goal)).unwrap();
    let path: Vec<(i32, i32)> = found.to_path().into_iter().collect();
    assert_eq!(found.cost, 8);
    assert_eq!(path.len(), 9);
    assert_valid_path(&path, &grid_successors(4, blocked));
}

#[test]
fn astar_agrees_with_bfs_on_an_open_grid() {
    let goal = (4, 3);
    let by_astar = astar((0, 0), |s| s == goal, grid_successors(5, vec![]), manhattan_to(goal)).unwrap();
    let by_bfs = bfs((0, 0), |s| s == goal, grid_successors(5, vec![])).unwrap();
    assert_eq!(by_astar.cost, 7);
    assert_eq!(by_astar.to_path().len(), by_bfs.to_path().len());
}

#[test]
fn astar_takes_up_a_state_again_when_a_cheaper_way_appears() {
    // 0 -> 1 -> 2 -> 3 -> 9 and 0 -> 3: the estimate makes the long way look good first.
    let successors = |s: u32| match s {
        0 => vec![1, 3],
        1 => vec![2],
        2 => vec![3],
        3 => vec![9],
        _ => vec![],
    };
    let estimate = |s: u32| match s {
        3 => 1u64,
        _ => 0u64,
    };
    let found = astar(0u32, |s| s == 9, successors, estimate).unwrap();
    let path: Vec<u32> = found.to_path().into_iter().collect();
    assert_eq!(path, vec![0, 3, 9]);
    assert_eq!(found.cost, 2);
}

#[test]
fn searches_return_none_when_no_goal_is_reachable() {
    let blocked = vec![(0, 1), (1, 0), (1, 1)];
    let goal = (2, 2);
    assert!(dfs((0, 0), |s| s == goal, grid_successors(3, blocked.clone())).is_none());
    assert!(bfs((0, 0), |s| s == goal, grid_successors(3, blocked.clone())).is_none());
    assert!(astar((0, 0), |s| s == goal, grid_successors(3, blocked), manhattan_to(goal)).is_none());
}

#[test]
fn searches_end_on_a_graph_with_cycles() {
    let successors = |s: u32| vec![(s + 1) % 5, (s + 2) % 5];
    assert!(dfs(0u32, |s| s == 7, successors).is_none());
    assert!(bfs(0u32, |s| s == 7, successors).is_none());
    assert!(astar(0u32, |s| s == 7, successors, |_| 0).is_none());
    assert_eq!(bfs(0u32, |s| s == 4, successors).unwrap().to_path().len(), 3);
}

#[test]
fn initial_state_that_is_a_goal_gives_a_path_of_one_state() {
    let found = bfs(7u32, |s| s == 7, |_| vec![]).unwrap();
    assert_eq!(found.to_path().into_iter().collect::<Vec<u32>>(), vec![7]);
    assert!(found.parent.is_none());
    let found = astar(7u32, |s| s == 7, |_| vec![], |_| 0).unwrap();
    assert_eq!(found.cost, 0);
    assert_eq!(found.get_total_cost_of_path(), 0);
}

#[test]
fn node_path_runs_from_the_root_to_the_node() {
    let root = Node::new(1u32, None);
    let middle = Node::new_with_cost_and_heuristic(2u32, Some(Box::new(root)), 1, 5);
    let leaf = Node::new_with_cost_and_heuristic(3u32, Some(Box::new(middle)), 2, 4);
    let nodes = leaf.to_node_path();
    assert_eq!(nodes.len(), 3);
    assert_eq!(nodes[0].state, 1);
    assert_eq!(nodes[1].state, 2);
    assert_eq!(nodes[1].heuristic, 5);
    assert_eq!(nodes[2].state, 3);
    assert!(nodes[0].parent.is_none());
    assert_eq!(leaf.to_path().into_iter().collect::<Vec<u32>>(), vec![1, 2, 3]);
    assert_eq!(leaf.get_total_cost_of_path(), 3);
}

#[test]
fn new_node_has_no_cost_and_no_estimate() {
    let node = Node::new(4u8, None);
    assert_eq!(node.cost, 0);
    assert_eq!(node.heuristic, 0);
    assert_eq!(node.state, 4);
}

#[test]
fn node_clone_keeps_the_whole_chain() {
    let root = Node::new(1u32, None);
    let leaf = Node::new_with_cost_and_heuristic(2u32, Some(Box::new(root)), 1, 3);
    let copy = leaf.clone();
    assert_eq!(copy.state, 2);
    assert_eq!(copy.cost, 1);
    assert_eq!(copy.heuristic, 3);
    assert_eq!(copy.parent.unwrap().state, 1);
}

#[test]
fn linear_contains_finds_what_is_there() {
    assert!(linear_contains(&[3, 1, 2], 2));
    assert!(!linear_contains(&[3, 1, 2], 4));
    assert!(!linear_contains::<i32>(&[], 4));
}

#[test]
fn binary_contains_finds_what_is_there() {
    let xs = [1, 3, 5, 7, 9];
    for x in xs {
        assert_eq!(binary_contains(&xs, x), Ok(true));
    }
    for x in [0, 2, 4, 6, 8, 10] {
        assert_eq!(binary_contains(&xs, x), Ok(false));
    }
    assert_eq!(binary_contains::<i32>(&[], 1), Ok(false));
}

#[test]
fn binary_contains_refuses_an_unsorted_container() {
    assert_eq!(binary_contains(&[2, 1, 3], 2), Err("container must be sorted first"));
    assert!(!is_sorted(&[2, 1, 3]));
    assert!(is_sorted(&[1, 1, 3]));
}

#[test]
fn nodes_compare_by_cost_plus_estimate() {
    let cheap = Node::new_with_cost_and_heuristic(1u32, None, 2, 3);
    let same = Node::new_with_cost_and_heuristic(9u32, None, 4, 1);
    let dear = Node::new_with_cost_and_heuristic(1u32, None, 2, 4);
    assert!(cheap == same);
    assert!(cheap != dear);
    assert!(cheap < dear);
    assert!(dear > same);
    assert_eq!(cheap.partial_cmp(&same), Some(std::cmp::Ordering::Equal));
    assert_eq!(cheap.priority_key(), 5);
    let huge = Node::new_with_cost_and_heuristic(1u32, None, u64::MAX, u64::MAX);
    assert_eq!(huge.priority_key(), 2 * (u64::MAX as u128));
    assert!(dear < huge);
}

#[test]
fn default_node_is_a_root_without_cost() {
    let node: Node<u32> = Node::default();
    assert_eq!(node.state, 0);
    assert!(node.parent.is_none());
    assert_eq!(node.cost, 0);
    assert_eq!(node.heuristic, 0);
}
