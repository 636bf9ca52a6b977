use classic_computer_science_problems::graph::{Edge, EdgeUV, Graph, UnweightedEdge, UnweightedGraph};

fn edge(u: i32, v: i32) -> UnweightedEdge {
    UnweightedEdge { uv: EdgeUV { u, v } }
}

fn cities() -> Graph<&'static str, UnweightedEdge> {
    let mut graph = Graph::new(vec!["Atlanta", "Boston", "Chicago"]);
    graph.insert_edge(edge(0, 1));
    graph.insert_edge(edge(0, 2));
    graph
}

#[test]
fn new_graph_has_vertices_and_no_edges() {
    let graph: Graph<&str, UnweightedEdge> = Graph::new(vec!["Atlanta", "Boston"]);
    assert_eq!(graph.get_vertex_count(), 2);
    assert_eq!(graph.get_edge_count(), 0);
    let unweighted = UnweightedGraph::new(vec![1, 2, 3]);
    assert_eq!(unweighted.graph.vertices, vec![1, 2, 3]);
    assert!(unweighted.graph.edges.is_empty());
}

#[test]
fn insert_vertex_returns_its_position() {
    let mut graph: Graph<&str, UnweightedEdge> = Graph::new(vec!["Atlanta"]);
    assert_eq!(graph.insert_vertex("Boston"), 1);
    assert_eq!(graph.insert_vertex("Chicago"), 2);
    assert_eq!(graph.vertices, vec!["Atlanta", "Boston", "Chicago"]);
}

#[test]
fn insert_edge_adds_both_directions_once() {
    let mut graph = cities();
    assert_eq!(graph.edges, vec![edge(0, 1), edge(1, 0), edge(0, 2), edge(2, 0)]);
    graph.insert_edge(edge(0, 1));
    graph.insert_edge(edge(2, 0));
    assert_eq!(graph.get_edge_count(), 4);
}

#[test]
fn reversed_edge_swaps_its_ends() {
    let turned = edge(3, 7).reversed();
    assert_eq!(*turned.get_uv(), EdgeUV { u: 7, v: 3 });
    assert_eq!(*edge(3, 7).get_uv(), EdgeUV { u: 3, v: 7 });
}

#[test]
fn index_of_finds_the_first_equal_vertex() {
    let graph: Graph<&str, UnweightedEdge> = Graph::new(vec!["Atlanta", "Boston", "Atlanta"]);
    assert_eq!(graph.get_index_of(&"Atlanta"), Some(0));
    assert_eq!(graph.get_index_of(&"Boston"), Some(1));
    assert_eq!(graph.get_index_of(&"Chicago"), None);
}

#[test]
fn neighbours_follow_the_edges_that_leave_a_vertex() {
    let graph = cities();
    assert_eq!(graph.get_neighbours_for(&"Atlanta"), vec!["Boston", "Chicago"]);
    assert_eq!(graph.get_neighbours_for(&"Boston"), vec!["Atlanta"]);
    assert_eq!(graph.get_neighbours_for_index(2), vec!["Atlanta"]);
    assert_eq!(graph.get_neighbours_for_index(7), Vec::<&str>::new());
}

#[test]
fn edges_for_index_are_those_that_leave_the_vertex() {
    let graph = cities();
    assert_eq!(graph.get_edges_for_index(0), vec![edge(0, 1), edge(0, 2)]);
    assert_eq!(graph.get_edges_for_index(1), vec![edge(1, 0)]);
    assert_eq!(graph.get_edges_for_index(5), vec![]);
}
