use rust_graph::generic::{GraphError, MapTrait};
use rust_graph::graph_impl::{DiGraphMap, Edge, UnGraphMap};

fn label(s: &str) -> Option<String> {
    Some(String::from(s))
}

#[test]
fn add_node_inserts_then_updates() {
    let mut g = UnGraphMap::new();
    assert!(g.add_node(3, label("a")));
    assert!(g.has_node(3));
    assert_eq!(g.get_node(3).unwrap().get_label_id(), Some(0));
    assert!(!g.add_node(3, label("b")));
    assert_eq!(g.get_node(3).unwrap().get_label_id(), Some(1));
    assert_eq!(g.node_count(), 1);
    assert!(!g.add_node(3, None));
    assert_eq!(g.get_node(3).unwrap().get_label_id(), None);
    assert_eq!(g.get_node_label_map().len(), 2);
}

#[test]
fn add_edge_creates_missing_endpoints() {
    let mut g = DiGraphMap::new();
    assert!(g.add_edge(5, 2, label("x")));
    assert!(g.has_node(5));
    assert!(g.has_node(2));
    assert_eq!(g.get_node(5).unwrap().get_label_id(), None);
    assert_eq!(g.node_count(), 2);
    assert_eq!(g.edge_count(), 1);
    assert!(g.has_edge(5, 2));
    assert!(!g.has_edge(2, 5));
    assert_eq!(g.max_seen_id(), Some(5));
}

#[test]
fn add_edge_twice_updates_label() {
    let mut g = DiGraphMap::new();
    assert!(g.add_edge(0, 1, label("x")));
    assert!(!g.add_edge(0, 1, label("y")));
    assert_eq!(g.edge_count(), 1);
    assert_eq!(g.get_edge(0, 1), Some(&Edge::new(0, 1, Some(1))));
    assert!(!g.add_edge(0, 1, None));
    assert_eq!(g.get_edge(0, 1), Some(&Edge::new(0, 1, None)));
}

#[test]
fn undirected_edge_has_one_slot() {
    let mut g = UnGraphMap::new();
    assert!(g.add_edge(4, 1, label("x")));
    assert!(!g.add_edge(1, 4, label("y")));
    assert_eq!(g.edge_count(), 1);
    assert!(g.has_edge(1, 4));
    assert!(g.has_edge(4, 1));
    assert_eq!(g.get_edge(4, 1), Some(&Edge::new(1, 4, Some(1))));
    assert_eq!(g.edge_indices(), vec![(1, 4)]);
    assert_eq!(g.neighbors(1), Ok(&vec![4]));
    assert_eq!(g.neighbors(4), Ok(&vec![1]));
}

#[test]
fn self_loop_is_one_adjacency_entry() {
    let mut g = UnGraphMap::new();
    assert!(g.add_edge(2, 2, None));
    assert_eq!(g.degree(2), Ok(1));
    assert_eq!(g.neighbors(2), Ok(&vec![2]));
    assert_eq!(g.edge_count(), 1);
    let mut d = DiGraphMap::new();
    assert!(d.add_edge(2, 2, None));
    assert_eq!(d.degree(2), Ok(1));
    assert_eq!(d.in_degree(2), Ok(1));
    let removed = d.remove_node(2).unwrap();
    assert_eq!(removed.get_id(), 2);
    assert_eq!(d.node_count(), 0);
    assert_eq!(d.edge_count(), 0);
}

#[test]
fn remove_edge_cleans_both_sides() {
    let mut g = DiGraphMap::new();
    g.add_edge(0, 1, None);
    g.add_edge(1, 0, None);
    assert_eq!(g.remove_edge(0, 1), Some(Edge::new(0, 1, None)));
    assert_eq!(g.remove_edge(0, 1), None);
    assert!(!g.has_edge(0, 1));
    assert!(g.has_edge(1, 0));
    assert_eq!(g.neighbors(0), Ok(&vec![]));
    assert_eq!(g.in_neighbors(1), Ok(&vec![]));
    assert_eq!(g.in_neighbors(0), Ok(&vec![1]));
    assert!(g.has_node(0) && g.has_node(1));
}

#[test]
fn remove_node_leaves_no_reference() {
    let mut g = DiGraphMap::new();
    g.add_edge(0, 1, None);
    g.add_edge(1, 2, None);
    g.add_edge(2, 1, None);
    g.add_edge(3, 1, None);
    let removed = g.remove_node(1).unwrap();
    assert_eq!(removed.get_id(), 1);
    assert_eq!(removed.neighbors(), &vec![2]);
    assert_eq!(removed.in_neighbors(), &vec![0, 2, 3]);
    assert!(!g.has_node(1));
    assert_eq!(g.edge_count(), 0);
    for id in [0usize, 2, 3] {
        assert_eq!(g.neighbors(id), Ok(&vec![]));
        assert_eq!(g.in_neighbors(id), Ok(&vec![]));
    }
    assert_eq!(g.remove_node(1), None);
    assert_eq!(g.max_seen_id(), Some(3));
}

#[test]
fn remove_node_undirected() {
    let mut g = UnGraphMap::new();
    g.add_edge(0, 1, None);
    g.add_edge(1, 2, None);
    g.add_edge(0, 2, None);
    assert!(g.remove_node(2).is_some());
    assert_eq!(g.neighbors(0), Ok(&vec![1]));
    assert_eq!(g.neighbors(1), Ok(&vec![0]));
    assert_eq!(g.edge_count(), 1);
}

#[test]
fn max_seen_id_is_never_lowered() {
    let mut g = UnGraphMap::new();
    assert_eq!(g.max_seen_id(), None);
    g.add_node(7, None);
    g.add_node(3, None);
    assert_eq!(g.max_seen_id(), Some(7));
    g.remove_node(7);
    assert_eq!(g.max_seen_id(), Some(7));
    g.add_node(9, None);
    assert_eq!(g.max_seen_id(), Some(9));
}

#[test]
fn degree_of_missing_node_is_an_error() {
    let mut g = DiGraphMap::new();
    g.add_node(0, None);
    assert_eq!(g.degree(0), Ok(0));
    assert_eq!(g.degree(1), Err(GraphError::NodeNotFound));
    assert_eq!(g.neighbors(1), Err(GraphError::NodeNotFound));
    assert_eq!(g.in_degree(1), Err(GraphError::NodeNotFound));
    assert_eq!(g.in_neighbors(1), Err(GraphError::NodeNotFound));
    assert_eq!(g.num_of_neighbors(1), Err(GraphError::NodeNotFound));
}

#[test]
fn lookups_of_absent_items_are_empty() {
    let mut g = UnGraphMap::new();
    assert!(!g.has_node(0));
    assert!(!g.has_edge(0, 1));
    assert!(g.get_node(0).is_none());
    assert!(g.get_edge(0, 1).is_none());
    assert!(!g.update_node_label(0, label("a")));
    assert!(!g.update_edge_label(0, 1, label("a")));
    assert!(g.get_node_label_map().is_empty());
    assert!(g.get_edge_label_map().is_empty());
}

#[test]
fn update_labels() {
    let mut g = UnGraphMap::new();
    g.add_edge(0, 1, None);
    assert!(g.update_node_label(0, label("n")));
    assert!(g.update_edge_label(1, 0, label("e")));
    assert_eq!(g.get_node(0).unwrap().get_label_id(), Some(0));
    assert_eq!(g.get_edge(0, 1).unwrap().get_label(), Some(0));
    assert_eq!(g.get_node_label_id_counter(), vec![1]);
    assert_eq!(g.get_edge_label_id_counter(), vec![1]);
}

#[test]
fn from_edges_builds_nodes_and_edges() {
    let g = UnGraphMap::from_edges(vec![(0, 1), (1, 2), (2, 0), (1, 0)]);
    assert_eq!(g.node_count(), 3);
    assert_eq!(g.edge_count(), 3);
    let mut ids = g.node_indices();
    ids.sort();
    assert_eq!(ids, vec![0, 1, 2]);
    let mut keys = g.edge_indices();
    keys.sort();
    assert_eq!(keys, vec![(0, 1), (0, 2), (1, 2)]);
}

#[test]
fn with_label_map_reuses_ids() {
    let mut g = UnGraphMap::new();
    g.add_node(0, label("a"));
    g.add_node(1, label("b"));
    g.add_edge(0, 1, None);
    let mut p = UnGraphMap::with_label_map(
        g.get_node_label_map().clone(),
        g.get_edge_label_map().clone(),
    );
    p.add_node(1, label("b"));
    p.add_node(0, label("a"));
    p.add_edge(0, 1, None);
    assert_eq!(
        g.get_node(0).unwrap().get_label_id(),
        p.get_node(0).unwrap().get_label_id()
    );
    assert_eq!(
        g.get_node(1).unwrap().get_label_id(),
        p.get_node(1).unwrap().get_label_id()
    );
}

#[test]
fn shrink_to_fit_keeps_the_content() {
    let mut g = UnGraphMap::with_capacity(16, 16, 4, 4);
    g.add_edge(0, 1, label("x"));
    g.shrink_to_fit();
    assert!(g.has_edge(1, 0));
    assert_eq!(g.node_count(), 2);
    assert_eq!(g.get_edge(0, 1), Some(&Edge::new(0, 1, Some(0))));
}

#[test]
fn clear_empties_the_graph() {
    let mut g = DiGraphMap::new();
    g.add_edge(0, 5, label("x"));
    g.clear();
    assert_eq!(g.node_count(), 0);
    assert_eq!(g.edge_count(), 0);
    assert!(g.get_edge_label_map().is_empty());
    assert_eq!(g.max_seen_id(), Some(5));
    g.note_seen_id(9);
    assert_eq!(g.max_seen_id(), Some(9));
    g.note_seen_id(2);
    assert_eq!(g.max_seen_id(), Some(9));
}

#[test]
fn records_of_all_nodes_and_edges() {
    let mut g = DiGraphMap::new();
    g.add_edge(0, 1, label("x"));
    g.add_edge(1, 2, None);
    let mut ids: Vec<usize> = g.nodes().into_iter().map(|n| n.get_id()).collect();
    ids.sort();
    assert_eq!(ids, vec![0, 1, 2]);
    let mut edges: Vec<Edge> = g.edges().into_iter().map(|e| *e).collect();
    edges.sort_by_key(|e| e.get_start());
    assert_eq!(edges, vec![Edge::new(0, 1, Some(0)), Edge::new(1, 2, None)]);
}

#[test]
fn clones_are_equal() {
    let mut g = UnGraphMap::new();
    g.add_edge(0, 1, label("x"));
    let h = g.clone();
    assert_eq!(g, h);
    g.add_node(2, None);
    assert_ne!(g, h);
    assert_eq!(UnGraphMap::default(), UnGraphMap::new());
}
