use rust_graph::converter::{DiStaticGraphConverter, UnStaticGraphConverter};
use rust_graph::generic::MapTrait;
use rust_graph::graph_impl::static_graph::edge_vec::END;
use rust_graph::graph_impl::{DiGraphMap, UnGraphMap};

fn label(s: &str) -> Option<String> {
    Some(String::from(s))
}

#[test]
fn nodes_of_equal_degree_keep_their_order() {
    let mut g = UnGraphMap::new();
    g.add_edge(1, 0, None);
    g.add_edge(1, 2, None);
    g.add_edge(1, 3, None);
    g.add_edge(3, 3, None);
    assert_eq!(g.degree(0), Ok(1));
    assert_eq!(g.degree(1), Ok(3));
    assert_eq!(g.degree(2), Ok(1));
    assert_eq!(g.degree(3), Ok(2));
    let c = UnStaticGraphConverter::new(&g);
    assert_eq!(c.get_node_id_map().clone().items_vec(), vec![0, 2, 3, 1]);
    assert_eq!(c.get_original_node_id(0), Some(0));
    assert_eq!(c.get_original_node_id(1), Some(2));
    assert_eq!(c.get_original_node_id(2), Some(3));
    assert_eq!(c.get_original_node_id(3), Some(1));
    assert_eq!(c.get_original_node_id(4), None);
    assert_eq!(c.find_new_node_id(1), Some(3));
    assert_eq!(c.find_new_node_id(9), None);
}

#[test]
fn end_to_end_undirected() {
    let mut g = UnGraphMap::new();
    for id in 0..5 {
        g.add_node(id, None);
    }
    g.add_edge(0, 1, label("a"));
    g.add_edge(1, 2, label("b"));
    g.add_edge(2, 3, None);
    let c = UnStaticGraphConverter::new(&g);
    let s = c.get_graph();
    assert_eq!(c.get_node_id_map().clone().items_vec(), vec![4, 0, 3, 1, 2]);
    assert_eq!(s.node_count(), 5);
    assert_eq!(s.edge_count(), 3);
    let ev = s.get_edge_vec();
    assert_eq!(ev.get_edges().len(), 6);
    assert_eq!(ev.get_offsets(), &vec![0, 0, 1, 2, 4, 6]);
    assert_eq!(ev.get_edges(), &vec![3, 4, 1, 4, 2, 3]);
    assert_eq!(ev.get_labels(), Some(&vec![0, END, 0, 1, END, 1]));
    assert!(s.get_in_edge_vec().is_none());
    assert_eq!(s.get_labels(), &None);
    assert_eq!(
        c.get_edge_label_map().clone().items_vec(),
        vec![String::from("a"), String::from("b")]
    );
    assert_eq!(g.get_edge_label_id_counter(), vec![1, 1]);
    assert_eq!(c.get_edge_label_id_map().clone().items_vec(), vec![0, 1]);
    assert_eq!(c.get_edge_label(0), Some(&String::from("a")));
    assert_eq!(c.get_edge_label(2), None);
    assert_eq!(c.find_edge_label_index(&String::from("b")), Some(1));
    assert_eq!(c.find_node_label_index(&String::from("b")), None);
    assert!(c.get_node_label_map().is_empty());
    assert_eq!(s.get_edge_label_map().clone().items_vec().len(), 2);
}

#[test]
fn conversion_preserves_adjacency() {
    let mut g = DiGraphMap::new();
    g.add_edge(10, 20, None);
    g.add_edge(20, 30, None);
    g.add_edge(30, 10, None);
    g.add_edge(10, 30, None);
    g.add_node(40, None);
    let c = DiStaticGraphConverter::new(&g);
    let s = c.get_graph();
    assert_eq!(s.node_count(), 4);
    assert_eq!(s.edge_count(), 4);
    for u in 0..4 {
        for v in 0..4 {
            let a = c.get_original_node_id(u).unwrap();
            let b = c.get_original_node_id(v).unwrap();
            assert_eq!(s.has_edge(u, v), g.has_edge(a, b));
        }
    }
    let out = s.get_edge_vec();
    let inn = s.get_in_edge_vec().as_ref().unwrap();
    assert_eq!(out.num_edges(), inn.num_edges());
    assert_eq!(inn.get_labels(), None);
    for u in 0..4 {
        for v in 0..4 {
            assert_eq!(out.has_edge(u, v), inn.has_edge(v, u));
        }
    }
}

#[test]
fn labels_are_renumbered_by_frequency() {
    let mut g = DiGraphMap::new();
    g.add_node(0, label("common"));
    g.add_node(1, label("rare"));
    g.add_node(2, label("common"));
    g.add_node(3, label("unused"));
    g.add_node(3, None);
    g.add_edge(0, 1, label("x"));
    g.add_edge(1, 2, label("y"));
    g.add_edge(2, 0, label("y"));
    let c = DiStaticGraphConverter::new(&g);
    assert_eq!(g.get_node_label_id_counter(), vec![2, 1, 0]);
    assert_eq!(c.get_node_label_id_map().clone().items_vec(), vec![1, 0]);
    assert_eq!(
        c.get_node_label_map().clone().items_vec(),
        vec![String::from("rare"), String::from("common")]
    );
    assert_eq!(c.get_node_label(0), Some(&String::from("rare")));
    assert_eq!(c.find_node_label_index(&String::from("common")), Some(1));
    assert_eq!(c.find_node_label_index(&String::from("unused")), None);
    assert_eq!(
        c.get_edge_label_map().clone().items_vec(),
        vec![String::from("x"), String::from("y")]
    );
    let s = c.get_graph();
    // degrees: 0 -> 1, 1 -> 1, 2 -> 1, 3 -> 0
    assert_eq!(c.get_node_id_map().clone().items_vec(), vec![3, 0, 1, 2]);
    assert_eq!(s.get_labels(), &Some(vec![END, 1, 0, 1]));
    let ev = s.get_edge_vec();
    assert_eq!(ev.get_offsets(), &vec![0, 0, 1, 2, 3]);
    assert_eq!(ev.get_edges(), &vec![2, 3, 1]);
    assert_eq!(ev.get_labels(), Some(&vec![0, 1, 1]));
}

#[test]
fn graph_without_labels_has_no_label_arrays() {
    let mut g = UnGraphMap::new();
    g.add_edge(0, 1, None);
    let c = UnStaticGraphConverter::new(&g);
    let s = c.get_graph();
    assert_eq!(s.get_labels(), &None);
    assert_eq!(s.get_edge_vec().get_labels(), None);
    assert!(c.get_node_label_id_map().is_empty());
    assert!(c.get_edge_label_id_map().is_empty());
    assert_eq!(s.edge_count(), 1);
    assert_eq!(s.get_edge_vec().get_edges(), &vec![1, 0]);
}

#[test]
fn empty_graph_converts_to_empty_graph() {
    let g = DiGraphMap::new();
    let c = DiStaticGraphConverter::new(&g);
    assert_eq!(c.get_graph().node_count(), 0);
    assert_eq!(c.get_graph().edge_count(), 0);
    assert_eq!(c.get_graph().get_edge_vec().get_offsets(), &vec![0]);
}
