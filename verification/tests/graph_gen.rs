use rust_graph::generic::{Directed, MapTrait, Undirected};
use rust_graph::graph_gen::helper::label_at_index;
use rust_graph::graph_gen::{
    complete_edge_pairs, complete_graph, complete_graph_unlabeled, empty_graph,
    empty_graph_unlabeled, random_edge_label, random_node_label,
};
use rust_graph::graph_impl::{DiGraphMap, UnGraphMap};
use rust_graph::map::SetMap;

#[test]
fn complete_edge_pairs_undirected() {
    assert_eq!(
        complete_edge_pairs::<Undirected>(4),
        vec![(0, 1), (0, 2), (0, 3), (1, 2), (1, 3), (2, 3)]
    );
    assert_eq!(complete_edge_pairs::<Undirected>(1), vec![]);
    assert_eq!(complete_edge_pairs::<Undirected>(0), vec![]);
}

#[test]
fn complete_edge_pairs_directed() {
    assert_eq!(
        complete_edge_pairs::<Directed>(3),
        vec![(0, 1), (1, 0), (0, 2), (2, 0), (1, 2), (2, 1)]
    );
}

#[test]
fn empty_graph_has_nodes_and_no_edges() {
    let g: UnGraphMap = empty_graph(3, vec![String::from("a")], vec![String::from("e")]);
    assert_eq!(g.node_count(), 3);
    assert_eq!(g.edge_count(), 0);
    for id in 0..3 {
        assert_eq!(g.get_node(id).unwrap().get_label_id(), Some(0));
    }
    assert_eq!(g.max_seen_id(), Some(2));
    assert_eq!(g.get_edge_label_map().len(), 1);
    let u: DiGraphMap = empty_graph_unlabeled(2);
    assert_eq!(u.node_count(), 2);
    assert_eq!(u.get_node(1).unwrap().get_label_id(), None);
    let none: DiGraphMap = empty_graph_unlabeled(0);
    assert_eq!(none.max_seen_id(), None);
}

#[test]
fn complete_graph_has_every_edge() {
    let g: UnGraphMap = complete_graph(4, vec![], vec![String::from("x"), String::from("y")]);
    assert_eq!(g.node_count(), 4);
    assert_eq!(g.edge_count(), 6);
    for a in 0..4 {
        for b in 0..4 {
            assert_eq!(g.has_edge(a, b), a != b);
            if a != b {
                assert!(g.get_edge(a, b).unwrap().get_label().unwrap() < 2);
            }
        }
    }
    let d: DiGraphMap = complete_graph_unlabeled(3);
    assert_eq!(d.edge_count(), 6);
    assert_eq!(d.get_edge(2, 1).unwrap().get_label(), None);
}

#[test]
fn random_labels_come_from_the_graph() {
    let mut rng = rand::thread_rng();
    let mut g = UnGraphMap::new();
    assert_eq!(random_node_label(&mut rng, &g), None);
    assert_eq!(random_edge_label(&mut rng, &g), None);
    g.add_node(0, Some(String::from("a")));
    g.add_node(1, Some(String::from("b")));
    g.add_edge(0, 1, Some(String::from("e")));
    for _ in 0..20 {
        let l = random_node_label(&mut rng, &g).unwrap();
        assert!(l == "a" || l == "b");
        assert_eq!(random_edge_label(&mut rng, &g), Some(String::from("e")));
    }
}

#[test]
fn label_at_index_picks_by_position() {
    let labels = SetMap::from_vec(vec![String::from("a"), String::from("b")]);
    assert_eq!(label_at_index(&labels, 1), Some(String::from("b")));
    assert_eq!(label_at_index(&labels, 2), None);
}
