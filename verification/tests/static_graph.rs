use rust_graph::generic::{GraphError, MutMapTrait};
use rust_graph::graph_impl::static_graph::edge_vec::END;
use rust_graph::graph_impl::static_graph::{
    DiStaticGraph, EdgeVec, StaticNode, UnStaticGraph,
};
use rust_graph::graph_impl::Edge;
use rust_graph::map::SetMap;

#[test]
fn edge_vec_rejects_malformed_offsets() {
    assert!(EdgeVec::new(vec![0, 1, 2], vec![1, 0]).is_ok());
    assert_eq!(
        EdgeVec::new(vec![], vec![]),
        Err(GraphError::ConstructionError)
    );
    assert_eq!(
        EdgeVec::new(vec![1, 2], vec![0, 0]),
        Err(GraphError::ConstructionError)
    );
    assert_eq!(
        EdgeVec::new(vec![0, 2, 1, 2], vec![0, 0]),
        Err(GraphError::ConstructionError)
    );
    assert_eq!(
        EdgeVec::new(vec![0, 1, 3], vec![1, 0]),
        Err(GraphError::ConstructionError)
    );
    assert_eq!(
        EdgeVec::with_labels(vec![0, 1, 2], vec![1, 0], vec![0]),
        Err(GraphError::ConstructionError)
    );
}

#[test]
fn edge_vec_queries() {
    let ev = EdgeVec::with_labels(vec![0, 2, 3, 3], vec![1, 2, 0], vec![5, END, 7]).unwrap();
    assert_eq!(ev.num_nodes(), 3);
    assert_eq!(ev.num_edges(), 3);
    assert_eq!(ev.neighbors(0), Ok(&[1usize, 2][..]));
    assert_eq!(ev.neighbors(2), Ok(&[][..]));
    assert_eq!(ev.neighbors(3), Err(GraphError::NodeNotFound));
    assert_eq!(ev.degree(0), Ok(2));
    assert_eq!(ev.degree(3), Err(GraphError::NodeNotFound));
    assert!(ev.has_edge(0, 2));
    assert!(!ev.has_edge(2, 0));
    assert!(!ev.has_edge(9, 0));
    assert_eq!(ev.find_edge_index(1, 0), Some(2));
    assert_eq!(ev.find_edge_index(1, 1), None);
    assert_eq!(ev.find_edge_label_id(0, 1), Some(5));
    assert_eq!(ev.find_edge_label_id(0, 2), None);
    assert_eq!(ev.find_edge_label_id(1, 0), Some(7));
}

#[test]
fn directed_graph_needs_matching_counts() {
    let out = EdgeVec::new(vec![0, 1, 2], vec![1, 0]).unwrap();
    let inn = EdgeVec::new(vec![0, 1, 2], vec![1, 0]).unwrap();
    let g = DiStaticGraph::new(2, out.clone(), Some(inn)).unwrap();
    assert_eq!(g.edge_count(), 2);
    assert_eq!(g.node_count(), 2);
    assert_eq!(g.in_neighbors(0), Ok(&[1usize][..]));
    assert_eq!(g.in_degree(1), Ok(1));
    let short = EdgeVec::new(vec![0, 1, 1], vec![1]).unwrap();
    assert_eq!(
        DiStaticGraph::new(2, out.clone(), Some(short)).err(),
        Some(GraphError::ConstructionError)
    );
    assert_eq!(
        DiStaticGraph::new(2, out.clone(), None).err(),
        Some(GraphError::ConstructionError)
    );
    assert_eq!(
        DiStaticGraph::new(3, out, None).err(),
        Some(GraphError::ConstructionError)
    );
}

#[test]
fn label_array_must_cover_the_nodes() {
    let ev = EdgeVec::new(vec![0, 1, 2], vec![1, 0]).unwrap();
    let mut labels = SetMap::new();
    labels.add_item(String::from("a"));
    let g = UnStaticGraph::with_labels(
        2,
        ev.clone(),
        None,
        vec![0, END],
        labels.clone(),
        SetMap::new(),
    )
    .unwrap();
    assert_eq!(g.edge_count(), 1);
    assert_eq!(g.get_node(0), Some(StaticNode::new(0, Some(0))));
    assert_eq!(g.get_node(1), Some(StaticNode::new(1, None)));
    assert_eq!(g.get_node(2), None);
    assert_eq!(
        UnStaticGraph::with_labels(2, ev.clone(), None, vec![0], labels.clone(), SetMap::new())
            .err(),
        Some(GraphError::ConstructionError)
    );
    assert_eq!(
        UnStaticGraph::from_raw(2, 1, ev, None, Some(vec![0, 0, 0]), labels, SetMap::new()).err(),
        Some(GraphError::ConstructionError)
    );
}

#[test]
fn from_raw_checks_the_directed_count() {
    let out = EdgeVec::new(vec![0, 1, 2], vec![1, 0]).unwrap();
    let inn = EdgeVec::new(vec![0, 1, 2], vec![1, 0]).unwrap();
    assert_eq!(
        DiStaticGraph::from_raw(
            2,
            3,
            out.clone(),
            Some(inn.clone()),
            None,
            SetMap::new(),
            SetMap::new()
        )
        .err(),
        Some(GraphError::ConstructionError)
    );
    let g = DiStaticGraph::from_raw(2, 2, out.clone(), Some(inn), None, SetMap::new(), SetMap::new())
        .unwrap();
    assert!(g.has_consistent_edge_count());
    let u = UnStaticGraph::from_raw(2, 5, out, None, None, SetMap::new(), SetMap::new()).unwrap();
    assert_eq!(u.edge_count(), 5);
    assert!(!u.has_consistent_edge_count());
}

#[test]
fn undirected_self_loop_is_counted_as_half() {
    let ev = EdgeVec::new(vec![0, 2, 3], vec![0, 1, 0]).unwrap();
    let g = UnStaticGraph::new(2, ev, None).unwrap();
    assert_eq!(g.edge_count(), 1);
}

#[test]
fn static_graph_queries_and_label_removal() {
    let ev = EdgeVec::with_labels(vec![0, 1, 2], vec![1, 0], vec![0, 0]).unwrap();
    let mut node_labels = SetMap::new();
    node_labels.add_item(String::from("n"));
    let mut edge_labels = SetMap::new();
    edge_labels.add_item(String::from("e"));
    let mut g =
        UnStaticGraph::with_labels(2, ev, None, vec![0, 0], node_labels, edge_labels).unwrap();
    assert!(g.has_node(1));
    assert!(!g.has_node(2));
    assert!(g.has_edge(0, 1));
    assert_eq!(g.get_edge(0, 1), Some(Edge::new(0, 1, Some(0))));
    assert_eq!(g.get_edge(0, 0), None);
    assert_eq!(g.node_indices(), vec![0, 1]);
    assert_eq!(g.max_seen_id(), Some(1));
    assert_eq!(g.degree(0), Ok(1));
    assert_eq!(g.degree(2), Err(GraphError::NodeNotFound));
    assert_eq!(g.neighbors(2), Err(GraphError::NodeNotFound));
    assert_eq!(g.find_edge_index(1, 0), Some(1));
    g.remove_labels();
    assert_eq!(g.get_labels(), &None);
    assert_eq!(g.get_edge_vec().get_labels(), None);
    assert_eq!(g.get_edge(0, 1), Some(Edge::new(0, 1, None)));
    assert_eq!(g.get_node(0), Some(StaticNode::new(0, None)));
    assert!(g.has_edge(1, 0));
    assert_eq!(g.edge_count(), 1);
}

#[test]
fn empty_static_graph_has_no_max_id() {
    let g = UnStaticGraph::new(0, EdgeVec::default(), None).unwrap();
    assert_eq!(g.max_seen_id(), None);
    assert_eq!(g.node_count(), 0);
}

#[test]
fn shrinking_a_static_graph_keeps_the_content() {
    let ev = EdgeVec::with_labels(vec![0, 1, 2], vec![1, 0], vec![0, 0]).unwrap();
    let mut g = UnStaticGraph::new(2, ev.clone(), None).unwrap();
    g.shrink_to_fit();
    assert_eq!(g.get_edge_vec(), &ev);
    assert_eq!(g.edge_count(), 1);
}

#[test]
fn label_counters_of_a_static_graph() {
    // 0 - 1 labelled 0, 1 - 2 labelled 1, 2 - 2 without label
    let ev = EdgeVec::with_labels(
        vec![0, 1, 3, 5],
        vec![1, 0, 2, 1, 2],
        vec![0, 0, 1, 1, END],
    )
    .unwrap();
    let mut node_labels = SetMap::new();
    node_labels.add_item(String::from("n"));
    node_labels.add_item(String::from("m"));
    let mut edge_labels = SetMap::new();
    edge_labels.add_item(String::from("e"));
    edge_labels.add_item(String::from("f"));
    edge_labels.add_item(String::from("g"));
    let g = UnStaticGraph::with_labels(3, ev, None, vec![1, END, 1], node_labels, edge_labels)
        .unwrap();
    assert_eq!(g.get_node_label_id_counter(), vec![0, 2]);
    assert_eq!(g.get_edge_label_id_counter(), vec![1, 1, 0]);
    let out = EdgeVec::with_labels(vec![0, 1, 2], vec![1, 0], vec![0, 0]).unwrap();
    let inn = EdgeVec::new(vec![0, 1, 2], vec![1, 0]).unwrap();
    let mut labels = SetMap::new();
    labels.add_item(String::from("e"));
    let d = DiStaticGraph::from_raw(2, 2, out, Some(inn), None, SetMap::new(), labels).unwrap();
    assert_eq!(d.get_edge_label_id_counter(), vec![2]);
    assert_eq!(d.get_node_label_id_counter(), Vec::<usize>::new());
}

#[test]
fn parts_can_be_changed_in_place() {
    let ev = EdgeVec::with_labels(vec![0, 1, 2], vec![1, 0], vec![0, 0]).unwrap();
    let mut g = UnStaticGraph::new(2, ev, None).unwrap();
    g.get_edge_vec_mut().remove_labels();
    assert_eq!(g.get_edge_vec().get_labels(), None);
    *g.get_labels_mut() = Some(vec![0, END]);
    g.get_node_label_map_mut().add_item(String::from("n"));
    g.get_edge_label_map_mut().add_item(String::from("e"));
    assert_eq!(g.get_node(0), Some(StaticNode::new(0, Some(0))));
    assert_eq!(g.get_node_label_id_counter(), vec![1]);
    assert!(g.get_in_edge_vec_mut().is_none());
}
