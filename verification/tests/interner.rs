use indexmap::IndexSet;
use rust_graph::generic::{GraphTrait, MapTrait, MutMapTrait};
use rust_graph::graph_impl::{DiGraphMap, UnStaticGraph};
use rust_graph::graph_impl::static_graph::EdgeVec;
use rust_graph::graph_impl::graph_map::label;
use rust_graph::map::SetMap;

#[test]
fn add_item_assigns_positions_in_first_seen_order() {
    let mut m = SetMap::new();
    assert_eq!(m.add_item(String::from("a")), 0);
    assert_eq!(m.add_item(String::from("b")), 1);
    assert_eq!(m.add_item(String::from("a")), 0);
    assert_eq!(m.add_item(String::from("c")), 2);
    assert_eq!(m.len(), 3);
    assert_eq!(m.get_item(1), Some(&String::from("b")));
    assert_eq!(m.get_item(3), None);
    assert_eq!(m.find_index(&String::from("c")), Some(2));
    assert_eq!(m.find_index(&String::from("d")), None);
    assert!(m.contains(&String::from("a")));
    assert!(!m.contains(&String::from("z")));
    assert_eq!(
        m.items_vec(),
        vec![String::from("a"), String::from("b"), String::from("c")]
    );
}

#[test]
fn id_interner_keeps_first_position() {
    let mut m = label::SetMap::new();
    assert!(m.is_empty());
    assert_eq!(m.add_item(7), 0);
    assert_eq!(m.add_item(3), 1);
    assert_eq!(m.add_item(7), 0);
    assert_eq!(m.len(), 2);
    assert_eq!(m.get_item(0), Some(&7));
    assert_eq!(m.find_index(&3), Some(1));
    assert_eq!(m.find_index(&4), None);
    assert_eq!(m.items_vec(), vec![7, 3]);
}

#[test]
fn interner_from_given_data() {
    let mut data = IndexSet::new();
    data.insert(String::from("x"));
    data.insert(String::from("y"));
    let m = SetMap::with_data(data);
    assert_eq!(m.len(), 2);
    assert_eq!(m.find_index(&String::from("y")), Some(1));
    let v = SetMap::from_vec(vec![
        String::from("b"),
        String::from("a"),
        String::from("b"),
    ]);
    assert_eq!(v.items(), vec![&String::from("b"), &String::from("a")]);
    let w = SetMap::with_capacity(8);
    assert!(w.is_empty());
    assert_eq!(SetMap::default(), SetMap::new());
}

#[test]
fn id_interner_from_vec_and_items() {
    let m = label::SetMap::from_vec(vec![5, 3, 5, 9]);
    assert_eq!(m.items(), vec![&5, &3, &9]);
    assert!(m.contains(&3));
    assert!(!m.contains(&4));
    assert_eq!(m.clone(), m);
}

fn sizes<G: GraphTrait>(g: &G) -> (usize, usize, bool) {
    (g.node_count(), g.edge_count(), g.is_directed())
}

#[test]
fn both_kinds_of_graph_answer_the_same_questions() {
    let mut g = DiGraphMap::new();
    g.add_edge(0, 1, None);
    assert_eq!(sizes(&g), (2, 1, true));
    assert!(GraphTrait::has_edge(&g, 0, 1));
    assert_eq!(GraphTrait::degree(&g, 0), Ok(1));
    assert!(GraphTrait::degree(&g, 7).is_err());
    assert_eq!(GraphTrait::max_possible_id(&g), usize::MAX);
    let s = UnStaticGraph::new(2, EdgeVec::new(vec![0, 1, 2], vec![1, 0]).unwrap(), None).unwrap();
    assert_eq!(sizes(&s), (2, 1, false));
    assert!(GraphTrait::has_node(&s, 1));
    assert!(!GraphTrait::has_node(&s, 2));
    assert!(GraphTrait::has_edge(&s, 1, 0));
}
