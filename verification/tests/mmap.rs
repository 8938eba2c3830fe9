use rust_graph::converter::{DiStaticGraphConverter, UnStaticGraphConverter};
use rust_graph::generic::{GraphError, MapTrait};
use rust_graph::graph_impl::convert::to_static;
use rust_graph::graph_impl::static_graph::edge_vec::END;
use rust_graph::graph_impl::static_graph::{
    DiStaticGraph, EdgeVec, EdgeVecBlobs, StaticGraphBlobs, StaticGraphMmapAux, UnStaticGraph,
};
use rust_graph::graph_impl::{DiGraphMap, Edge, UnGraphMap};
use rust_graph::io::mmap::{dump, load};
use rust_graph::map::SetMap;

#[test]
fn dump_is_eight_bytes_per_entry_lowest_first() {
    assert_eq!(
        dump(&vec![1, 258]),
        vec![1, 0, 0, 0, 0, 0, 0, 0, 2, 1, 0, 0, 0, 0, 0, 0]
    );
    assert_eq!(dump(&vec![]), Vec::<u8>::new());
}

#[test]
fn load_gives_back_what_was_dumped() {
    let v = vec![0, 7, usize::MAX, 1 << 40];
    assert_eq!(load(&dump(&v)), Ok(v));
    assert_eq!(load(&[]), Ok(vec![]));
}

#[test]
fn load_rejects_cut_blobs() {
    assert_eq!(
        load(&[1, 0, 0, 0, 0, 0, 0]),
        Err(GraphError::DeserializationError)
    );
    assert_eq!(
        load(&[1, 0, 0, 0, 0, 0, 0, 0, 9]),
        Err(GraphError::DeserializationError)
    );
}

#[test]
fn edge_vec_round_trip() {
    let ev = EdgeVec::with_labels(vec![0, 2, 3, 3], vec![1, 2, 0], vec![5, END, 7]).unwrap();
    let blobs = ev.dump_mmap();
    assert_eq!(blobs.offsets.len(), 32);
    assert_eq!(blobs.edges.len(), 24);
    assert_eq!(blobs.labels.as_ref().map(|l| l.len()), Some(24));
    assert_eq!(EdgeVec::load_mmap(&blobs), Ok(ev));
    let plain = EdgeVec::new(vec![0, 1], vec![0]).unwrap();
    assert_eq!(EdgeVec::load_mmap(&plain.dump_mmap()), Ok(plain));
}

#[test]
fn edge_vec_load_reports_what_is_wrong() {
    let cut = EdgeVecBlobs {
        offsets: vec![0; 8],
        edges: vec![0; 3],
        labels: None,
    };
    assert_eq!(
        EdgeVec::load_mmap(&cut),
        Err(GraphError::DeserializationError)
    );
    let misfit = EdgeVecBlobs {
        offsets: dump(&vec![0, 2]),
        edges: dump(&vec![0]),
        labels: None,
    };
    assert_eq!(
        EdgeVec::load_mmap(&misfit),
        Err(GraphError::ConstructionError)
    );
}

#[test]
fn mmap_round_trip_of_a_converted_graph() {
    let mut g = DiGraphMap::new();
    g.add_node(0, Some(String::from("n0")));
    g.add_node(1, Some(String::from("n1")));
    g.add_edge(0, 1, Some(String::from("a")));
    g.add_edge(1, 2, Some(String::from("b")));
    g.add_edge(2, 0, None);
    g.add_edge(0, 2, Some(String::from("a")));
    let c = DiStaticGraphConverter::new(&g);
    let s = c.get_graph();
    let loaded = DiStaticGraph::load_mmap(s.dump_mmap()).unwrap();
    assert_eq!(loaded.node_count(), s.node_count());
    assert_eq!(loaded.edge_count(), s.edge_count());
    assert_eq!(loaded.get_labels(), s.get_labels());
    assert_eq!(loaded.get_edge_vec(), s.get_edge_vec());
    assert_eq!(loaded.get_in_edge_vec(), s.get_in_edge_vec());
    for u in 0..s.node_count() {
        assert_eq!(loaded.neighbors(u), s.neighbors(u));
        assert_eq!(loaded.in_neighbors(u), s.in_neighbors(u));
        assert_eq!(loaded.get_node(u), s.get_node(u));
        for v in 0..s.node_count() {
            assert_eq!(loaded.get_edge(u, v), s.get_edge(u, v));
        }
    }
    assert_eq!(
        loaded.get_node_label_map().clone().items_vec(),
        s.get_node_label_map().clone().items_vec()
    );
    assert_eq!(
        loaded.get_edge_label_map().clone().items_vec(),
        s.get_edge_label_map().clone().items_vec()
    );
}

#[test]
fn load_mmap_rejects_parts_that_do_not_fit() {
    let ev = EdgeVec::new(vec![0, 1, 2], vec![1, 0]).unwrap();
    let blobs = StaticGraphBlobs {
        edges: ev.dump_mmap(),
        in_edges: None,
        labels: None,
        aux: StaticGraphMmapAux::new(3, 1, SetMap::new(), SetMap::new()),
    };
    assert_eq!(
        UnStaticGraph::load_mmap(blobs).err(),
        Some(GraphError::ConstructionError)
    );
    let blobs = StaticGraphBlobs {
        edges: ev.dump_mmap(),
        in_edges: None,
        labels: Some(vec![0; 5]),
        aux: StaticGraphMmapAux::new(2, 1, SetMap::new(), SetMap::new()),
    };
    assert_eq!(
        UnStaticGraph::load_mmap(blobs).err(),
        Some(GraphError::DeserializationError)
    );
}

#[test]
fn aux_holds_counts_and_labels() {
    let labels = SetMap::from_vec(vec![String::from("a")]);
    let aux = StaticGraphMmapAux::new(4, 2, labels, SetMap::new());
    assert_eq!(aux.get_num_nodes(), 4);
    assert_eq!(aux.get_num_edges(), 2);
    assert_eq!(aux.get_node_label_map().len(), 1);
    assert!(aux.get_edge_label_map().is_empty());
}

#[test]
fn plain_conversion_gives_the_converters_graph() {
    let mut g = UnGraphMap::new();
    g.add_edge(0, 1, Some(String::from("a")));
    g.add_edge(1, 2, None);
    let c = UnStaticGraphConverter::new(&g);
    let s = to_static(&g);
    assert_eq!(s.get_edge_vec(), c.get_graph().get_edge_vec());
    assert_eq!(s.node_count(), 3);
    assert_eq!(s.edge_count(), 2);
    let t = UnStaticGraph::from(g);
    assert_eq!(t.get_edge_vec(), s.get_edge_vec());
    let mut d = DiGraphMap::new();
    d.add_edge(0, 1, None);
    let sd = DiStaticGraph::from(d);
    assert_eq!(sd.edge_count(), 1);
}

#[test]
fn static_edges_are_listed_once() {
    let mut g = UnGraphMap::new();
    g.add_edge(0, 1, Some(String::from("a")));
    g.add_edge(1, 2, None);
    g.add_edge(2, 2, None);
    let s = to_static(&g);
    // degrees: 0 -> 1, 1 -> 2, 2 -> 2: the ids stay
    assert_eq!(s.edge_indices(), vec![(0, 1), (1, 2), (2, 2)]);
    assert_eq!(
        s.edges(),
        vec![
            Edge::new(0, 1, Some(0)),
            Edge::new(1, 2, None),
            Edge::new(2, 2, None)
        ]
    );
    let mut d = DiGraphMap::new();
    d.add_edge(1, 0, None);
    d.add_edge(0, 1, None);
    let sd = to_static(&d);
    assert_eq!(sd.edge_indices(), vec![(0, 1), (1, 0)]);
    assert_eq!(sd.nodes().len(), 2);
}
