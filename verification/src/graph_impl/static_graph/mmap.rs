use vstd::prelude::*;

use crate::generic::graph::{GraphError, GraphType};
use crate::graph_impl::static_graph::edge_vec::{EdgeVec, EdgeVecView};
use crate::graph_impl::static_graph::graph::{
    edge_vec_view, labels_view, StaticGraphView, TypedStaticGraph,
};
use crate::io::mmap::{dump, encoded, lemma_encoded_injective, load};
use crate::map::set_map::SetMap;

verus! {

/// The flat blobs of an adjacency structure: one for each of its arrays.
pub struct EdgeVecBlobs {
    pub offsets: Vec<u8>,
    pub edges: Vec<u8>,
    pub labels: Option<Vec<u8>>,
}

/// Whether `blob`, if there is one, is the blob of the array `array`, and
/// there is none if there is no array.
pub open spec fn holds(blob: Option<Vec<u8>>, array: Option<Seq<usize>>) -> bool {
    match (blob, array) {
        (Some(b), Some(a)) => b@ == encoded(a),
        (None, None) => true,
        _ => false,
    }
}

impl EdgeVecBlobs {
    /// Whether these are the blobs of the adjacency structure `ev`.
    pub open spec fn decodes_to(self, ev: EdgeVecView) -> bool {
        &&& self.offsets@ == encoded(ev.offsets)
        &&& self.edges@ == encoded(ev.edges)
        &&& holds(self.labels, ev.labels)
    }

    /// Blobs are the blobs of one adjacency structure at most.
    pub proof fn lemma_decodes_to_one(self, a: EdgeVecView, b: EdgeVecView)
        requires
            self.decodes_to(a),
            self.decodes_to(b),
        ensures
            a == b,
    {
        lemma_encoded_injective(a.offsets, b.offsets);
        lemma_encoded_injective(a.edges, b.edges);
        if a.labels is Some {
            lemma_encoded_injective(a.labels->0, b.labels->0);
        }
    }
}

/// The array whose blob `blob` is, if there is a blob.
fn load_optional(blob: &Option<Vec<u8>>) -> (r: Result<Option<Vec<usize>>, GraphError>)
    ensures
        match r {
            Ok(a) => holds(*blob, labels_view(a)),
            Err(e) => e == GraphError::DeserializationError && forall|a: Option<Seq<usize>>|
                !holds(*blob, a),
        },
{
    match blob {
        Some(b) => match load(b.as_slice()) {
            Ok(a) => Ok(Some(a)),
            Err(e) => Err(e),
        },
        None => Ok(None),
    }
}

/// The blob of `array`, if there is an array.
fn dump_optional(array: Option<&Vec<usize>>) -> (r: Option<Vec<u8>>)
    ensures
        match (r, array) {
            (Some(b), Some(a)) => b@ == encoded(a@),
            (None, None) => true,
            _ => false,
        },
{
    match array {
        Some(a) => Some(dump(a)),
        None => None,
    }
}

impl EdgeVec {
    /// The flat blobs of this adjacency structure.
    pub fn dump_mmap(&self) -> (r: EdgeVecBlobs)
        ensures
            r.decodes_to(self@),
    {
        EdgeVecBlobs {
            offsets: dump(self.get_offsets()),
            edges: dump(self.get_edges()),
            labels: dump_optional(self.get_labels()),
        }
    }

    /// The adjacency structure whose flat blobs `blobs` are. Fails with
    /// `DeserializationError` exactly if they are the blobs of no arrays,
    /// and with `ConstructionError` exactly if the arrays break the shape
    /// rules.
    pub fn load_mmap(blobs: &EdgeVecBlobs) -> (r: Result<EdgeVec, GraphError>)
        ensures
            match r {
                Ok(ev) => ev.wf() && blobs.decodes_to(ev@),
                Err(e) => if e == GraphError::DeserializationError {
                    forall|ev: EdgeVecView| !blobs.decodes_to(ev)
                } else {
                    e == GraphError::ConstructionError && exists|ev: EdgeVecView|
                        blobs.decodes_to(ev) && !ev.valid()
                },
            },
    {
        let offsets = match load(blobs.offsets.as_slice()) {
            Ok(a) => a,
            Err(e) => {
                return Err(e);
            },
        };
        let edges = match load(blobs.edges.as_slice()) {
            Ok(a) => a,
            Err(e) => {
                return Err(e);
            },
        };
        let labels = match load_optional(&blobs.labels) {
            Ok(a) => a,
            Err(e) => {
                return Err(e);
            },
        };
        let ghost view = EdgeVecView {
            offsets: offsets@,
            edges: edges@,
            labels: labels_view(labels),
        };
        assert(blobs.decodes_to(view));
        match labels {
            Some(l) => EdgeVec::with_labels(offsets, edges, l),
            None => EdgeVec::new(offsets, edges),
        }
    }
}

/// What goes with the flat blobs of a compact graph and says what they do
/// not: the numbers of nodes and edges, and the labels.
pub struct StaticGraphMmapAux {
    num_nodes: usize,
    num_edges: usize,
    node_label_map: SetMap,
    edge_label_map: SetMap,
}

impl StaticGraphMmapAux {
    pub closed spec fn spec_num_nodes(&self) -> usize {
        self.num_nodes
    }

    pub closed spec fn spec_num_edges(&self) -> usize {
        self.num_edges
    }

    pub closed spec fn node_labels(&self) -> Seq<Seq<char>> {
        self.node_label_map@
    }

    pub closed spec fn edge_labels(&self) -> Seq<Seq<char>> {
        self.edge_label_map@
    }

    pub fn new(num_nodes: usize, num_edges: usize, node_label_map: SetMap, edge_label_map: SetMap) -> (r:
        Self)
        ensures
            r.spec_num_nodes() == num_nodes,
            r.spec_num_edges() == num_edges,
            r.node_labels() == node_label_map@,
            r.edge_labels() == edge_label_map@,
    {
        StaticGraphMmapAux { num_nodes, num_edges, node_label_map, edge_label_map }
    }

    pub fn get_num_nodes(&self) -> (r: usize)
        ensures
            r == self.spec_num_nodes(),
    {
        self.num_nodes
    }

    pub fn get_num_edges(&self) -> (r: usize)
        ensures
            r == self.spec_num_edges(),
    {
        self.num_edges
    }

    pub fn get_node_label_map(&self) -> (r: &SetMap)
        ensures
            r@ == self.node_labels(),
    {
        &self.node_label_map
    }

    pub fn get_edge_label_map(&self) -> (r: &SetMap)
        ensures
            r@ == self.edge_labels(),
    {
        &self.edge_label_map
    }
}

/// All that is stored of a compact graph: the flat blobs of its arrays and
/// what goes with them.
pub struct StaticGraphBlobs {
    pub edges: EdgeVecBlobs,
    pub in_edges: Option<EdgeVecBlobs>,
    pub labels: Option<Vec<u8>>,
    pub aux: StaticGraphMmapAux,
}

impl StaticGraphBlobs {
    /// Whether this is what is stored of the compact graph `g`.
    pub open spec fn decodes_to(self, g: StaticGraphView) -> bool {
        &&& self.edges.decodes_to(g.edge_vec)
        &&& match (self.in_edges, g.in_edge_vec) {
            (Some(b), Some(ev)) => b.decodes_to(ev),
            (None, None) => true,
            _ => false,
        }
        &&& holds(self.labels, g.labels)
        &&& self.aux.spec_num_nodes() == g.num_nodes
        &&& self.aux.spec_num_edges() == g.num_edges
        &&& self.aux.node_labels() == g.node_labels
        &&& self.aux.edge_labels() == g.edge_labels
    }

    /// What is stored of a compact graph gives the graph back: the same
    /// numbers of nodes and edges, the same neighbours of every node, and
    /// the same labels. Two graphs of one kind with the same stored form
    /// are the same graph.
    pub proof fn lemma_round_trip(self, dumped: StaticGraphView, loaded: StaticGraphView)
        requires
            self.decodes_to(dumped),
            self.decodes_to(loaded),
            dumped.directed == loaded.directed,
        ensures
            loaded == dumped,
    {
        self.edges.lemma_decodes_to_one(dumped.edge_vec, loaded.edge_vec);
        if self.in_edges is Some {
            self.in_edges->0.lemma_decodes_to_one(dumped.in_edge_vec->0, loaded.in_edge_vec->0);
        }
        if self.labels is Some {
            lemma_encoded_injective(dumped.labels->0, loaded.labels->0);
        }
    }
}

impl<Ty: GraphType> TypedStaticGraph<Ty> {
    /// All that is to be stored of this graph: the flat blobs of the
    /// adjacency structures and of the node label array, and beside them
    /// the numbers of nodes and edges and both label interners.
    pub fn dump_mmap(&self) -> (r: StaticGraphBlobs)
        ensures
            r.decodes_to(self@),
    {
        let in_edges = match self.get_in_edge_vec() {
            Some(ev) => Some(ev.dump_mmap()),
            None => None,
        };
        let labels = match self.get_labels() {
            Some(l) => Some(dump(l)),
            None => None,
        };
        StaticGraphBlobs {
            edges: self.get_edge_vec().dump_mmap(),
            in_edges,
            labels,
            aux: StaticGraphMmapAux::new(
                self.node_count(),
                self.edge_count(),
                self.get_node_label_map().clone(),
                self.get_edge_label_map().clone(),
            ),
        }
    }

    /// The compact graph of which `blobs` is the stored form. Fails with
    /// `DeserializationError` if a blob is the blob of no array, and with
    /// `ConstructionError` if the parts do not fit together; it fails only
    /// if `blobs` is the stored form of no well-formed graph of this kind.
    pub fn load_mmap(blobs: StaticGraphBlobs) -> (r: Result<Self, GraphError>)
        requires
            blobs.aux.node_labels().no_duplicates(),
            blobs.aux.edge_labels().no_duplicates(),
        ensures
            match r {
                Ok(g) => g.wf() && blobs.decodes_to(g@),
                Err(e) => (e == GraphError::DeserializationError || e
                    == GraphError::ConstructionError) && forall|g: StaticGraphView|
                    blobs.decodes_to(g) && g.directed == Ty::directed() ==> !g.valid(),
            },
    {
        let StaticGraphBlobs { edges, in_edges, labels, aux } = blobs;
        let ghost given = StaticGraphBlobs { edges, in_edges, labels, aux };
        let edge_vec = match EdgeVec::load_mmap(&edges) {
            Ok(ev) => ev,
            Err(e) => {
                proof {
                    assert forall|g: StaticGraphView|
                        given.decodes_to(g) && g.directed == Ty::directed() implies !g.valid() by {
                        if e != GraphError::DeserializationError {
                            let ev = choose|ev: EdgeVecView| edges.decodes_to(ev) && !ev.valid();
                            edges.lemma_decodes_to_one(ev, g.edge_vec);
                        }
                    }
                }
                return Err(e);
            },
        };
        let in_edge_vec = match &in_edges {
            Some(b) => match EdgeVec::load_mmap(b) {
                Ok(ev) => Some(ev),
                Err(e) => {
                    proof {
                        assert forall|g: StaticGraphView|
                            given.decodes_to(g) && g.directed == Ty::directed() implies !g.valid() by {
                            if e != GraphError::DeserializationError {
                                let ev = choose|ev: EdgeVecView| b.decodes_to(ev) && !ev.valid();
                                b.lemma_decodes_to_one(ev, g.in_edge_vec->0);
                            }
                        }
                    }
                    return Err(e);
                },
            },
            None => None,
        };
        let node_labels = match load_optional(&labels) {
            Ok(a) => a,
            Err(e) => {
                return Err(e);
            },
        };
        let StaticGraphMmapAux { num_nodes, num_edges, node_label_map, edge_label_map } = aux;
        let ghost view = StaticGraphView {
            directed: Ty::directed(),
            num_nodes,
            num_edges,
            edge_vec: edge_vec@,
            in_edge_vec: edge_vec_view(in_edge_vec),
            labels: labels_view(node_labels),
            node_labels: node_label_map@,
            edge_labels: edge_label_map@,
        };
        proof {
            assert(given.decodes_to(view));
            assert forall|g: StaticGraphView|
                given.decodes_to(g) && g.directed == Ty::directed() implies g == view by {
                given.lemma_round_trip(view, g);
            }
        }
        TypedStaticGraph::from_raw(
            num_nodes,
            num_edges,
            edge_vec,
            in_edge_vec,
            node_labels,
            node_label_map,
            edge_label_map,
        )
    }
}

} // verus!
