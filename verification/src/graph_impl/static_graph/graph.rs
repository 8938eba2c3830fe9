use std::marker::PhantomData;

use vstd::prelude::*;

use crate::generic::graph::{Directed, GraphError, GraphTrait, GraphType, Undirected};
use crate::generic::map::MapTrait;
use crate::graph_impl::graph_map::edge::{Edge, EdgeView};
use crate::graph_impl::static_graph::edge_vec::{label_at, shrink_vec, EdgeVec, EdgeVecView};
use crate::graph_impl::static_graph::node::StaticNode;
use crate::map::set_map::SetMap;

verus! {

pub type TypedUnStaticGraph = TypedStaticGraph<Undirected>;

pub type TypedDiStaticGraph = TypedStaticGraph<Directed>;

pub type StaticGraph<Ty> = TypedStaticGraph<Ty>;

pub type UnStaticGraph = TypedStaticGraph<Undirected>;

pub type DiStaticGraph = TypedStaticGraph<Directed>;

/// The mathematical content of a compact graph.
pub struct StaticGraphView {
    /// Whether edges have a direction.
    pub directed: bool,
    pub num_nodes: usize,
    pub num_edges: usize,
    /// The outgoing neighbours of each node.
    pub edge_vec: EdgeVecView,
    /// The incoming neighbours of each node, where they are kept.
    pub in_edge_vec: Option<EdgeVecView>,
    /// The label id of each node, by node id, with the sentinel for "no
    /// label"; absent if no node has a label.
    pub labels: Option<Seq<usize>>,
    /// The interned node labels, by label id.
    pub node_labels: Seq<Seq<char>>,
    /// The interned edge labels, by label id.
    pub edge_labels: Seq<Seq<char>>,
}

impl StaticGraphView {
    /// The rules that the parts of a compact graph obey: each adjacency
    /// structure is well shaped and has an entry for each node; a directed
    /// graph keeps the incoming neighbours too, as many as the outgoing
    /// ones, and counts each as one edge; a label array has a label for each
    /// node.
    pub open spec fn valid(self) -> bool {
        &&& self.edge_vec.valid()
        &&& self.edge_vec.num_nodes() == self.num_nodes
        &&& self.in_edge_vec is Some ==> self.in_edge_vec->0.valid()
            && self.in_edge_vec->0.num_nodes() == self.num_nodes
        &&& self.directed ==> {
            &&& self.in_edge_vec is Some
            &&& self.in_edge_vec->0.num_edges() == self.edge_vec.num_edges()
            &&& self.num_edges == self.edge_vec.num_edges()
        }
        &&& self.labels is Some ==> self.labels->0.len() == self.num_nodes
        &&& self.node_labels.no_duplicates()
        &&& self.edge_labels.no_duplicates()
    }

    /// The number of edges that the stored neighbours stand for: each
    /// undirected edge is stored from both ends, so half their number. An
    /// edge from a node to itself is stored once and so counts as half an
    /// edge here.
    pub open spec fn counted_edges(directed: bool, edge_vec: EdgeVecView) -> int {
        if directed {
            edge_vec.num_edges()
        } else {
            edge_vec.num_edges() / 2
        }
    }

    pub open spec fn has_node(self, id: usize) -> bool {
        id < self.num_nodes
    }

    /// Whether `target` is among the stored outgoing neighbours of `start`.
    pub open spec fn has_edge(self, start: usize, target: usize) -> bool {
        self.edge_vec.has_edge(start, target)
    }

    /// The label id of node `id`.
    pub open spec fn node_label(self, id: int) -> Option<usize> {
        match self.labels {
            Some(l) => label_at(l[id]),
            None => None,
        }
    }
}

/// A compact graph: adjacency in compressed arrays, built once and then
/// read. `Ty` says whether its edges have a direction.
#[derive(Debug, PartialEq, Eq)]
pub struct TypedStaticGraph<Ty: GraphType> {
    num_nodes: usize,
    num_edges: usize,
    edge_vec: EdgeVec,
    in_edge_vec: Option<EdgeVec>,
    /// The nodes' label ids, by node id.
    labels: Option<Vec<usize>>,
    graph_type: PhantomData<Ty>,
    /// The node labels.
    node_label_map: SetMap,
    /// The edge labels.
    edge_label_map: SetMap,
}

impl<Ty: GraphType> View for TypedStaticGraph<Ty> {
    type V = StaticGraphView;

    closed spec fn view(&self) -> StaticGraphView {
        StaticGraphView {
            directed: Ty::directed(),
            num_nodes: self.num_nodes,
            num_edges: self.num_edges,
            edge_vec: self.edge_vec@,
            in_edge_vec: match self.in_edge_vec {
                Some(e) => Some(e@),
                None => None,
            },
            labels: match self.labels {
                Some(l) => Some(l@),
                None => None,
            },
            node_labels: self.node_label_map@,
            edge_labels: self.edge_label_map@,
        }
    }
}

/// What an adjacency structure that may be absent holds.
pub open spec fn edge_vec_view(e: Option<EdgeVec>) -> Option<EdgeVecView> {
    match e {
        Some(e) => Some(e@),
        None => None,
    }
}

/// What a label array that may be absent holds.
pub open spec fn labels_view(l: Option<Vec<usize>>) -> Option<Seq<usize>> {
    match l {
        Some(l) => Some(l@),
        None => None,
    }
}

/// Whether the adjacency structures fit a graph of `num_nodes` nodes:
/// well shaped, an entry for each node, and for a directed graph the
/// incoming neighbours present and as many as the outgoing ones.
fn structure_fits(directed: bool, num_nodes: usize, edges: &EdgeVec, in_edges: &Option<EdgeVec>) -> (r:
    bool)
    ensures
        r <==> {
            &&& edges@.valid()
            &&& edges@.num_nodes() == num_nodes
            &&& in_edges is Some ==> in_edges->0@.valid() && in_edges->0@.num_nodes() == num_nodes
            &&& directed ==> in_edges is Some && in_edges->0@.num_edges() == edges@.num_edges()
        },
{
    if !edges.is_well_shaped() {
        return false;
    }
    if edges.num_nodes() != num_nodes {
        return false;
    }
    match in_edges {
        Some(ie) => {
            if !ie.is_well_shaped() {
                return false;
            }
            if ie.num_nodes() != num_nodes {
                return false;
            }
            if directed && ie.num_edges() != edges.num_edges() {
                return false;
            }
            true
        },
        None => !directed,
    }
}

impl<Ty: GraphType> TypedStaticGraph<Ty> {
    /// The representation obeys the rules of the compact graph.
    pub open spec fn wf(&self) -> bool {
        self@.valid()
    }

    /// A compact graph without labels from its adjacency structures. The
    /// number of edges is taken from the stored neighbours. Fails with
    /// `ConstructionError` exactly if the parts do not fit together.
    pub fn new(num_nodes: usize, edges: EdgeVec, in_edges: Option<EdgeVec>) -> (r: Result<
        Self,
        GraphError,
    >)
        ensures
            match r {
                Ok(g) => g.wf() && g@ == (StaticGraphView {
                    directed: Ty::directed(),
                    num_nodes,
                    num_edges: StaticGraphView::counted_edges(Ty::directed(), edges@) as usize,
                    edge_vec: edges@,
                    in_edge_vec: edge_vec_view(in_edges),
                    labels: None,
                    node_labels: Seq::empty(),
                    edge_labels: Seq::empty(),
                }),
                Err(e) => e == GraphError::ConstructionError && !(StaticGraphView {
                    directed: Ty::directed(),
                    num_nodes,
                    num_edges: StaticGraphView::counted_edges(Ty::directed(), edges@) as usize,
                    edge_vec: edges@,
                    in_edge_vec: edge_vec_view(in_edges),
                    labels: None,
                    node_labels: Seq::empty(),
                    edge_labels: Seq::empty(),
                }).valid(),
            },
    {
        if !structure_fits(Ty::is_directed(), num_nodes, &edges, &in_edges) {
            return Err(GraphError::ConstructionError);
        }
        let num_edges = if Ty::is_directed() {
            edges.num_edges()
        } else {
            edges.num_edges() / 2
        };
        Ok(
            TypedStaticGraph {
                num_nodes,
                num_edges,
                edge_vec: edges,
                in_edge_vec: in_edges,
                labels: None,
                graph_type: PhantomData,
                node_label_map: SetMap::new(),
                edge_label_map: SetMap::new(),
            },
        )
    }

    /// A compact graph with node labels and interners. The number of edges
    /// is taken from the stored neighbours. Fails with `ConstructionError`
    /// exactly if the parts do not fit together.
    pub fn with_labels(
        num_nodes: usize,
        edges: EdgeVec,
        in_edges: Option<EdgeVec>,
        labels: Vec<usize>,
        node_label_map: SetMap,
        edge_label_map: SetMap,
    ) -> (r: Result<Self, GraphError>)
        requires
            node_label_map.wf(),
            edge_label_map.wf(),
        ensures
            match r {
                Ok(g) => g.wf() && g@ == (StaticGraphView {
                    directed: Ty::directed(),
                    num_nodes,
                    num_edges: StaticGraphView::counted_edges(Ty::directed(), edges@) as usize,
                    edge_vec: edges@,
                    in_edge_vec: edge_vec_view(in_edges),
                    labels: Some(labels@),
                    node_labels: node_label_map@,
                    edge_labels: edge_label_map@,
                }),
                Err(e) => e == GraphError::ConstructionError && !(StaticGraphView {
                    directed: Ty::directed(),
                    num_nodes,
                    num_edges: StaticGraphView::counted_edges(Ty::directed(), edges@) as usize,
                    edge_vec: edges@,
                    in_edge_vec: edge_vec_view(in_edges),
                    labels: Some(labels@),
                    node_labels: node_label_map@,
                    edge_labels: edge_label_map@,
                }).valid(),
            },
    {
        if !structure_fits(Ty::is_directed(), num_nodes, &edges, &in_edges) {
            return Err(GraphError::ConstructionError);
        }
        if num_nodes != labels.len() {
            return Err(GraphError::ConstructionError);
        }
        let num_edges = if Ty::is_directed() {
            edges.num_edges()
        } else {
            edges.num_edges() / 2
        };
        Ok(
            TypedStaticGraph {
                num_nodes,
                num_edges,
                edge_vec: edges,
                in_edge_vec: in_edges,
                labels: Some(labels),
                graph_type: PhantomData,
                node_label_map,
                edge_label_map,
            },
        )
    }

    /// A compact graph from all of its parts, the number of edges included.
    /// Fails with `ConstructionError` exactly if the parts do not fit
    /// together. For an undirected graph the number of edges is taken as
    /// given, whatever the stored neighbours say.
    pub fn from_raw(
        num_nodes: usize,
        num_edges: usize,
        edge_vec: EdgeVec,
        in_edge_vec: Option<EdgeVec>,
        labels: Option<Vec<usize>>,
        node_label_map: SetMap,
        edge_label_map: SetMap,
    ) -> (r: Result<Self, GraphError>)
        requires
            node_label_map.wf(),
            edge_label_map.wf(),
        ensures
            match r {
                Ok(g) => g.wf() && g@ == (StaticGraphView {
                    directed: Ty::directed(),
                    num_nodes,
                    num_edges,
                    edge_vec: edge_vec@,
                    in_edge_vec: edge_vec_view(in_edge_vec),
                    labels: labels_view(labels),
                    node_labels: node_label_map@,
                    edge_labels: edge_label_map@,
                }),
                Err(e) => e == GraphError::ConstructionError && !(StaticGraphView {
                    directed: Ty::directed(),
                    num_nodes,
                    num_edges,
                    edge_vec: edge_vec@,
                    in_edge_vec: edge_vec_view(in_edge_vec),
                    labels: labels_view(labels),
                    node_labels: node_label_map@,
                    edge_labels: edge_label_map@,
                }).valid(),
            },
    {
        if !structure_fits(Ty::is_directed(), num_nodes, &edge_vec, &in_edge_vec) {
            return Err(GraphError::ConstructionError);
        }
        if Ty::is_directed() && num_edges != edge_vec.num_edges() {
            return Err(GraphError::ConstructionError);
        }
        match &labels {
            Some(l) => {
                if num_nodes != l.len() {
                    return Err(GraphError::ConstructionError);
                }
            },
            None => {},
        }
        Ok(
            TypedStaticGraph {
                num_nodes,
                num_edges,
                edge_vec,
                in_edge_vec,
                labels,
                graph_type: PhantomData,
                node_label_map,
                edge_label_map,
            },
        )
    }
}

impl<Ty: GraphType> TypedStaticGraph<Ty> {
    pub fn get_edge_vec(&self) -> (r: &EdgeVec)
        ensures
            r@ == self@.edge_vec,
    {
        &self.edge_vec
    }

    pub fn get_in_edge_vec(&self) -> (r: &Option<EdgeVec>)
        ensures
            edge_vec_view(*r) == self@.in_edge_vec,
    {
        &self.in_edge_vec
    }

    pub fn get_labels(&self) -> (r: &Option<Vec<usize>>)
        ensures
            labels_view(*r) == self@.labels,
    {
        &self.labels
    }

    pub fn get_node_label_map(&self) -> (r: &SetMap)
        ensures
            r@ == self@.node_labels,
    {
        &self.node_label_map
    }

    pub fn get_edge_label_map(&self) -> (r: &SetMap)
        ensures
            r@ == self@.edge_labels,
    {
        &self.edge_label_map
    }

    /// The outgoing adjacency structure, to be changed in place. What the
    /// graph holds afterwards is what it held, with the structure as the
    /// caller leaves it.
    pub fn get_edge_vec_mut(&mut self) -> (r: &mut EdgeVec)
        ensures
            r@ == old(self)@.edge_vec,
            final(self)@ == (StaticGraphView { edge_vec: final(r)@, ..old(self)@ }),
    {
        &mut self.edge_vec
    }

    /// The incoming adjacency structure, to be changed in place.
    pub fn get_in_edge_vec_mut(&mut self) -> (r: &mut Option<EdgeVec>)
        ensures
            edge_vec_view(*r) == old(self)@.in_edge_vec,
            final(self)@ == (StaticGraphView {
                in_edge_vec: edge_vec_view(*final(r)),
                ..old(self)@
            }),
    {
        &mut self.in_edge_vec
    }

    /// The node label array, to be changed in place.
    pub fn get_labels_mut(&mut self) -> (r: &mut Option<Vec<usize>>)
        ensures
            labels_view(*r) == old(self)@.labels,
            final(self)@ == (StaticGraphView { labels: labels_view(*final(r)), ..old(self)@ }),
    {
        &mut self.labels
    }

    /// The interner of the node labels, to be changed in place.
    pub fn get_node_label_map_mut(&mut self) -> (r: &mut SetMap)
        ensures
            r@ == old(self)@.node_labels,
            final(self)@ == (StaticGraphView { node_labels: final(r)@, ..old(self)@ }),
    {
        &mut self.node_label_map
    }

    /// The interner of the edge labels, to be changed in place.
    pub fn get_edge_label_map_mut(&mut self) -> (r: &mut SetMap)
        ensures
            r@ == old(self)@.edge_labels,
            final(self)@ == (StaticGraphView { edge_labels: final(r)@, ..old(self)@ }),
    {
        &mut self.edge_label_map
    }

    /// Takes the node labels away: the label array and the interned node
    /// labels. The structure stays.
    pub fn remove_node_labels(&mut self)
        ensures
            final(self)@ == (StaticGraphView {
                labels: None,
                node_labels: Seq::empty(),
                ..old(self)@
            }),
            old(self).wf() ==> final(self).wf(),
    {
        self.labels = None;
        self.node_label_map = SetMap::new();
    }

    /// Takes the edge labels away: the label arrays of the adjacency
    /// structures and the interned edge labels. The structure stays.
    pub fn remove_edge_labels(&mut self)
        ensures
            final(self)@ == (StaticGraphView {
                edge_vec: EdgeVecView { labels: None, ..old(self)@.edge_vec },
                in_edge_vec: match old(self)@.in_edge_vec {
                    Some(e) => Some(EdgeVecView { labels: None, ..e }),
                    None => None,
                },
                edge_labels: Seq::empty(),
                ..old(self)@
            }),
            old(self).wf() ==> final(self).wf(),
    {
        self.edge_vec.remove_labels();
        let in_edge_vec = self.in_edge_vec.take();
        self.in_edge_vec = match in_edge_vec {
            Some(mut e) => {
                e.remove_labels();
                Some(e)
            },
            None => None,
        };
        self.edge_label_map = SetMap::new();
    }

    /// Takes all labels away. The structure stays.
    pub fn remove_labels(&mut self)
        ensures
            final(self)@ == (StaticGraphView {
                labels: None,
                node_labels: Seq::empty(),
                edge_vec: EdgeVecView { labels: None, ..old(self)@.edge_vec },
                in_edge_vec: match old(self)@.in_edge_vec {
                    Some(e) => Some(EdgeVecView { labels: None, ..e }),
                    None => None,
                },
                edge_labels: Seq::empty(),
                ..old(self)@
            }),
            old(self).wf() ==> final(self).wf(),
    {
        self.remove_node_labels();
        self.remove_edge_labels();
    }

    /// Gives back room that the arrays hold in reserve. The content stays.
    pub fn shrink_to_fit(&mut self)
        ensures
            final(self)@ == old(self)@,
    {
        self.edge_vec.shrink_to_fit();
        let in_edge_vec = self.in_edge_vec.take();
        self.in_edge_vec = match in_edge_vec {
            Some(mut e) => {
                e.shrink_to_fit();
                Some(e)
            },
            None => None,
        };
        let labels = self.labels.take();
        self.labels = match labels {
            Some(mut l) => {
                shrink_vec(&mut l);
                Some(l)
            },
            None => None,
        };
    }

    /// The place in the neighbour array where `target` stands as a
    /// neighbour of `start`.
    pub fn find_edge_index(&self, start: usize, target: usize) -> (r: Option<usize>)
        requires
            self.wf(),
        ensures
            match r {
                Some(i) => {
                    &&& self@.has_edge(start, target)
                    &&& self@.edge_vec.offsets[start as int] <= i < self@.edge_vec.offsets[start
                        + 1]
                    &&& self@.edge_vec.edges[i as int] == target
                },
                None => self@.edge_vec.sorted() ==> !self@.has_edge(start, target),
            },
    {
        self.edge_vec.find_edge_index(start, target)
    }

    /// Whether the number of edges agrees with the stored neighbours. It can
    /// fail to for an undirected graph built from raw parts, and does for
    /// one that stores an odd number of neighbours.
    pub fn has_consistent_edge_count(&self) -> (r: bool)
        ensures
            r == (self@.num_edges == StaticGraphView::counted_edges(
                self@.directed,
                self@.edge_vec,
            )),
    {
        if Ty::is_directed() {
            self.num_edges == self.edge_vec.num_edges()
        } else {
            self.num_edges == self.edge_vec.num_edges() / 2
        }
    }

    /// Node `id` with its label id, if the graph holds the node.
    pub fn get_node(&self, id: usize) -> (r: Option<StaticNode>)
        requires
            self.wf(),
        ensures
            match r {
                Some(n) => self@.has_node(id) && n == (StaticNode {
                    id,
                    label: self@.node_label(id as int),
                }),
                None => !self@.has_node(id),
            },
    {
        if !self.has_node(id) {
            return None;
        }
        match &self.labels {
            Some(labels) => Some(StaticNode::new_static(id, labels[id])),
            None => Some(StaticNode::new(id, None)),
        }
    }

    /// The edge from `start` to `target` with its label id, if it is found
    /// among the stored neighbours of `start`.
    pub fn get_edge(&self, start: usize, target: usize) -> (r: Option<Edge>)
        requires
            self.wf(),
        ensures
            match r {
                Some(e) => {
                    &&& self@.has_edge(start, target)
                    &&& e@.start == start
                    &&& e@.target == target
                    &&& exists|i: int|
                        self@.edge_vec.offsets[start as int] <= i < self@.edge_vec.offsets[start
                            + 1] && self@.edge_vec.edges[i] == target
                            && #[trigger] self@.edge_vec.label_of(i) == e@.label
                },
                None => self@.edge_vec.sorted() ==> !self@.has_edge(start, target),
            },
    {
        match self.edge_vec.find_edge_index(start, target) {
            Some(i) => {
                let e = match self.edge_vec.get_labels() {
                    Some(l) => Edge::new_static(start, target, l[i]),
                    None => Edge::new(start, target, None),
                };
                assert(self@.edge_vec.label_of(i as int) == e@.label);
                Some(e)
            },
            None => None,
        }
    }

    /// Whether the graph holds node `id`: the nodes are `0` up to the number
    /// of nodes.
    pub fn has_node(&self, id: usize) -> (r: bool)
        ensures
            r == self@.has_node(id),
    {
        id < self.num_nodes
    }

    /// Whether `target` is a stored neighbour of `start`, found by halving.
    /// `true` is never wrong; if the neighbours are stored in ascending
    /// order, neither is `false`.
    pub fn has_edge(&self, start: usize, target: usize) -> (r: bool)
        requires
            self.wf(),
        ensures
            r ==> self@.has_edge(start, target),
            self@.edge_vec.sorted() ==> r == self@.has_edge(start, target),
    {
        self.edge_vec.has_edge(start, target)
    }

    pub fn node_count(&self) -> (r: usize)
        ensures
            r == self@.num_nodes,
    {
        self.num_nodes
    }

    pub fn edge_count(&self) -> (r: usize)
        ensures
            r == self@.num_edges,
    {
        self.num_edges
    }

    pub fn is_directed(&self) -> (r: bool)
        ensures
            r == self@.directed,
            r == Ty::directed(),
    {
        Ty::is_directed()
    }

    /// The ids of all nodes, ascending.
    pub fn node_indices(&self) -> (r: Vec<usize>)
        ensures
            r@.len() == self@.num_nodes,
            forall|i: int| 0 <= i < r@.len() ==> r@[i] == i,
    {
        let mut out: Vec<usize> = Vec::new();
        let mut i: usize = 0;
        while i < self.num_nodes
            invariant
                i <= self.num_nodes,
                out@.len() == i,
                forall|j: int| 0 <= j < i ==> out@[j] == j,
            decreases self.num_nodes - i,
        {
            out.push(i);
            i += 1;
        }
        out
    }

    /// All nodes with their label ids, by ascending id.
    pub fn nodes(&self) -> (r: Vec<StaticNode>)
        requires
            self.wf(),
        ensures
            r@.len() == self@.num_nodes,
            forall|i: int|
                0 <= i < r@.len() ==> r@[i] == (StaticNode {
                    id: i as usize,
                    label: self@.node_label(i),
                }),
    {
        let mut out: Vec<StaticNode> = Vec::new();
        let mut i: usize = 0;
        while i < self.num_nodes
            invariant
                i <= self.num_nodes,
                self.wf(),
                out@.len() == i,
                forall|j: int|
                    0 <= j < i ==> out@[j] == (StaticNode {
                        id: j as usize,
                        label: self@.node_label(j),
                    }),
            decreases self.num_nodes - i,
        {
            match self.get_node(i) {
                Some(n) => out.push(n),
                None => {},
            }
            i += 1;
        }
        out
    }

    /// Number of stored outgoing neighbours of node `id`.
    pub fn degree(&self, id: usize) -> (r: Result<usize, GraphError>)
        requires
            self.wf(),
        ensures
            match r {
                Ok(d) => self@.has_node(id) && d == self@.edge_vec.neighbors(id as int).len(),
                Err(e) => e == GraphError::NodeNotFound && !self@.has_node(id),
            },
    {
        self.edge_vec.degree(id)
    }

    /// The stored outgoing neighbours of node `id`, borrowed from the graph.
    pub fn neighbors(&self, id: usize) -> (r: Result<&[usize], GraphError>)
        requires
            self.wf(),
        ensures
            match r {
                Ok(s) => self@.has_node(id) && s@ == self@.edge_vec.neighbors(id as int),
                Err(e) => e == GraphError::NodeNotFound && !self@.has_node(id),
            },
    {
        self.edge_vec.neighbors(id)
    }

    /// The largest node id, if there is a node.
    pub fn max_seen_id(&self) -> (r: Option<usize>)
        ensures
            r == if self@.num_nodes == 0 {
                None
            } else {
                Some((self@.num_nodes - 1) as usize)
            },
    {
        if self.num_nodes == 0 {
            None
        } else {
            Some(self.num_nodes - 1)
        }
    }

    /// The largest id that a node can have.
    pub fn max_possible_id(&self) -> (r: usize)
        ensures
            r == usize::MAX,
    {
        usize::MAX
    }
}

impl TypedStaticGraph<Directed> {
    /// Number of stored incoming neighbours of node `id`.
    pub fn in_degree(&self, id: usize) -> (r: Result<usize, GraphError>)
        requires
            self.wf(),
        ensures
            match r {
                Ok(d) => self@.has_node(id) && d == self@.in_edge_vec->0.neighbors(id as int).len(),
                Err(e) => e == GraphError::NodeNotFound && !self@.has_node(id),
            },
    {
        match &self.in_edge_vec {
            Some(e) => e.degree(id),
            None => Err(GraphError::NodeNotFound),
        }
    }

    /// The stored incoming neighbours of node `id`, borrowed from the graph.
    pub fn in_neighbors(&self, id: usize) -> (r: Result<&[usize], GraphError>)
        requires
            self.wf(),
        ensures
            match r {
                Ok(s) => self@.has_node(id) && s@ == self@.in_edge_vec->0.neighbors(id as int),
                Err(e) => e == GraphError::NodeNotFound && !self@.has_node(id),
            },
    {
        match &self.in_edge_vec {
            Some(e) => e.neighbors(id),
            None => Err(GraphError::NodeNotFound),
        }
    }
}

/// In a directed compact graph as many neighbours are stored incoming as
/// outgoing, and that many edges are counted.
pub proof fn lemma_directed_totals_agree(g: StaticGraphView)
    requires
        g.valid(),
        g.directed,
    ensures
        g.in_edge_vec is Some,
        g.in_edge_vec->0.edges.len() == g.edge_vec.edges.len(),
        g.edge_vec.offsets.last() == g.in_edge_vec->0.offsets.last(),
        g.num_edges == g.edge_vec.edges.len(),
{
}

impl StaticGraphView {
    /// Whether the edge record `e` stands for place `p` of the outgoing
    /// neighbour array: the neighbour stored there, of the node that the
    /// place belongs to, with the label stored for it.
    pub open spec fn edge_at(self, e: EdgeView, p: int) -> bool {
        &&& e.start < self.edge_vec.num_nodes()
        &&& self.edge_vec.offsets[e.start as int] <= p < self.edge_vec.offsets[e.start + 1]
        &&& self.edge_vec.edges[p] == e.target
        &&& self.edge_vec.label_of(p) == e.label
    }

    /// Whether the edge from `start` to `target` is listed among the edges:
    /// in an undirected graph each edge is stored from both ends and listed
    /// from its smaller end only.
    pub open spec fn lists(self, start: usize, target: usize) -> bool {
        self.directed || start <= target
    }
}

impl StaticGraphView {
    /// The node to which place `p` of the outgoing neighbour array belongs.
    pub open spec fn owner(self, p: int) -> int {
        choose|u: int|
            0 <= u < self.edge_vec.num_nodes() && self.edge_vec.offsets[u] <= p
                < #[trigger] self.edge_vec.offsets[u + 1]
    }

    /// The edge for which place `p` of the outgoing neighbour array stands.
    pub open spec fn edge_of_place(self, p: int) -> EdgeView {
        EdgeView {
            start: self.owner(p) as usize,
            target: self.edge_vec.edges[p],
            label: self.edge_vec.label_of(p),
        }
    }

    /// The listed edges that the places below `upto` stand for, in the
    /// order of the places.
    pub open spec fn listed_edges(self, upto: int) -> Seq<EdgeView>
        decreases upto,
    {
        if upto <= 0 {
            Seq::empty()
        } else {
            let before = self.listed_edges(upto - 1);
            let e = self.edge_of_place(upto - 1);
            if self.lists(e.start, e.target) {
                before.push(e)
            } else {
                before
            }
        }
    }

    /// A place belongs to one node only.
    pub proof fn lemma_owner(self, u: int, p: int)
        requires
            self.edge_vec.valid(),
            0 <= u < self.edge_vec.num_nodes(),
            self.edge_vec.offsets[u] <= p < self.edge_vec.offsets[u + 1],
        ensures
            self.owner(p) == u,
    {
        let w = self.owner(p);
        if w < u {
            assert(self.edge_vec.offsets[w + 1] <= self.edge_vec.offsets[u]);
        } else if w > u {
            assert(self.edge_vec.offsets[u + 1] <= self.edge_vec.offsets[w]);
        }
    }
}

/// What each edge record of `v` holds.
pub open spec fn edge_views(v: Seq<Edge>) -> Seq<EdgeView> {
    Seq::new(v.len(), |i: int| v[i]@)
}

impl<Ty: GraphType> TypedStaticGraph<Ty> {
    /// The edges with their label ids, node after node. An undirected edge
    /// is listed once, from its smaller end.
    pub fn edges(&self) -> (r: Vec<Edge>)
        requires
            self.wf(),
        ensures
            edge_views(r@) == self@.listed_edges(self@.edge_vec.edges.len() as int),
            r@.len() <= self@.edge_vec.edges.len(),
            self@.directed ==> r@.len() == self@.edge_vec.edges.len(),
            forall|i: int|
                0 <= i < r@.len() ==> self@.lists((#[trigger] r@[i])@.start, r@[i]@.target)
                    && exists|p: int| self@.edge_at(r@[i]@, p),
            forall|e: EdgeView, p: int|
                self@.edge_at(e, p) && self@.lists(e.start, e.target) ==> exists|i: int|
                    0 <= i < r@.len() && #[trigger] r@[i]@ == e,
    {
        let ghost view = self@;
        let ev = self.get_edge_vec();
        let offsets = ev.get_offsets();
        let targets = ev.get_edges();
        let labels = ev.get_labels();
        let directed = Ty::is_directed();
        let n = self.num_nodes;
        let mut out: Vec<Edge> = Vec::new();
        let mut u: usize = 0;
        while u < n
            invariant
                u <= n,
                self.wf(),
                view == self@,
                n == view.num_nodes,
                directed == view.directed,
                offsets@ == view.edge_vec.offsets,
                targets@ == view.edge_vec.edges,
                labels is Some <==> view.edge_vec.labels is Some,
                labels is Some ==> labels->0@ == view.edge_vec.labels->0,
                out@.len() <= offsets@[u as int],
                directed ==> out@.len() == offsets@[u as int],
                edge_views(out@) == view.listed_edges(offsets@[u as int] as int),
                forall|i: int|
                    0 <= i < out@.len() ==> view.lists((#[trigger] out@[i])@.start, out@[i]@.target)
                        && exists|p: int| view.edge_at(out@[i]@, p),
                forall|e: EdgeView, p: int|
                    view.edge_at(e, p) && view.lists(e.start, e.target) && p < offsets@[u as int]
                        ==> exists|i: int| 0 <= i < out@.len() && #[trigger] out@[i]@ == e,
            decreases n - u,
        {
            let lo = offsets[u];
            let hi = offsets[u + 1];
            let mut p: usize = lo;
            while p < hi
                invariant
                    lo <= p <= hi,
                    u < n,
                    self.wf(),
                    view == self@,
                    n == view.num_nodes,
                    directed == view.directed,
                    offsets@ == view.edge_vec.offsets,
                    targets@ == view.edge_vec.edges,
                    labels is Some <==> view.edge_vec.labels is Some,
                    labels is Some ==> labels->0@ == view.edge_vec.labels->0,
                    lo == offsets@[u as int],
                    hi == offsets@[u + 1],
                    out@.len() <= p,
                    directed ==> out@.len() == p,
                    edge_views(out@) == view.listed_edges(p as int),
                    forall|i: int|
                        0 <= i < out@.len() ==> view.lists(
                            (#[trigger] out@[i])@.start,
                            out@[i]@.target,
                        ) && exists|q: int| view.edge_at(out@[i]@, q),
                    forall|e: EdgeView, q: int|
                        view.edge_at(e, q) && view.lists(e.start, e.target) && q < p ==> exists|
                            i: int,
                        | 0 <= i < out@.len() && #[trigger] out@[i]@ == e,
                decreases hi - p,
            {
                let v = targets[p];
                let ghost before = out@;
                proof {
                    view.lemma_owner(u as int, p as int);
                }
                if directed || u <= v {
                    let e = match labels {
                        Some(l) => Edge::new_static(u, v, l[p]),
                        None => Edge::new(u, v, None),
                    };
                    out.push(e);
                    proof {
                        assert(view.edge_at(e@, p as int));
                        assert(e@ == view.edge_of_place(p as int));
                        assert(edge_views(out@) =~= edge_views(before).push(e@));
                        assert forall|i: int| 0 <= i < out@.len() implies view.lists(
                            (#[trigger] out@[i])@.start,
                            out@[i]@.target,
                        ) && exists|q: int| view.edge_at(out@[i]@, q) by {
                            if i < before.len() {
                                assert(out@[i] == before[i]);
                            }
                        }
                    }
                }
                proof {
                    assert forall|e: EdgeView, q: int|
                        view.edge_at(e, q) && view.lists(e.start, e.target) && q < p + 1 implies exists|
                        i: int,
                    | 0 <= i < out@.len() && #[trigger] out@[i]@ == e by {
                        if q < p {
                            let i = choose|i: int| 0 <= i < before.len() && #[trigger] before[i]@ == e;
                            assert(out@[i]@ == e);
                        } else {
                            if e.start < u {
                                assert(view.edge_vec.offsets[e.start + 1] <= view.edge_vec.offsets[u as int]);
                            } else if e.start > u {
                                assert(view.edge_vec.offsets[u + 1] <= view.edge_vec.offsets[e.start as int]);
                            }
                            assert(e.start == u);
                            assert(out@[before.len() as int]@ == e);
                        }
                    }
                }
                p += 1;
            }
            u += 1;
        }
        proof {
            assert forall|e: EdgeView, p: int|
                view.edge_at(e, p) && view.lists(e.start, e.target) implies exists|i: int|
                0 <= i < out@.len() && #[trigger] out@[i]@ == e by {
                assert(view.edge_vec.offsets[e.start + 1] <= view.edge_vec.offsets[n as int]);
            }
        }
        out
    }

    /// The pairs of node ids of the listed edges.
    pub open spec fn listed_pairs(edges: Seq<EdgeView>) -> Seq<(usize, usize)> {
        Seq::new(edges.len(), |i: int| (edges[i].start, edges[i].target))
    }

    /// The edges as pairs of node ids, node after node. An undirected edge
    /// is listed once, from its smaller end.
    pub fn edge_indices(&self) -> (r: Vec<(usize, usize)>)
        requires
            self.wf(),
        ensures
            r@ == Self::listed_pairs(self@.listed_edges(self@.edge_vec.edges.len() as int)),
            r@.len() <= self@.edge_vec.edges.len(),
            self@.directed ==> r@.len() == self@.edge_vec.edges.len(),
            forall|u: usize, v: usize|
                r@.contains((u, v)) <==> self@.has_edge(u, v) && self@.lists(u, v),
    {
        let ghost view = self@;
        let edges = self.edges();
        let mut out: Vec<(usize, usize)> = Vec::new();
        let mut i: usize = 0;
        while i < edges.len()
            invariant
                i <= edges@.len(),
                out@.len() == i,
                forall|j: int| 0 <= j < i ==> out@[j] == (edges@[j]@.start, edges@[j]@.target),
            decreases edges@.len() - i,
        {
            out.push((edges[i].get_start(), edges[i].get_target()));
            i += 1;
        }
        proof {
            assert(out@ =~= Self::listed_pairs(edge_views(edges@)));
            assert forall|u: usize, v: usize| out@.contains((u, v)) <==> view.has_edge(u, v)
                && view.lists(u, v) by {
                if out@.contains((u, v)) {
                    let j = choose|j: int| 0 <= j < out@.len() && out@[j] == (u, v);
                    let p = choose|p: int| view.edge_at(edges@[j]@, p);
                    assert(view.edge_vec.neighbors(u as int)[p - view.edge_vec.offsets[u as int]]
                        == v);
                }
                if view.has_edge(u, v) && view.lists(u, v) {
                    let part = view.edge_vec.neighbors(u as int);
                    let k = choose|k: int| 0 <= k < part.len() && part[k] == v;
                    let p = view.edge_vec.offsets[u as int] + k;
                    let e = EdgeView { start: u, target: v, label: view.edge_vec.label_of(p) };
                    assert(view.edge_at(e, p));
                    let i = choose|i: int| 0 <= i < edges@.len() && #[trigger] edges@[i]@ == e;
                    assert(out@[i] == (u, v));
                }
            }
        }
        out
    }
}

impl<Ty: GraphType> GraphTrait for TypedStaticGraph<Ty> {
    open spec fn well_formed(&self) -> bool {
        self.wf()
    }

    open spec fn holds_node(&self, id: usize) -> bool {
        self@.has_node(id)
    }

    open spec fn holds_edge(&self, start: usize, target: usize) -> bool {
        self@.has_edge(start, target)
    }

    open spec fn nodes_held(&self) -> nat {
        self@.num_nodes as nat
    }

    open spec fn edges_held(&self) -> nat {
        self@.num_edges as nat
    }

    open spec fn directed(&self) -> bool {
        self@.directed
    }

    fn has_node(&self, id: usize) -> (r: bool) {
        TypedStaticGraph::has_node(self, id)
    }

    fn has_edge(&self, start: usize, target: usize) -> (r: bool)
        ensures
            self@.edge_vec.sorted() ==> r == self@.has_edge(start, target),
    {
        TypedStaticGraph::has_edge(self, start, target)
    }

    fn node_count(&self) -> (r: usize) {
        TypedStaticGraph::node_count(self)
    }

    fn edge_count(&self) -> (r: usize) {
        TypedStaticGraph::edge_count(self)
    }

    fn is_directed(&self) -> (r: bool) {
        TypedStaticGraph::is_directed(self)
    }

    fn degree(&self, id: usize) -> (r: Result<usize, GraphError>)
        ensures
            r is Ok ==> r->Ok_0 == self@.edge_vec.neighbors(id as int).len(),
    {
        TypedStaticGraph::degree(self, id)
    }

    fn max_possible_id(&self) -> (r: usize) {
        TypedStaticGraph::max_possible_id(self)
    }
}

impl<Ty: GraphType> Clone for TypedStaticGraph<Ty> {
    fn clone(&self) -> (r: Self)
        ensures
            r@ == self@,
    {
        let in_edge_vec = match &self.in_edge_vec {
            Some(e) => Some(e.clone()),
            None => None,
        };
        let labels = match &self.labels {
            Some(l) => {
                let c = l.clone();
                assert(c@ =~= l@);
                Some(c)
            },
            None => None,
        };
        TypedStaticGraph {
            num_nodes: self.num_nodes,
            num_edges: self.num_edges,
            edge_vec: self.edge_vec.clone(),
            in_edge_vec,
            labels,
            graph_type: PhantomData,
            node_label_map: self.node_label_map.clone(),
            edge_label_map: self.edge_label_map.clone(),
        }
    }
}

/// How many of the places below `upto` that `keep` admits hold `label` in
/// `labels`.
pub open spec fn label_tally(
    labels: Seq<usize>,
    keep: spec_fn(int) -> bool,
    label: usize,
    upto: int,
) -> nat
    decreases upto,
{
    if upto <= 0 {
        0
    } else {
        label_tally(labels, keep, label, upto - 1) + if keep(upto - 1) && labels[upto - 1]
            == label {
            1nat
        } else {
            0nat
        }
    }
}

/// A tally over the places below `upto` is at most `upto`.
pub proof fn lemma_label_tally_bound(
    labels: Seq<usize>,
    keep: spec_fn(int) -> bool,
    label: usize,
    upto: int,
)
    requires
        0 <= upto,
    ensures
        label_tally(labels, keep, label, upto) <= upto,
    decreases upto,
{
    if upto > 0 {
        lemma_label_tally_bound(labels, keep, label, upto - 1);
    }
}

impl StaticGraphView {
    /// Whether place `p` of the neighbour array belongs to node `u` and
    /// stands for an edge that is listed: each place of a directed graph,
    /// and of an undirected graph the places of the neighbours that are not
    /// below their node.
    pub open spec fn lists_place(self, u: int, p: int) -> bool {
        &&& 0 <= u < self.edge_vec.num_nodes()
        &&& self.edge_vec.offsets[u] <= p < self.edge_vec.offsets[u + 1]
        &&& self.directed || u <= self.edge_vec.edges[p]
    }

    /// The places of the neighbour array that stand for listed edges.
    pub open spec fn listed_place(self) -> spec_fn(int) -> bool {
        |p: int| exists|u: int| #[trigger] self.lists_place(u, p)
    }

    /// How many nodes carry the node label with id `label`.
    pub open spec fn node_label_frequency(self, label: usize) -> nat {
        match self.labels {
            Some(l) => label_tally(l, |p: int| true, label, l.len() as int),
            None => 0,
        }
    }

    /// How many listed edges carry the edge label with id `label`.
    pub open spec fn edge_label_frequency(self, label: usize) -> nat {
        match self.edge_vec.labels {
            Some(l) => label_tally(l, self.listed_place(), label, l.len() as int),
            None => 0,
        }
    }
}

impl<Ty: GraphType> TypedStaticGraph<Ty> {
    /// For each node label id, how many nodes carry it.
    pub fn get_node_label_id_counter(&self) -> (r: Vec<usize>)
        requires
            self.wf(),
        ensures
            r@.len() == self@.node_labels.len(),
            forall|l: int|
                0 <= l < r@.len() ==> r@[l] == self@.node_label_frequency(l as usize),
    {
        let count = self.node_label_map.len();
        let mut counts: Vec<usize> = Vec::new();
        let mut l: usize = 0;
        while l < count
            invariant
                l <= count,
                counts@.len() == l,
                forall|j: int| 0 <= j < l ==> counts@[j] == 0,
            decreases count - l,
        {
            counts.push(0);
            l += 1;
        }
        match &self.labels {
            Some(labels) => {
                let ghost keep = |p: int| true;
                let mut i: usize = 0;
                while i < labels.len()
                    invariant
                        i <= labels@.len(),
                        counts@.len() == count,
                        keep == |p: int| true,
                        forall|j: int|
                            0 <= j < count ==> counts@[j] == label_tally(
                                labels@,
                                keep,
                                j as usize,
                                i as int,
                            ),
                    decreases labels@.len() - i,
                {
                    let label = labels[i];
                    if label < count {
                        proof {
                            lemma_label_tally_bound(labels@, keep, label, i as int);
                        }
                        let c = counts[label];
                        counts.set(label, c + 1);
                    }
                    i += 1;
                }
            },
            None => {},
        }
        counts
    }

    /// For each edge label id, how many listed edges carry it. An
    /// undirected edge is listed once, from its smaller end.
    pub fn get_edge_label_id_counter(&self) -> (r: Vec<usize>)
        requires
            self.wf(),
        ensures
            r@.len() == self@.edge_labels.len(),
            forall|l: int|
                0 <= l < r@.len() ==> r@[l] == self@.edge_label_frequency(l as usize),
    {
        let ghost view = self@;
        let ghost keep = view.listed_place();
        let count = self.edge_label_map.len();
        let directed = Ty::is_directed();
        let mut counts: Vec<usize> = Vec::new();
        let mut l: usize = 0;
        while l < count
            invariant
                l <= count,
                counts@.len() == l,
                forall|j: int| 0 <= j < l ==> counts@[j] == 0,
            decreases count - l,
        {
            counts.push(0);
            l += 1;
        }
        let labels = match self.edge_vec.get_labels() {
            Some(labels) => labels,
            None => {
                return counts;
            },
        };
        let offsets = self.edge_vec.get_offsets();
        let targets = self.edge_vec.get_edges();
        let n = self.num_nodes;
        let mut u: usize = 0;
        while u < n
            invariant
                u <= n,
                self.wf(),
                view == self@,
                keep == view.listed_place(),
                n == view.num_nodes,
                directed == view.directed,
                offsets@ == view.edge_vec.offsets,
                targets@ == view.edge_vec.edges,
                view.edge_vec.labels == Some(labels@),
                counts@.len() == count,
                forall|j: int|
                    0 <= j < count ==> counts@[j] == label_tally(
                        labels@,
                        keep,
                        j as usize,
                        offsets@[u as int] as int,
                    ),
            decreases n - u,
        {
            let lo = offsets[u];
            let hi = offsets[u + 1];
            let mut p: usize = lo;
            while p < hi
                invariant
                    lo <= p <= hi,
                    u < n,
                    self.wf(),
                    view == self@,
                    keep == view.listed_place(),
                    n == view.num_nodes,
                    directed == view.directed,
                    offsets@ == view.edge_vec.offsets,
                    targets@ == view.edge_vec.edges,
                    view.edge_vec.labels == Some(labels@),
                    lo == offsets@[u as int],
                    hi == offsets@[u + 1],
                    counts@.len() == count,
                    forall|j: int|
                        0 <= j < count ==> counts@[j] == label_tally(
                            labels@,
                            keep,
                            j as usize,
                            p as int,
                        ),
                decreases hi - p,
            {
                let label = labels[p];
                let listed = directed || u <= targets[p];
                proof {
                    let ev = view.edge_vec;
                    if listed {
                        assert(view.lists_place(u as int, p as int));
                        assert(keep(p as int));
                    } else {
                        if keep(p as int) {
                            let w = choose|w: int| #[trigger] view.lists_place(w, p as int);
                            if w < u {
                                assert(ev.offsets[w + 1] <= ev.offsets[u as int]);
                            } else if w > u {
                                assert(ev.offsets[u + 1] <= ev.offsets[w]);
                            }
                        }
                        assert(!keep(p as int));
                    }
                }
                if listed && label < count {
                    proof {
                        lemma_label_tally_bound(labels@, keep, label, p as int);
                    }
                    let c = counts[label];
                    counts.set(label, c + 1);
                }
                p += 1;
            }
            u += 1;
        }
        counts
    }
}

} // verus!
