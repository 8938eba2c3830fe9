use vstd::prelude::*;

verus! {

/// Whether the edges of a graph have a direction. A graph type carries one
/// of the two markers below.
pub trait GraphType {
    spec fn directed() -> bool;

    fn is_directed() -> (r: bool)
        ensures
            r == Self::directed(),
    ;
}

/// Marker of directed graphs.
#[derive(Debug, Clone, Copy, PartialEq, Eq)]
pub struct Directed;

/// Marker of undirected graphs.
#[derive(Debug, Clone, Copy, PartialEq, Eq)]
pub struct Undirected;

impl GraphType for Directed {
    open spec fn directed() -> bool {
        true
    }

    fn is_directed() -> (r: bool) {
        true
    }
}

impl GraphType for Undirected {
    open spec fn directed() -> bool {
        false
    }

    fn is_directed() -> (r: bool) {
        false
    }
}

/// Why a graph operation failed.
#[derive(Debug, Clone, Copy, PartialEq, Eq)]
pub enum GraphError {
    /// A degree or neighbour query named a node that the graph does not hold.
    NodeNotFound,
    /// The parts handed to a constructor of the compact graph do not fit
    /// together.
    ConstructionError,
    /// Stored bytes are cut short or do not hold what they should.
    DeserializationError,
}

/// What every graph can be asked, whichever way it is stored.
pub trait GraphTrait {
    /// Validity of the graph's representation.
    spec fn well_formed(&self) -> bool;

    /// Whether the graph holds node `id`.
    spec fn holds_node(&self, id: usize) -> bool;

    /// Whether the graph holds the edge from `start` to `target`.
    spec fn holds_edge(&self, start: usize, target: usize) -> bool;

    /// The number of nodes.
    spec fn nodes_held(&self) -> nat;

    /// The number of edges.
    spec fn edges_held(&self) -> nat;

    /// Whether edges have a direction.
    spec fn directed(&self) -> bool;

    fn has_node(&self, id: usize) -> (r: bool)
        requires
            self.well_formed(),
        ensures
            r == self.holds_node(id),
    ;

    /// Whether the graph holds the edge from `start` to `target`. `true` is
    /// never wrong.
    fn has_edge(&self, start: usize, target: usize) -> (r: bool)
        requires
            self.well_formed(),
        ensures
            r ==> self.holds_edge(start, target),
    ;

    fn node_count(&self) -> (r: usize)
        requires
            self.well_formed(),
        ensures
            r == self.nodes_held(),
    ;

    fn edge_count(&self) -> (r: usize)
        requires
            self.well_formed(),
        ensures
            r == self.edges_held(),
    ;

    fn is_directed(&self) -> (r: bool)
        ensures
            r == self.directed(),
    ;

    /// The number of neighbours of node `id`; fails with `NodeNotFound`
    /// exactly if the graph does not hold the node.
    fn degree(&self, id: usize) -> (r: Result<usize, GraphError>)
        requires
            self.well_formed(),
        ensures
            r is Ok <==> self.holds_node(id),
            r is Err ==> r->Err_0 == GraphError::NodeNotFound,
    ;

    /// The largest id that a node can have.
    fn max_possible_id(&self) -> (r: usize)
        ensures
            r == usize::MAX,
    ;
}

} // verus!
