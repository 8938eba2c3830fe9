use vstd::prelude::*;

use crate::converter::graph::{converts, ConverterView, TypedStaticGraphConverter};
use crate::generic::graph::{Directed, GraphType, Undirected};
use crate::graph_impl::graph_map::graph::{GraphView, TypedGraphMap};
use crate::graph_impl::static_graph::graph::{StaticGraphView, TypedStaticGraph};

verus! {

/// Whether `s` is the compact graph that converting `g` yields.
pub open spec fn converted(g: GraphView, s: StaticGraphView) -> bool {
    exists|c: ConverterView| converts(g, c) && c.graph == s
}

/// The compact graph of the mutable graph `g`, without the tables that say
/// how nodes and labels were renumbered.
pub fn to_static<Ty: GraphType>(g: &TypedGraphMap<Ty>) -> (r: TypedStaticGraph<Ty>)
    requires
        g.wf(),
    ensures
        r.wf(),
        converted(g@, r@),
{
    let converter = TypedStaticGraphConverter::new(g);
    let ghost c = converter@;
    let r = converter.into_graph();
    assert(converts(g@, c) && c.graph == r@);
    r
}

impl TypedStaticGraph<Undirected> {
    /// The compact graph of the undirected mutable graph `g`.
    pub fn from(g: TypedGraphMap<Undirected>) -> (r: Self)
        requires
            g.wf(),
        ensures
            r.wf(),
            converted(g@, r@),
    {
        to_static(&g)
    }
}

impl TypedStaticGraph<Directed> {
    /// The compact graph of the directed mutable graph `g`.
    pub fn from(g: TypedGraphMap<Directed>) -> (r: Self)
        requires
            g.wf(),
        ensures
            r.wf(),
            converted(g@, r@),
    {
        to_static(&g)
    }
}

} // verus!
