pub mod convert;
pub mod graph_map;
pub mod static_graph;

pub use self::graph_map::graph::{
    DiGraphMap, GraphMap, TypedDiGraphMap, TypedGraphMap, TypedUnGraphMap, UnGraphMap,
};
pub use self::graph_map::{Edge, NodeMap};
pub use self::static_graph::graph::{
    DiStaticGraph, StaticGraph, TypedDiStaticGraph, TypedStaticGraph, TypedUnStaticGraph,
    UnStaticGraph,
};
pub use self::static_graph::EdgeVec;
