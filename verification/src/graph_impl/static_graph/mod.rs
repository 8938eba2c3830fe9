pub mod edge_vec;
pub mod graph;
pub mod mmap;
pub mod node;

pub use self::edge_vec::EdgeVec;
pub use self::graph::{
    DiStaticGraph, StaticGraph, TypedDiStaticGraph, TypedStaticGraph, TypedUnStaticGraph,
    UnStaticGraph,
};
pub use self::node::StaticNode;
pub use self::mmap::{EdgeVecBlobs, StaticGraphBlobs, StaticGraphMmapAux};
