pub mod graph;
pub mod map;

pub use self::graph::{Directed, GraphError, GraphTrait, GraphType, Undirected};
pub use self::map::{MapTrait, MutMapTrait};
