pub mod edge;
pub mod graph;
pub mod label;
pub mod node;
pub mod view;

pub use self::edge::Edge;
pub use self::node::NodeMap;
pub use self::view::GraphView;
