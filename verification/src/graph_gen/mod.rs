pub mod general;
pub mod helper;

pub use self::general::{
    complete_graph, complete_graph_unlabeled, empty_graph, empty_graph_unlabeled,
};
pub use self::helper::{complete_edge_pairs, random_edge_label, random_node_label};
