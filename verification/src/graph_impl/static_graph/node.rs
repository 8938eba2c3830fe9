use vstd::prelude::*;

use crate::graph_impl::static_graph::edge_vec::{label_at, END};

verus! {

/// A node of the compact graph: its id and the id of its label, if it has
/// one.
#[derive(Debug, PartialEq, Eq, Clone, Copy)]
pub struct StaticNode {
    pub id: usize,
    pub label: Option<usize>,
}

impl StaticNode {
    pub fn new(id: usize, label: Option<usize>) -> (r: Self)
        ensures
            r == (StaticNode { id, label }),
    {
        StaticNode { id, label }
    }

    /// A node from what a label array holds for it: the sentinel stands for
    /// no label.
    pub fn new_static(id: usize, label: usize) -> (r: Self)
        ensures
            r == (StaticNode { id, label: label_at(label) }),
    {
        StaticNode {
            id,
            label: if label == END {
                None
            } else {
                Some(label)
            },
        }
    }

    pub fn get_id(&self) -> (r: usize)
        ensures
            r == self.id,
    {
        self.id
    }

    pub fn get_label_id(&self) -> (r: Option<usize>)
        ensures
            r == self.label,
    {
        self.label
    }
}

} // verus!
