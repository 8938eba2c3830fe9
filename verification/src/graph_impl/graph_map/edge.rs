use vstd::prelude::*;

use crate::graph_impl::static_graph::edge_vec::{label_at, END};

verus! {

/// What an edge record holds.
pub struct EdgeView {
    pub start: usize,
    pub target: usize,
    pub label: Option<usize>,
}

/// An edge record: its two endpoints and the id of its label, if it has one.
#[derive(Debug, PartialEq, Eq, Clone, Copy)]
pub struct Edge {
    start: usize,
    target: usize,
    label: Option<usize>,
}

impl View for Edge {
    type V = EdgeView;

    closed spec fn view(&self) -> EdgeView {
        EdgeView { start: self.start, target: self.target, label: self.label }
    }
}

impl Edge {
    pub fn new(start: usize, target: usize, label: Option<usize>) -> (r: Self)
        ensures
            r@ == (EdgeView { start, target, label }),
    {
        Edge { start, target, label }
    }

    /// An edge from what a label array holds for it: the sentinel stands for
    /// no label.
    pub fn new_static(start: usize, target: usize, label: usize) -> (r: Self)
        ensures
            r@ == (EdgeView { start, target, label: label_at(label) }),
    {
        Edge {
            start,
            target,
            label: if label == END {
                None
            } else {
                Some(label)
            },
        }
    }

    pub fn get_start(&self) -> (r: usize)
        ensures
            r == self@.start,
    {
        self.start
    }

    pub fn get_target(&self) -> (r: usize)
        ensures
            r == self@.target,
    {
        self.target
    }

    pub fn get_label(&self) -> (r: Option<usize>)
        ensures
            r == self@.label,
    {
        self.label
    }

    /// Gives the edge the label with id `label`.
    pub fn set_label(&mut self, label: usize)
        ensures
            final(self)@ == (EdgeView { label: Some(label), ..old(self)@ }),
    {
        self.label = Some(label);
    }

    /// Replaces the label id, or takes the label away.
    pub fn set_label_id(&mut self, label: Option<usize>)
        ensures
            final(self)@ == (EdgeView { label, ..old(self)@ }),
    {
        self.label = label;
    }
}

} // verus!
