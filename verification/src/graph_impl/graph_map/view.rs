use vstd::prelude::*;

use crate::generic::map::{
    interned, lemma_interned_distinct, lemma_interned_position, position_after,
};
use crate::graph_impl::graph_map::node::{strictly_increasing, NodeView};

verus! {

/// What a label handed to the graph holds, if one was handed over.
pub open spec fn label_text(label: Option<String>) -> Option<Seq<char>> {
    match label {
        Some(l) => Some(l@),
        None => None,
    }
}

/// The larger of a recorded maximum and a newly seen id.
pub open spec fn raised(max_id: Option<usize>, id: usize) -> Option<usize> {
    match max_id {
        Some(m) => if m < id {
            Some(id)
        } else {
            Some(m)
        },
        None => Some(id),
    }
}

/// The id that interning `label` into `labels` gives it, if there is a label.
pub open spec fn label_id_after(labels: Seq<Seq<char>>, label: Option<Seq<char>>) -> Option<usize> {
    match label {
        Some(l) => Some(position_after(labels, l) as usize),
        None => None,
    }
}

/// The interner's contents after `label`, if there is one, has been interned.
pub open spec fn labels_after(labels: Seq<Seq<char>>, label: Option<Seq<char>>) -> Seq<Seq<char>> {
    match label {
        Some(l) => interned(labels, l),
        None => labels,
    }
}

/// The mathematical content of a mutable graph.
pub struct GraphView {
    /// Whether edges have a direction.
    pub directed: bool,
    /// The label id of each node, by node id.
    pub nodes: Map<usize, Option<usize>>,
    /// The label id of each edge, by edge key. The key of an undirected edge
    /// names its smaller endpoint first.
    pub edges: Map<(usize, usize), Option<usize>>,
    /// The interned node labels, by label id.
    pub node_labels: Seq<Seq<char>>,
    /// The interned edge labels, by label id.
    pub edge_labels: Seq<Seq<char>>,
    /// The largest node id ever inserted.
    pub max_id: Option<usize>,
}

impl GraphView {
    /// The key under which the edge between `start` and `target` is kept.
    pub open spec fn key(self, start: usize, target: usize) -> (usize, usize) {
        if !self.directed && start > target {
            (target, start)
        } else {
            (start, target)
        }
    }

    pub open spec fn has_node(self, id: usize) -> bool {
        self.nodes.contains_key(id)
    }

    pub open spec fn has_edge(self, start: usize, target: usize) -> bool {
        self.edges.contains_key(self.key(start, target))
    }

    /// The nodes that an edge leads to from `id`.
    pub open spec fn neighbors(self, id: usize) -> Set<usize> {
        Set::new(|v: usize| self.has_edge(id, v))
    }

    /// The nodes from which an edge leads to `id`, in a directed graph.
    pub open spec fn in_neighbors(self, id: usize) -> Set<usize> {
        Set::new(|w: usize| self.directed && self.has_edge(w, id))
    }

    /// Whether `key` names `id` as one of its endpoints.
    pub open spec fn touches(key: (usize, usize), id: usize) -> bool {
        key.0 == id || key.1 == id
    }

    /// The bookkeeping rules of the graph: edges join nodes that exist, an
    /// undirected edge is kept under one key only, label ids are in use, and
    /// no node id exceeds the recorded maximum.
    pub open spec fn valid(self) -> bool {
        &&& self.nodes.dom().finite()
        &&& self.edges.dom().finite()
        &&& self.node_labels.no_duplicates()
        &&& self.edge_labels.no_duplicates()
        &&& forall|id: usize| #[trigger]
            self.nodes.contains_key(id) ==> {
                &&& self.max_id is Some
                &&& id <= self.max_id->0
                &&& self.nodes[id] is Some ==> self.nodes[id]->0 < self.node_labels.len()
            }
        &&& forall|k: (usize, usize)| #[trigger]
            self.edges.contains_key(k) ==> {
                &&& self.nodes.contains_key(k.0)
                &&& self.nodes.contains_key(k.1)
                &&& !self.directed ==> k.0 <= k.1
                &&& self.edges[k] is Some ==> self.edges[k]->0 < self.edge_labels.len()
            }
    }

    /// The graph with node `id` present: unchanged if it was, else with a
    /// new unlabelled node.
    pub open spec fn with_node(self, id: usize) -> GraphView {
        if self.nodes.contains_key(id) {
            self
        } else {
            GraphView { nodes: self.nodes.insert(id, None), max_id: raised(self.max_id, id), ..self }
        }
    }

    /// The graph after `add_node(id, label)`.
    pub open spec fn add_node(self, id: usize, label: Option<Seq<char>>) -> GraphView {
        GraphView {
            nodes: self.nodes.insert(id, label_id_after(self.node_labels, label)),
            node_labels: labels_after(self.node_labels, label),
            max_id: if self.nodes.contains_key(id) {
                self.max_id
            } else {
                raised(self.max_id, id)
            },
            ..self
        }
    }

    /// The graph after `add_edge(start, target, label)`.
    pub open spec fn add_edge(self, start: usize, target: usize, label: Option<Seq<char>>) -> GraphView {
        let k = self.key(start, target);
        let g = if self.edges.contains_key(k) {
            self
        } else {
            self.with_node(k.0).with_node(k.1)
        };
        GraphView {
            edges: g.edges.insert(k, label_id_after(self.edge_labels, label)),
            edge_labels: labels_after(self.edge_labels, label),
            ..g
        }
    }

    /// The graph after `remove_edge(start, target)`.
    pub open spec fn remove_edge(self, start: usize, target: usize) -> GraphView {
        GraphView { edges: self.edges.remove(self.key(start, target)), ..self }
    }

    /// The graph after `remove_node(id)`: the node is gone, and with it every
    /// edge that has it as an endpoint.
    pub open spec fn remove_node(self, id: usize) -> GraphView {
        GraphView {
            nodes: self.nodes.remove(id),
            edges: self.edges.remove_keys(Set::new(|k: (usize, usize)| Self::touches(k, id))),
            ..self
        }
    }

    /// Whether the record `n` is what the graph holds of node `n.id`.
    pub open spec fn describes(self, n: NodeView) -> bool {
        &&& self.nodes.contains_key(n.id)
        &&& self.nodes[n.id] == n.label
        &&& strictly_increasing(n.neighbors)
        &&& strictly_increasing(n.in_neighbors)
        &&& n.neighbors.to_set() == self.neighbors(n.id)
        &&& n.in_neighbors.to_set() == self.in_neighbors(n.id)
    }
}

/// How many of `items` carry the label id `label`.
pub open spec fn tally<A>(items: Seq<A>, label_of: spec_fn(A) -> Option<usize>, label: usize) -> nat
    decreases items.len(),
{
    if items.len() == 0 {
        0
    } else {
        tally(items.drop_last(), label_of, label) + if label_of(items.last()) == Some(label) {
            1nat
        } else {
            0nat
        }
    }
}

/// A tally over a list without repetition counts the members of a set: the
/// listed items that carry the label.
pub proof fn lemma_tally_counts_set<A>(
    items: Seq<A>,
    label_of: spec_fn(A) -> Option<usize>,
    label: usize,
)
    requires
        items.no_duplicates(),
    ensures
        items.to_set().filter(|x: A| label_of(x) == Some(label)).finite(),
        tally(items, label_of, label) == items.to_set().filter(
            |x: A| label_of(x) == Some(label),
        ).len(),
        tally(items, label_of, label) <= items.len(),
    decreases items.len(),
{
    let pred = |x: A| label_of(x) == Some(label);
    if items.len() == 0 {
        assert(items.to_set() =~= Set::<A>::empty());
        assert(items.to_set().filter(pred) =~= Set::<A>::empty());
    } else {
        let init = items.drop_last();
        let last = items.last();
        lemma_tally_counts_set(init, label_of, label);
        assert forall|x: A| items.to_set().contains(x) <==> init.to_set().insert(last).contains(
            x,
        ) by {
            if items.to_set().contains(x) {
                let j = choose|j: int| 0 <= j < items.len() && items[j] == x;
                if j < init.len() {
                    assert(init[j] == x);
                }
            }
            if init.to_set().contains(x) {
                let j = choose|j: int| 0 <= j < init.len() && init[j] == x;
                assert(items[j] == x);
            }
            if x == last {
                assert(items[items.len() - 1] == x);
            }
        }
        assert(items.to_set() =~= init.to_set().insert(last));
        assert(!init.to_set().contains(last)) by {
            if init.to_set().contains(last) {
                let j = choose|j: int| 0 <= j < init.len() && init[j] == last;
                assert(items[j] == items[items.len() - 1]);
            }
        }
        if pred(last) {
            assert(items.to_set().filter(pred) =~= init.to_set().filter(pred).insert(last));
        } else {
            assert(items.to_set().filter(pred) =~= init.to_set().filter(pred));
        }
    }
}

impl GraphView {
    /// How many nodes carry the node label with id `label`.
    pub open spec fn node_label_frequency(self, label: usize) -> nat {
        self.nodes.dom().filter(|id: usize| self.nodes[id] == Some(label)).len()
    }

    /// How many edges carry the edge label with id `label`.
    pub open spec fn edge_label_frequency(self, label: usize) -> nat {
        self.edges.dom().filter(|k: (usize, usize)| self.edges[k] == Some(label)).len()
    }
}

/// In an undirected graph the two ways of naming an edge are one: they give
/// the same key, find the same edge, and adding the edge either way gives
/// the same graph.
pub proof fn lemma_undirected_symmetric(g: GraphView, a: usize, b: usize, label: Option<Seq<char>>)
    requires
        !g.directed,
    ensures
        g.key(a, b) == g.key(b, a),
        g.has_edge(a, b) == g.has_edge(b, a),
        g.add_edge(a, b, label) == g.add_edge(b, a, label),
        g.remove_edge(a, b) == g.remove_edge(b, a),
        g.neighbors(a).contains(b) == g.neighbors(b).contains(a),
{
}

/// After a node has been removed nothing in the graph refers to it: it is
/// no node, no edge has it as an endpoint, and it is in no node's
/// neighbourhood, in either direction. All else stays, the recorded maximum
/// id too.
pub proof fn lemma_remove_node_leaves_no_reference(g: GraphView, id: usize)
    requires
        g.valid(),
    ensures
        g.remove_node(id).valid(),
        !g.remove_node(id).has_node(id),
        forall|k: (usize, usize)| #[trigger]
            g.remove_node(id).edges.contains_key(k) ==> k.0 != id && k.1 != id,
        forall|u: usize|
            !(#[trigger] g.remove_node(id).neighbors(u)).contains(id) && !g.remove_node(
                id,
            ).in_neighbors(u).contains(id),
        g.remove_node(id).neighbors(id) == Set::<usize>::empty(),
        g.remove_node(id).in_neighbors(id) == Set::<usize>::empty(),
        forall|u: usize| u != id ==> (g.remove_node(id).has_node(u) <==> g.has_node(u)),
        forall|k: (usize, usize)|
            k.0 != id && k.1 != id ==> (#[trigger] g.remove_node(id).edges.contains_key(k)
                <==> g.edges.contains_key(k)),
        g.remove_node(id).max_id == g.max_id,
{
    let h = g.remove_node(id);
    assert(h.neighbors(id) =~= Set::<usize>::empty());
    assert(h.in_neighbors(id) =~= Set::<usize>::empty());
    assert(h.edges.dom().subset_of(g.edges.dom()));
    vstd::set_lib::lemma_len_subset(h.edges.dom(), g.edges.dom());
    assert forall|k: (usize, usize)| #[trigger] h.edges.contains_key(k) implies {
        &&& h.nodes.contains_key(k.0)
        &&& h.nodes.contains_key(k.1)
        &&& !h.directed ==> k.0 <= k.1
        &&& h.edges[k] is Some ==> h.edges[k]->0 < h.edge_labels.len()
    } by {
        assert(g.edges.contains_key(k));
    }
    assert forall|x: usize| #[trigger] h.nodes.contains_key(x) implies {
        &&& h.max_id is Some
        &&& x <= h.max_id->0
        &&& h.nodes[x] is Some ==> h.nodes[x]->0 < h.node_labels.len()
    } by {
        assert(g.nodes.contains_key(x));
    }
}

/// The recorded maximum id never goes down: whatever is added or removed, a
/// maximum that was recorded stays or is raised.
pub proof fn lemma_max_id_never_lowered(
    g: GraphView,
    id: usize,
    start: usize,
    target: usize,
    label: Option<Seq<char>>,
)
    ensures
        not_lowered(g.max_id, g.add_node(id, label).max_id),
        not_lowered(g.max_id, g.add_edge(start, target, label).max_id),
        g.remove_node(id).max_id == g.max_id,
        g.remove_edge(start, target).max_id == g.max_id,
        !g.has_node(id) ==> g.add_node(id, label).max_id is Some && g.add_node(id, label).max_id->0
            >= id,
{
}

/// Whether the maximum `after` is at least the maximum `before`.
pub open spec fn not_lowered(before: Option<usize>, after: Option<usize>) -> bool {
    before is Some ==> after is Some && after->0 >= before->0
}

/// Adding nodes and edges and removing edges keeps the bookkeeping rules.
pub proof fn lemma_changes_keep_valid(
    g: GraphView,
    id: usize,
    start: usize,
    target: usize,
    label: Option<Seq<char>>,
)
    requires
        g.valid(),
    ensures
        g.add_node(id, label).valid(),
        g.add_edge(start, target, label).valid(),
        g.remove_edge(start, target).valid(),
{
    if label is Some {
        lemma_interned_distinct(g.node_labels, label->0);
        lemma_interned_position(g.node_labels, label->0);
        lemma_interned_distinct(g.edge_labels, label->0);
        lemma_interned_position(g.edge_labels, label->0);
    }
    let a = g.add_node(id, label);
    assert forall|x: usize| #[trigger] a.nodes.contains_key(x) implies {
        &&& a.max_id is Some
        &&& x <= a.max_id->0
        &&& a.nodes[x] is Some ==> a.nodes[x]->0 < a.node_labels.len()
    } by {
        if x != id {
            assert(g.nodes.contains_key(x));
        }
    }
    assert forall|k: (usize, usize)| #[trigger] a.edges.contains_key(k) implies {
        &&& a.nodes.contains_key(k.0)
        &&& a.nodes.contains_key(k.1)
        &&& !a.directed ==> k.0 <= k.1
        &&& a.edges[k] is Some ==> a.edges[k]->0 < a.edge_labels.len()
    } by {
        assert(g.edges.contains_key(k));
    }
    let key = g.key(start, target);
    let e = g.add_edge(start, target, label);
    assert forall|x: usize| #[trigger] e.nodes.contains_key(x) implies {
        &&& e.max_id is Some
        &&& x <= e.max_id->0
        &&& e.nodes[x] is Some ==> e.nodes[x]->0 < e.node_labels.len()
    } by {
        if g.edges.contains_key(key) {
            assert(g.nodes.contains_key(x));
        } else if x != key.0 && x != key.1 {
            assert(g.nodes.contains_key(x));
        } else if g.nodes.contains_key(x) {
        }
    }
    assert forall|k: (usize, usize)| #[trigger] e.edges.contains_key(k) implies {
        &&& e.nodes.contains_key(k.0)
        &&& e.nodes.contains_key(k.1)
        &&& !e.directed ==> k.0 <= k.1
        &&& e.edges[k] is Some ==> e.edges[k]->0 < e.edge_labels.len()
    } by {
        if k != key {
            assert(g.edges.contains_key(k));
        } else if g.edges.contains_key(key) {
        }
    }
    let r = g.remove_edge(start, target);
    assert forall|k: (usize, usize)| #[trigger] r.edges.contains_key(k) implies {
        &&& r.nodes.contains_key(k.0)
        &&& r.nodes.contains_key(k.1)
        &&& !r.directed ==> k.0 <= k.1
        &&& r.edges[k] is Some ==> r.edges[k]->0 < r.edge_labels.len()
    } by {
        assert(g.edges.contains_key(k));
    }
}

} // verus!
