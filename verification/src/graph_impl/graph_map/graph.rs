use std::collections::HashMap;
use std::marker::PhantomData;

use vstd::prelude::*;

use crate::generic::graph::{Directed, GraphError, GraphTrait, GraphType, Undirected};
use crate::generic::map::{MapTrait, MutMapTrait};
use crate::graph_impl::graph_map::edge::{Edge, EdgeView};
use crate::graph_impl::graph_map::node::{
    lemma_increasing_distinct, strictly_increasing, NodeMap,
};
use crate::map::set_map::SetMap;

pub use crate::graph_impl::graph_map::view::{
    label_id_after, label_text, labels_after, raised, tally, GraphView,
};
use crate::graph_impl::graph_map::view::lemma_tally_counts_set;

verus! {

broadcast use vstd::std_specs::hash::group_hash_axioms;

pub type TypedDiGraphMap = TypedGraphMap<Directed>;

pub type TypedUnGraphMap = TypedGraphMap<Undirected>;

pub type GraphMap<Ty> = TypedGraphMap<Ty>;

/// A directed graph with string labels.
pub type DiGraphMap = TypedGraphMap<Directed>;

/// An undirected graph with string labels.
pub type UnGraphMap = TypedGraphMap<Undirected>;

/// The storage key of the edge whose key is `(start, target)`: both ids in
/// one integer.
spec fn edge_key(start: usize, target: usize) -> u128 {
    (start as u128 * 0x1_0000_0000_0000_0000u128 + target as u128) as u128
}

/// Different edge keys have different storage keys.
proof fn lemma_edge_key_injective(a: usize, b: usize, c: usize, d: usize)
    ensures
        edge_key(a, b) == edge_key(c, d) <==> (a == c && b == d),
{
    assert(usize::MAX <= 0xffff_ffff_ffff_ffff);
}

fn make_key(start: usize, target: usize) -> (k: u128)
    ensures
        k == edge_key(start, target),
{
    assert(usize::MAX <= 0xffff_ffff_ffff_ffff);
    (start as u128) * 0x1_0000_0000_0000_0000u128 + (target as u128)
}

/// The storage key of the edge between `u` and `v`.
spec fn link_key(directed: bool, u: usize, v: usize) -> u128 {
    if !directed && u > v {
        edge_key(v, u)
    } else {
        edge_key(u, v)
    }
}

/// `HashMap::shrink_to_fit`: the map keeps what it holds.
#[verifier::external_body]
fn shrink_map<K: Eq + std::hash::Hash, V>(m: &mut HashMap<K, V>)
    ensures
        final(m)@ == old(m)@,
{
    m.shrink_to_fit();
}

/// A graph whose nodes and edges are kept in hash maps, for building and
/// editing. `Ty` says whether its edges have a direction.
#[derive(Debug, PartialEq, Eq)]
pub struct TypedGraphMap<Ty: GraphType> {
    /// The node records by node id.
    node_map: HashMap<usize, NodeMap>,
    /// The edge records by storage key.
    edge_map: HashMap<u128, Edge>,
    /// The node labels.
    node_label_map: SetMap,
    /// The edge labels.
    edge_label_map: SetMap,
    /// The largest node id ever inserted.
    max_id: Option<usize>,
    graph_type: PhantomData<Ty>,
}

/// The record of node `id` agrees with the edge records.
spec fn node_ok(
    nodes: Map<usize, NodeMap>,
    edges: Map<u128, Edge>,
    directed: bool,
    id: usize,
) -> bool {
    let n = nodes[id];
    &&& n.wf()
    &&& n@.id == id
    &&& forall|v: usize| #[trigger]
        n@.neighbors.contains(v) <==> edges.contains_key(link_key(directed, id, v))
    &&& forall|w: usize| #[trigger]
        n@.in_neighbors.contains(w) <==> (directed && edges.contains_key(edge_key(w, id)))
}

/// The edge record stored under `k` is stored under its own key and joins
/// nodes that exist.
spec fn edge_ok(
    nodes: Map<usize, NodeMap>,
    edges: Map<u128, Edge>,
    directed: bool,
    k: u128,
) -> bool {
    let e = edges[k]@;
    &&& k == edge_key(e.start, e.target)
    &&& nodes.contains_key(e.start)
    &&& nodes.contains_key(e.target)
    &&& !directed ==> e.start <= e.target
}

/// Node records and edge records agree with each other.
spec fn consistent(nodes: Map<usize, NodeMap>, edges: Map<u128, Edge>, directed: bool) -> bool {
    &&& forall|id: usize| #[trigger] nodes.contains_key(id) ==> node_ok(nodes, edges, directed, id)
    &&& forall|k: u128| #[trigger] edges.contains_key(k) ==> edge_ok(nodes, edges, directed, k)
}

impl<Ty: GraphType> View for TypedGraphMap<Ty> {
    type V = GraphView;

    closed spec fn view(&self) -> GraphView {
        GraphView {
            directed: Ty::directed(),
            nodes: Map::new(
                |id: usize| self.node_map@.contains_key(id),
                |id: usize| self.node_map@[id]@.label,
            ),
            edges: Map::new(
                |k: (usize, usize)| self.edge_map@.contains_key(edge_key(k.0, k.1)),
                |k: (usize, usize)| self.edge_map@[edge_key(k.0, k.1)]@.label,
            ),
            node_labels: self.node_label_map@,
            edge_labels: self.edge_label_map@,
            max_id: self.max_id,
        }
    }
}

impl<Ty: GraphType> TypedGraphMap<Ty> {
    /// The representation is sound: the records agree with each other and
    /// the content obeys the graph's bookkeeping rules.
    pub closed spec fn wf(&self) -> bool {
        &&& consistent(self.node_map@, self.edge_map@, Ty::directed())
        &&& self.node_label_map.wf()
        &&& self.edge_label_map.wf()
        &&& forall|id: usize| #[trigger]
            self.node_map@.contains_key(id) ==> {
                &&& self.max_id is Some
                &&& id <= self.max_id->0
                &&& self.node_map@[id]@.label is Some ==> self.node_map@[id]@.label->0
                    < self.node_label_map@.len()
            }
        &&& forall|k: u128| #[trigger]
            self.edge_map@.contains_key(k) ==> (self.edge_map@[k]@.label is Some
                ==> self.edge_map@[k]@.label->0 < self.edge_label_map@.len())
    }

    /// An empty graph.
    pub fn new() -> (r: Self)
        ensures
            r.wf(),
            r@ == (GraphView {
                directed: Ty::directed(),
                nodes: Map::empty(),
                edges: Map::empty(),
                node_labels: Seq::empty(),
                edge_labels: Seq::empty(),
                max_id: None,
            }),
    {
        let r = TypedGraphMap {
            node_map: HashMap::new(),
            edge_map: HashMap::new(),
            node_label_map: SetMap::new(),
            edge_label_map: SetMap::new(),
            max_id: None,
            graph_type: PhantomData,
        };
        proof {
            assert(r@.nodes =~= Map::empty());
            assert(r@.edges =~= Map::empty());
        }
        r
    }
}

impl<Ty: GraphType> TypedGraphMap<Ty> {
    /// The edge keys of the content are the stored edge records, one for
    /// one.
    proof fn lemma_edge_keys(&self)
        requires
            self.wf(),
        ensures
            self@.edges.dom().finite(),
            self@.edges.dom().len() == self.edge_map@.dom().len(),
    {
        let raw = self.edge_map@;
        let f = |k: u128| (raw[k]@.start, raw[k]@.target);
        assert forall|a: u128, b: u128|
            raw.dom().contains(a) && raw.dom().contains(b) && #[trigger] f(a) == #[trigger] f(
                b,
            ) implies a == b by {
            assert(raw.contains_key(a) && raw.contains_key(b));
            assert(edge_ok(self.node_map@, raw, Ty::directed(), a));
            assert(edge_ok(self.node_map@, raw, Ty::directed(), b));
        }
        assert forall|p: (usize, usize)| raw.dom().map(f).contains(p) <==> self@.edges.dom().contains(
            p,
        ) by {
            if raw.dom().map(f).contains(p) {
                let k = choose|k: u128| raw.dom().contains(k) && f(k) == p;
                assert(raw.contains_key(k));
                assert(edge_ok(self.node_map@, raw, Ty::directed(), k));
            }
            if self@.edges.dom().contains(p) {
                let k = edge_key(p.0, p.1);
                assert(raw.contains_key(k));
                assert(edge_ok(self.node_map@, raw, Ty::directed(), k));
                lemma_edge_key_injective(p.0, p.1, raw[k]@.start, raw[k]@.target);
                assert(raw.dom().contains(k) && f(k) == p);
            }
        }
        assert(raw.dom().map(f) =~= self@.edges.dom());
        vstd::set_lib::lemma_map_size(raw.dom(), self@.edges.dom(), f);
    }

    /// A sound representation holds a content that obeys the bookkeeping
    /// rules.
    pub proof fn lemma_wf_valid(&self)
        requires
            self.wf(),
        ensures
            self@.valid(),
            self@.directed == Ty::directed(),
    {
        self.lemma_edge_keys();
        let g = self@;
        assert(g.nodes.dom() =~= self.node_map@.dom());
        assert forall|k: (usize, usize)| #[trigger] g.edges.contains_key(k) implies {
            &&& g.nodes.contains_key(k.0)
            &&& g.nodes.contains_key(k.1)
            &&& !g.directed ==> k.0 <= k.1
            &&& g.edges[k] is Some ==> g.edges[k]->0 < g.edge_labels.len()
        } by {
            let raw = edge_key(k.0, k.1);
            assert(self.edge_map@.contains_key(raw));
            assert(edge_ok(self.node_map@, self.edge_map@, Ty::directed(), raw));
            lemma_edge_key_injective(
                k.0,
                k.1,
                self.edge_map@[raw]@.start,
                self.edge_map@[raw]@.target,
            );
        }
        assert forall|id: usize| #[trigger] g.nodes.contains_key(id) implies {
            &&& g.max_id is Some
            &&& id <= g.max_id->0
            &&& g.nodes[id] is Some ==> g.nodes[id]->0 < g.node_labels.len()
        } by {
            assert(self.node_map@.contains_key(id));
        }
    }

    /// Whether the graph holds node `id`.
    pub fn has_node(&self, id: usize) -> (r: bool)
        ensures
            r == self@.has_node(id),
    {
        self.node_map.contains_key(&id)
    }

    /// Whether the graph holds the edge from `start` to `target`; in an
    /// undirected graph, the edge between the two.
    pub fn has_edge(&self, start: usize, target: usize) -> (r: bool)
        ensures
            r == self@.has_edge(start, target),
    {
        let (start, target) = self.swap_edge(start, target);
        let k = make_key(start, target);
        self.edge_map.contains_key(&k)
    }

    /// The key under which the edge between `start` and `target` is kept:
    /// in an undirected graph the smaller id comes first.
    fn swap_edge(&self, start: usize, target: usize) -> (r: (usize, usize))
        ensures
            r == self@.key(start, target),
    {
        if !Ty::is_directed() && start > target {
            return (target, start);
        }
        (start, target)
    }

    pub fn is_directed(&self) -> (r: bool)
        ensures
            r == self@.directed,
            r == Ty::directed(),
    {
        Ty::is_directed()
    }

    pub fn node_count(&self) -> (r: usize)
        ensures
            r == self@.nodes.dom().len(),
    {
        proof {
            assert(self@.nodes.dom() =~= self.node_map@.dom());
        }
        self.node_map.len()
    }

    pub fn edge_count(&self) -> (r: usize)
        requires
            self.wf(),
        ensures
            r == self@.edges.dom().len(),
    {
        proof {
            self.lemma_edge_keys();
        }
        self.edge_map.len()
    }

    /// The largest node id ever inserted; removals do not lower it.
    pub fn max_seen_id(&self) -> (r: Option<usize>)
        ensures
            r == self@.max_id,
    {
        self.max_id
    }

    /// The largest id that a node can have.
    pub fn max_possible_id(&self) -> (r: usize)
        ensures
            r == usize::MAX,
    {
        usize::MAX
    }

    pub fn get_node_label_map(&self) -> (r: &SetMap)
        ensures
            r@ == self@.node_labels,
            self.wf() ==> r.wf(),
    {
        &self.node_label_map
    }

    pub fn get_edge_label_map(&self) -> (r: &SetMap)
        ensures
            r@ == self@.edge_labels,
            self.wf() ==> r.wf(),
    {
        &self.edge_label_map
    }

    /// The record of node `id`, if the graph holds the node.
    pub fn get_node(&self, id: usize) -> (r: Option<&NodeMap>)
        requires
            self.wf(),
        ensures
            r is Some <==> self@.has_node(id),
            r is Some ==> r->0@.id == id && self@.describes(r->0@),
    {
        let r = self.node_map.get(&id);
        proof {
            if r is Some {
                self.lemma_describes(id);
            }
        }
        r
    }

    /// The record of every node agrees with the content.
    proof fn lemma_describes(&self, id: usize)
        requires
            self.wf(),
            self.node_map@.contains_key(id),
        ensures
            self.node_map@[id]@.id == id,
            self@.describes(self.node_map@[id]@),
    {
        let n = self.node_map@[id]@;
        let g = self@;
        assert(node_ok(self.node_map@, self.edge_map@, Ty::directed(), id));
        assert forall|v: usize| n.neighbors.to_set().contains(v) <==> g.neighbors(id).contains(
            v,
        ) by {
            assert(n.neighbors.to_set().contains(v) <==> n.neighbors.contains(v));
        }
        assert(n.neighbors.to_set() =~= g.neighbors(id));
        assert forall|w: usize| n.in_neighbors.to_set().contains(w) <==> g.in_neighbors(
            id,
        ).contains(w) by {
            assert(n.in_neighbors.to_set().contains(w) <==> n.in_neighbors.contains(w));
        }
        assert(n.in_neighbors.to_set() =~= g.in_neighbors(id));
    }

    /// The record of the edge from `start` to `target`, if the graph holds
    /// the edge.
    pub fn get_edge(&self, start: usize, target: usize) -> (r: Option<&Edge>)
        requires
            self.wf(),
        ensures
            r is Some <==> self@.has_edge(start, target),
            r is Some ==> r->0@ == (EdgeView {
                start: self@.key(start, target).0,
                target: self@.key(start, target).1,
                label: self@.edges[self@.key(start, target)],
            }),
    {
        let (start, target) = self.swap_edge(start, target);
        let k = make_key(start, target);
        let r = self.edge_map.get(&k);
        proof {
            if r is Some {
                assert(self.edge_map@.contains_key(k));
                assert(edge_ok(self.node_map@, self.edge_map@, Ty::directed(), k));
                lemma_edge_key_injective(start, target, r->0@.start, r->0@.target);
            }
        }
        r
    }
}

/// Interns `label`, if there is one, and returns its id.
fn intern_label(labels: &mut SetMap, label: Option<String>) -> (r: Option<usize>)
    requires
        old(labels).wf(),
    ensures
        final(labels).wf(),
        final(labels)@ == labels_after(old(labels)@, label_text(label)),
        r == label_id_after(old(labels)@, label_text(label)),
        r is Some ==> r->0 < final(labels)@.len(),
        old(labels)@.len() <= final(labels)@.len(),
{
    match label {
        Some(x) => {
            proof {
                crate::generic::map::lemma_interned_position(labels@, x@);
            }
            Some(labels.add_item(x))
        },
        None => None,
    }
}

/// No stored edge has an endpoint outside the stored nodes.
proof fn lemma_no_edge_without_node(
    nodes: Map<usize, NodeMap>,
    edges: Map<u128, Edge>,
    directed: bool,
    a: usize,
    b: usize,
)
    requires
        consistent(nodes, edges, directed),
        edges.contains_key(edge_key(a, b)),
    ensures
        nodes.contains_key(a),
        nodes.contains_key(b),
        !directed ==> a <= b,
        edges[edge_key(a, b)]@.start == a,
        edges[edge_key(a, b)]@.target == b,
{
    let k = edge_key(a, b);
    assert(edge_ok(nodes, edges, directed, k));
    lemma_edge_key_injective(a, b, edges[k]@.start, edges[k]@.target);
}

impl<Ty: GraphType> TypedGraphMap<Ty> {
    /// Adds node `id` with `label`. If the graph holds the node already, the
    /// node gets the new label in place of the one it had, and `false` comes
    /// back; otherwise the node is inserted and `true` comes back. A label
    /// is interned either way.
    pub fn add_node(&mut self, id: usize, label: Option<String>) -> (r: bool)
        requires
            old(self).wf(),
        ensures
            final(self).wf(),
            final(self)@ == old(self)@.add_node(id, label_text(label)),
            r == !old(self)@.has_node(id),
    {
        let ghost g = self@;
        let ghost nodes = self.node_map@;
        let ghost edges = self.edge_map@;
        let ghost directed = Ty::directed();
        let label_id = intern_label(&mut self.node_label_map, label);
        let existing = self.node_map.remove(&id);
        let r = match existing {
            Some(mut node) => {
                proof {
                    assert(nodes.contains_key(id));
                    assert(node_ok(nodes, edges, directed, id));
                }
                node.set_label_id(label_id);
                self.node_map.insert(id, node);
                false
            },
            None => {
                let node = NodeMap::new(id, label_id);
                self.node_map.insert(id, node);
                self.max_id = match self.max_id {
                    Some(m) => if m < id {
                        Some(id)
                    } else {
                        Some(m)
                    },
                    None => Some(id),
                };
                true
            },
        };
        proof {
            let nodes2 = self.node_map@;
            assert forall|x: usize| #[trigger] nodes2.contains_key(x) implies node_ok(
                nodes2,
                edges,
                directed,
                x,
            ) by {
                if x == id {
                    if nodes.contains_key(id) {
                        assert(node_ok(nodes, edges, directed, id));
                    } else {
                        assert forall|v: usize| !edges.contains_key(link_key(directed, id, v)) by {
                            if edges.contains_key(link_key(directed, id, v)) {
                                if !directed && id > v {
                                    lemma_no_edge_without_node(nodes, edges, directed, v, id);
                                } else {
                                    lemma_no_edge_without_node(nodes, edges, directed, id, v);
                                }
                            }
                        }
                        assert forall|w: usize| !edges.contains_key(edge_key(w, id)) by {
                            if edges.contains_key(edge_key(w, id)) {
                                lemma_no_edge_without_node(nodes, edges, directed, w, id);
                            }
                        }
                    }
                } else {
                    assert(nodes.contains_key(x));
                    assert(node_ok(nodes, edges, directed, x));
                }
            }
            assert forall|k: u128| #[trigger] edges.contains_key(k) implies edge_ok(
                nodes2,
                edges,
                directed,
                k,
            ) by {
                assert(edge_ok(nodes, edges, directed, k));
            }
            assert forall|x: usize| #[trigger] nodes2.contains_key(x) implies {
                &&& self.max_id is Some
                &&& x <= self.max_id->0
                &&& nodes2[x]@.label is Some ==> nodes2[x]@.label->0 < self.node_label_map@.len()
            } by {
                if x != id {
                    assert(nodes.contains_key(x));
                } else if nodes.contains_key(id) {
                }
            }
            assert(self@.nodes =~= g.add_node(id, label_text(label)).nodes);
            assert(self@.edges =~= g.add_node(id, label_text(label)).edges);
        }
        r
    }

    /// Gives node `id` the label `label`, or takes its label away. Returns
    /// whether the graph holds the node; if it does not, nothing changes and
    /// the label is not interned.
    pub fn update_node_label(&mut self, node_id: usize, label: Option<String>) -> (r: bool)
        requires
            old(self).wf(),
        ensures
            final(self).wf(),
            r == old(self)@.has_node(node_id),
            r ==> final(self)@ == old(self)@.add_node(node_id, label_text(label)),
            !r ==> final(self)@ == old(self)@,
    {
        if !self.has_node(node_id) {
            return false;
        }
        self.add_node(node_id, label);
        true
    }
}

/// When the storage key of the edge between `u` and `v` is the storage key
/// of `(a, b)`.
proof fn lemma_link_key(directed: bool, u: usize, v: usize, a: usize, b: usize)
    ensures
        link_key(directed, u, v) == edge_key(a, b) <==> if !directed && u > v {
            v == a && u == b
        } else {
            u == a && v == b
        },
{
    lemma_edge_key_injective(u, v, a, b);
    lemma_edge_key_injective(v, u, a, b);
}

/// Records the new edge `(s, t)` in the node records of its endpoints and in
/// the edge records.
fn insert_link(
    nodes: &mut HashMap<usize, NodeMap>,
    edges: &mut HashMap<u128, Edge>,
    directed: bool,
    s: usize,
    t: usize,
    label: Option<usize>,
)
    requires
        consistent(old(nodes)@, old(edges)@, directed),
        old(nodes)@.contains_key(s),
        old(nodes)@.contains_key(t),
        !old(edges)@.contains_key(edge_key(s, t)),
        !directed ==> s <= t,
    ensures
        consistent(final(nodes)@, final(edges)@, directed),
        final(nodes)@.dom() == old(nodes)@.dom(),
        forall|x: usize| #[trigger]
            final(nodes)@.contains_key(x) ==> final(nodes)@[x]@.label == old(nodes)@[x]@.label,
        final(edges)@.dom() == old(edges)@.dom().insert(edge_key(s, t)),
        final(edges)@[edge_key(s, t)]@ == (EdgeView { start: s, target: t, label }),
        forall|k: u128| #[trigger]
            old(edges)@.contains_key(k) ==> final(edges)@[k] == old(edges)@[k],
{
    let ghost nodes0 = nodes@;
    let ghost edges0 = edges@;
    let k = make_key(s, t);
    assert(node_ok(nodes0, edges0, directed, s));
    assert(node_ok(nodes0, edges0, directed, t));
    let mut ns = nodes.remove(&s).unwrap();
    ns.add_edge(t);
    nodes.insert(s, ns);
    let ghost nodes1 = nodes@;
    if directed {
        let mut nt = nodes.remove(&t).unwrap();
        nt.add_in_edge(s);
        nodes.insert(t, nt);
    } else if s != t {
        let mut nt = nodes.remove(&t).unwrap();
        nt.add_edge(s);
        nodes.insert(t, nt);
    }
    edges.insert(k, Edge::new(s, t, label));
    proof {
        let nodes2 = nodes@;
        let edges2 = edges@;
        assert(nodes2.dom() =~= nodes0.dom());
        assert forall|x: usize| #[trigger] nodes2.contains_key(x) implies node_ok(
            nodes2,
            edges2,
            directed,
            x,
        ) by {
            assert(nodes0.contains_key(x));
            assert(node_ok(nodes0, edges0, directed, x));
            let n0 = nodes0[x]@;
            let n2 = nodes2[x]@;
            assert forall|v: usize| #[trigger]
                n2.neighbors.contains(v) <==> edges2.contains_key(link_key(directed, x, v)) by {
                lemma_link_key(directed, x, v, s, t);
                assert(n0.neighbors.contains(v) <==> edges0.contains_key(link_key(directed, x, v)));
            }
            assert forall|w: usize| #[trigger]
                n2.in_neighbors.contains(w) <==> (directed && edges2.contains_key(
                    edge_key(w, x),
                )) by {
                lemma_edge_key_injective(w, x, s, t);
                assert(n0.in_neighbors.contains(w) <==> (directed && edges0.contains_key(
                    edge_key(w, x),
                )));
            }
        }
        assert forall|j: u128| #[trigger] edges2.contains_key(j) implies edge_ok(
            nodes2,
            edges2,
            directed,
            j,
        ) by {
            if j != k {
                assert(edges0.contains_key(j));
                assert(edge_ok(nodes0, edges0, directed, j));
            }
        }
    }
}

/// Takes the edge `(s, t)` out of the node records of its endpoints and out
/// of the edge records.
fn remove_link(
    nodes: &mut HashMap<usize, NodeMap>,
    edges: &mut HashMap<u128, Edge>,
    directed: bool,
    s: usize,
    t: usize,
) -> (r: Edge)
    requires
        consistent(old(nodes)@, old(edges)@, directed),
        old(edges)@.contains_key(edge_key(s, t)),
    ensures
        consistent(final(nodes)@, final(edges)@, directed),
        final(nodes)@.dom() == old(nodes)@.dom(),
        forall|x: usize| #[trigger]
            final(nodes)@.contains_key(x) ==> final(nodes)@[x]@.label == old(nodes)@[x]@.label,
        final(edges)@ == old(edges)@.remove(edge_key(s, t)),
        r == old(edges)@[edge_key(s, t)],
        r@.start == s,
        r@.target == t,
{
    let ghost nodes0 = nodes@;
    let ghost edges0 = edges@;
    let k = make_key(s, t);
    proof {
        lemma_no_edge_without_node(nodes0, edges0, directed, s, t);
    }
    assert(node_ok(nodes0, edges0, directed, s));
    assert(node_ok(nodes0, edges0, directed, t));
    let mut ns = nodes.remove(&s).unwrap();
    ns.remove_edge(t);
    nodes.insert(s, ns);
    if directed {
        let mut nt = nodes.remove(&t).unwrap();
        nt.remove_in_edge(s);
        nodes.insert(t, nt);
    } else if s != t {
        let mut nt = nodes.remove(&t).unwrap();
        nt.remove_edge(s);
        nodes.insert(t, nt);
    }
    let r = edges.remove(&k).unwrap();
    proof {
        let nodes2 = nodes@;
        let edges2 = edges@;
        assert(nodes2.dom() =~= nodes0.dom());
        assert forall|x: usize| #[trigger] nodes2.contains_key(x) implies node_ok(
            nodes2,
            edges2,
            directed,
            x,
        ) by {
            assert(nodes0.contains_key(x));
            assert(node_ok(nodes0, edges0, directed, x));
            let n0 = nodes0[x]@;
            let n2 = nodes2[x]@;
            assert forall|v: usize| #[trigger]
                n2.neighbors.contains(v) <==> edges2.contains_key(link_key(directed, x, v)) by {
                lemma_link_key(directed, x, v, s, t);
                assert(n0.neighbors.contains(v) <==> edges0.contains_key(link_key(directed, x, v)));
            }
            assert forall|w: usize| #[trigger]
                n2.in_neighbors.contains(w) <==> (directed && edges2.contains_key(
                    edge_key(w, x),
                )) by {
                lemma_edge_key_injective(w, x, s, t);
                assert(n0.in_neighbors.contains(w) <==> (directed && edges0.contains_key(
                    edge_key(w, x),
                )));
            }
        }
        assert forall|j: u128| #[trigger] edges2.contains_key(j) implies edge_ok(
            nodes2,
            edges2,
            directed,
            j,
        ) by {
            assert(edges0.contains_key(j));
            assert(edge_ok(nodes0, edges0, directed, j));
        }
    }
    r
}

impl<Ty: GraphType> TypedGraphMap<Ty> {
    /// Adds the edge from `start` to `target` with `label`; in an undirected
    /// graph the edge between the two, whichever is named first. An endpoint
    /// that the graph does not hold yet is inserted as an unlabelled node.
    /// If the graph holds the edge already, the edge gets the new label in
    /// place of the one it had, and `false` comes back; otherwise `true`. An
    /// edge from a node to itself is recorded once.
    pub fn add_edge(&mut self, start: usize, target: usize, label: Option<String>) -> (r: bool)
        requires
            old(self).wf(),
        ensures
            final(self).wf(),
            final(self)@ == old(self)@.add_edge(start, target, label_text(label)),
            r == !old(self)@.has_edge(start, target),
    {
        let ghost g = self@;
        let ghost nodes0 = self.node_map@;
        let ghost edges0 = self.edge_map@;
        let ghost directed = Ty::directed();
        let ghost text = label_text(label);
        let (s, t) = self.swap_edge(start, target);
        let label_id = intern_label(&mut self.edge_label_map, label);
        let k = make_key(s, t);
        match self.edge_map.remove(&k) {
            Some(mut e) => {
                proof {
                    assert(edges0.contains_key(k));
                    assert(edge_ok(nodes0, edges0, directed, k));
                }
                e.set_label_id(label_id);
                self.edge_map.insert(k, e);
                proof {
                    let edges2 = self.edge_map@;
                    assert(edges2.dom() =~= edges0.dom());
                    assert forall|x: usize| #[trigger] nodes0.contains_key(x) implies node_ok(
                        nodes0,
                        edges2,
                        directed,
                        x,
                    ) by {
                        assert(node_ok(nodes0, edges0, directed, x));
                    }
                    assert forall|j: u128| #[trigger] edges2.contains_key(j) implies edge_ok(
                        nodes0,
                        edges2,
                        directed,
                        j,
                    ) by {
                        assert(edges0.contains_key(j));
                        assert(edge_ok(nodes0, edges0, directed, j));
                    }
                    assert forall|j: u128| #[trigger]
                        edges2.contains_key(j) && edges2[j]@.label is Some implies edges2[j]@.label->0
                        < self.edge_label_map@.len() by {
                        assert(edges0.contains_key(j));
                    }
                    assert forall|p: (usize, usize)|
                        self@.edges.contains_key(p) <==> g.add_edge(
                            start,
                            target,
                            text,
                        ).edges.contains_key(p) by {
                        lemma_edge_key_injective(p.0, p.1, s, t);
                    }
                    assert forall|p: (usize, usize)| self@.edges.contains_key(p) implies self@.edges[p]
                        == g.add_edge(start, target, text).edges[p] by {
                        lemma_edge_key_injective(p.0, p.1, s, t);
                    }
                    assert(self@.edges =~= g.add_edge(start, target, text).edges);
                    assert(self@.nodes =~= g.nodes);
                }
                return false;
            },
            None => {},
        }
        proof {
            assert(self.edge_map@ =~= edges0);
            assert(self.wf());
            assert(self@.nodes =~= g.nodes);
            assert(self@.edges =~= g.edges);
        }
        let ghost g1 = self@;
        if !self.has_node(s) {
            self.add_node(s, None);
        }
        let ghost g2 = self@;
        if !self.has_node(t) {
            self.add_node(t, None);
        }
        let ghost g3 = self@;
        let ghost nodes3 = self.node_map@;
        let ghost edges3 = self.edge_map@;
        proof {
            assert(g2.nodes =~= g1.with_node(s).nodes);
            assert(g3.nodes =~= g2.with_node(t).nodes);
            assert(g3.edges == g.edges);
            assert(g2.nodes.contains_key(s));
            assert(g3.nodes.contains_key(s));
            assert(g3.nodes.contains_key(t));
            assert(nodes3.contains_key(s));
            assert(nodes3.contains_key(t));
            assert(!g.edges.contains_key((s, t)));
            assert(!edges3.contains_key(edge_key(s, t)));
        }
        insert_link(&mut self.node_map, &mut self.edge_map, Ty::is_directed(), s, t, label_id);
        proof {
            let nodes4 = self.node_map@;
            let edges4 = self.edge_map@;
            let want = g.add_edge(start, target, text);
            assert forall|x: usize| #[trigger] nodes4.contains_key(x) implies {
                &&& self.max_id is Some
                &&& x <= self.max_id->0
                &&& nodes4[x]@.label is Some ==> nodes4[x]@.label->0 < self.node_label_map@.len()
            } by {
                assert(nodes3.contains_key(x));
            }
            assert forall|j: u128| #[trigger]
                edges4.contains_key(j) && edges4[j]@.label is Some implies edges4[j]@.label->0
                < self.edge_label_map@.len() by {
                if j != k {
                    assert(edges3.contains_key(j));
                }
            }
            assert forall|x: usize| self@.nodes.contains_key(x) implies self@.nodes[x]
                == want.nodes[x] by {
                assert(nodes4.contains_key(x));
                assert(nodes3.contains_key(x));
                assert(nodes4[x]@.label == nodes3[x]@.label);
                assert(g3.nodes[x] == nodes3[x]@.label);
            }
            assert(self@.nodes =~= want.nodes);
            assert forall|p: (usize, usize)| self@.edges.contains_key(p) <==> want.edges.contains_key(
                p,
            ) by {
                lemma_edge_key_injective(p.0, p.1, s, t);
                assert(g3.edges.contains_key(p) <==> edges3.contains_key(edge_key(p.0, p.1)));
            }
            assert forall|p: (usize, usize)| self@.edges.contains_key(p) implies self@.edges[p]
                == want.edges[p] by {
                lemma_edge_key_injective(p.0, p.1, s, t);
                if p != (s, t) {
                    assert(edges3.contains_key(edge_key(p.0, p.1)));
                    assert(g3.edges[p] == edges3[edge_key(p.0, p.1)]@.label);
                }
            }
            assert(self@.edges =~= want.edges);
        }
        true
    }

    /// Takes the edge from `start` to `target` out of the graph and returns
    /// its record, or returns `None` if the graph does not hold the edge.
    /// Both endpoints stay.
    pub fn remove_edge(&mut self, start: usize, target: usize) -> (r: Option<Edge>)
        requires
            old(self).wf(),
        ensures
            final(self).wf(),
            final(self)@ == old(self)@.remove_edge(start, target),
            r is Some <==> old(self)@.has_edge(start, target),
            r is Some ==> r->0@ == (EdgeView {
                start: old(self)@.key(start, target).0,
                target: old(self)@.key(start, target).1,
                label: old(self)@.edges[old(self)@.key(start, target)],
            }),
    {
        let ghost g = self@;
        let ghost nodes0 = self.node_map@;
        let ghost edges0 = self.edge_map@;
        if !self.has_edge(start, target) {
            proof {
                assert(g.remove_edge(start, target).edges =~= g.edges);
            }
            return None;
        }
        let (s, t) = self.swap_edge(start, target);
        let e = remove_link(&mut self.node_map, &mut self.edge_map, Ty::is_directed(), s, t);
        proof {
            let nodes2 = self.node_map@;
            let edges2 = self.edge_map@;
            let want = g.remove_edge(start, target);
            assert forall|x: usize| #[trigger] nodes2.contains_key(x) implies {
                &&& self.max_id is Some
                &&& x <= self.max_id->0
                &&& nodes2[x]@.label is Some ==> nodes2[x]@.label->0 < self.node_label_map@.len()
            } by {
                assert(nodes0.contains_key(x));
            }
            assert forall|j: u128| #[trigger]
                edges2.contains_key(j) && edges2[j]@.label is Some implies edges2[j]@.label->0
                < self.edge_label_map@.len() by {
                assert(edges0.contains_key(j));
            }
            assert forall|x: usize| self@.nodes.contains_key(x) implies self@.nodes[x]
                == want.nodes[x] by {
                assert(nodes2.contains_key(x));
            }
            assert(self@.nodes =~= want.nodes);
            assert forall|p: (usize, usize)| self@.edges.contains_key(p) <==> want.edges.contains_key(
                p,
            ) by {
                lemma_edge_key_injective(p.0, p.1, s, t);
            }
            assert(self@.edges =~= want.edges);
        }
        Some(e)
    }

    /// Gives the edge from `start` to `target` the label `label`, or takes
    /// its label away. Returns whether the graph holds the edge; if it does
    /// not, nothing changes and the label is not interned.
    pub fn update_edge_label(&mut self, start: usize, target: usize, label: Option<String>) -> (r:
        bool)
        requires
            old(self).wf(),
        ensures
            final(self).wf(),
            r == old(self)@.has_edge(start, target),
            r ==> final(self)@ == old(self)@.add_edge(start, target, label_text(label)),
            !r ==> final(self)@ == old(self)@,
    {
        if !self.has_edge(start, target) {
            return false;
        }
        self.add_edge(start, target, label);
        true
    }
}

impl<Ty: GraphType> TypedGraphMap<Ty> {
    /// Whether `cur` is `g` without some edges at `id`: nothing but edges
    /// that have `id` as an endpoint is missing.
    spec fn pruned(g: GraphView, cur: GraphView, id: usize) -> bool {
        &&& cur == (GraphView { edges: cur.edges, ..g })
        &&& forall|p: (usize, usize)| #[trigger]
            cur.edges.contains_key(p) ==> g.edges.contains_key(p) && cur.edges[p] == g.edges[p]
        &&& forall|p: (usize, usize)| #[trigger]
            g.edges.contains_key(p) && !GraphView::touches(p, id) ==> cur.edges.contains_key(p)
    }

    /// Takes node `id` out of the graph, and with it every edge that has it
    /// as an endpoint, in either direction. Returns the node's record as it
    /// was, or `None` if the graph does not hold the node. The recorded
    /// maximum id stays.
    pub fn remove_node(&mut self, id: usize) -> (r: Option<NodeMap>)
        requires
            old(self).wf(),
        ensures
            final(self).wf(),
            final(self)@ == old(self)@.remove_node(id),
            r is Some <==> old(self)@.has_node(id),
            r is Some ==> r->0@.id == id && old(self)@.describes(r->0@),
    {
        let ghost g = self@;
        let record = match self.node_map.get(&id) {
            Some(n) => n.clone(),
            None => {
                proof {
                    self.lemma_wf_valid();
                    assert(g.remove_node(id).nodes =~= g.nodes);
                    assert(g.remove_node(id).edges =~= g.edges);
                }
                return None;
            },
        };
        proof {
            self.lemma_describes(id);
            self.lemma_wf_valid();
        }
        let outs = record.neighbors();
        let mut i: usize = 0;
        while i < outs.len()
            invariant
                i <= outs@.len(),
                self.wf(),
                g.valid(),
                g.directed == Ty::directed(),
                Self::pruned(g, self@, id),
                forall|j: int| 0 <= j < i ==> !self@.edges.contains_key(#[trigger] g.key(id, outs@[j])),
            decreases outs@.len() - i,
        {
            let ghost before = self@;
            self.remove_edge(id, outs[i]);
            proof {
                assert(self@.key(id, outs@[i as int]) == g.key(id, outs@[i as int]));
                assert(GraphView::touches(g.key(id, outs@[i as int]), id));
            }
            i += 1;
        }
        let ins = record.in_neighbors();
        let mut i: usize = 0;
        while i < ins.len()
            invariant
                i <= ins@.len(),
                self.wf(),
                g.valid(),
                g.directed == Ty::directed(),
                Self::pruned(g, self@, id),
                forall|j: int|
                    0 <= j < outs@.len() ==> !self@.edges.contains_key(#[trigger] g.key(id, outs@[j])),
                forall|j: int| 0 <= j < i ==> !self@.edges.contains_key(#[trigger] g.key(ins@[j], id)),
            decreases ins@.len() - i,
        {
            self.remove_edge(ins[i], id);
            proof {
                assert(self@.key(ins@[i as int], id) == g.key(ins@[i as int], id));
                assert(GraphView::touches(g.key(ins@[i as int], id), id));
            }
            i += 1;
        }
        let ghost cur = self@;
        let ghost nodes0 = self.node_map@;
        let ghost edges0 = self.edge_map@;
        let ghost directed = Ty::directed();
        proof {
            assert forall|p: (usize, usize)| GraphView::touches(p, id) implies !cur.edges.contains_key(
                p,
            ) by {
                if cur.edges.contains_key(p) {
                    assert(g.edges.contains_key(p));
                    if p.0 == id {
                        assert(g.key(id, p.1) == p);
                        assert(g.neighbors(id).contains(p.1));
                        assert(outs@.to_set().contains(p.1));
                        let j = choose|j: int| 0 <= j < outs@.len() && outs@[j] == p.1;
                        assert(!cur.edges.contains_key(g.key(id, outs@[j])));
                    } else {
                        assert(p.1 == id);
                        if directed {
                            assert(g.key(p.0, id) == p);
                            assert(g.in_neighbors(id).contains(p.0));
                            assert(ins@.to_set().contains(p.0));
                            let j = choose|j: int| 0 <= j < ins@.len() && ins@[j] == p.0;
                            assert(!cur.edges.contains_key(g.key(ins@[j], id)));
                        } else {
                            assert(g.key(id, p.0) == p);
                            assert(g.neighbors(id).contains(p.0));
                            assert(outs@.to_set().contains(p.0));
                            let j = choose|j: int| 0 <= j < outs@.len() && outs@[j] == p.0;
                            assert(!cur.edges.contains_key(g.key(id, outs@[j])));
                        }
                    }
                }
            }
        }
        self.node_map.remove(&id);
        proof {
            let nodes2 = self.node_map@;
            assert forall|x: usize| #[trigger] nodes2.contains_key(x) implies node_ok(
                nodes2,
                edges0,
                directed,
                x,
            ) by {
                assert(nodes0.contains_key(x));
                assert(node_ok(nodes0, edges0, directed, x));
            }
            assert forall|k: u128| #[trigger] edges0.contains_key(k) implies edge_ok(
                nodes2,
                edges0,
                directed,
                k,
            ) by {
                assert(edge_ok(nodes0, edges0, directed, k));
                let e = edges0[k]@;
                assert(cur.edges.contains_key((e.start, e.target)));
                assert(!GraphView::touches((e.start, e.target), id));
            }
            assert forall|x: usize| #[trigger] nodes2.contains_key(x) implies {
                &&& self.max_id is Some
                &&& x <= self.max_id->0
                &&& nodes2[x]@.label is Some ==> nodes2[x]@.label->0 < self.node_label_map@.len()
            } by {
                assert(nodes0.contains_key(x));
            }
            let want = g.remove_node(id);
            assert(self@.nodes =~= want.nodes);
            assert(self@.edges =~= want.edges);
        }
        Some(record)
    }
}

impl<Ty: GraphType> TypedGraphMap<Ty> {
    /// An empty graph with room for the given numbers of nodes, edges and
    /// labels.
    pub fn with_capacity(nodes: usize, edge: usize, node_labels: usize, edge_labels: usize) -> (r:
        Self)
        ensures
            r.wf(),
            r@ == (GraphView {
                directed: Ty::directed(),
                nodes: Map::empty(),
                edges: Map::empty(),
                node_labels: Seq::empty(),
                edge_labels: Seq::empty(),
                max_id: None,
            }),
    {
        let r = TypedGraphMap {
            node_map: HashMap::with_capacity(nodes),
            edge_map: HashMap::with_capacity(edge),
            node_label_map: SetMap::with_capacity(node_labels),
            edge_label_map: SetMap::with_capacity(edge_labels),
            max_id: None,
            graph_type: PhantomData,
        };
        proof {
            assert(r@.nodes =~= Map::empty());
            assert(r@.edges =~= Map::empty());
        }
        r
    }

    /// An empty graph that starts from interners already filled, so that its
    /// labels get the ids they have there.
    pub fn with_label_map(node_label_map: SetMap, edge_label_map: SetMap) -> (r: Self)
        requires
            node_label_map.wf(),
            edge_label_map.wf(),
        ensures
            r.wf(),
            r@ == (GraphView {
                directed: Ty::directed(),
                nodes: Map::empty(),
                edges: Map::empty(),
                node_labels: node_label_map@,
                edge_labels: edge_label_map@,
                max_id: None,
            }),
    {
        let r = TypedGraphMap {
            node_map: HashMap::new(),
            edge_map: HashMap::new(),
            node_label_map,
            edge_label_map,
            max_id: None,
            graph_type: PhantomData,
        };
        proof {
            assert(r@.nodes =~= Map::empty());
            assert(r@.edges =~= Map::empty());
        }
        r
    }

    /// The content after the edges of `edges` have been added to `g` one
    /// after the other, each without a label.
    pub open spec fn with_edges(g: GraphView, edges: Seq<(usize, usize)>) -> GraphView
        decreases edges.len(),
    {
        if edges.len() == 0 {
            g
        } else {
            Self::with_edges(g, edges.drop_last()).add_edge(edges.last().0, edges.last().1, None)
        }
    }

    /// The graph that holds the given edges, unlabelled, and their endpoints.
    pub fn from_edges(edges: Vec<(usize, usize)>) -> (r: Self)
        ensures
            r.wf(),
            r@ == Self::with_edges(Self::new_view(), edges@),
    {
        let mut g = Self::new();
        let mut i: usize = 0;
        while i < edges.len()
            invariant
                i <= edges@.len(),
                g.wf(),
                g@ == Self::with_edges(Self::new_view(), edges@.take(i as int)),
            decreases edges@.len() - i,
        {
            let (src, dst) = edges[i];
            proof {
                assert(edges@.take(i + 1).drop_last() == edges@.take(i as int));
                assert(edges@.take(i + 1).last() == (src, dst));
            }
            g.add_edge(src, dst, None);
            i += 1;
        }
        proof {
            assert(edges@.take(edges@.len() as int) == edges@);
        }
        g
    }

    /// The content of an empty graph.
    pub open spec fn new_view() -> GraphView {
        GraphView {
            directed: Ty::directed(),
            nodes: Map::empty(),
            edges: Map::empty(),
            node_labels: Seq::empty(),
            edge_labels: Seq::empty(),
            max_id: None,
        }
    }

    /// Gives back room that the maps hold in reserve. The content stays.
    pub fn shrink_to_fit(&mut self)
        ensures
            final(self)@ == old(self)@,
            old(self).wf() ==> final(self).wf(),
    {
        shrink_map(&mut self.node_map);
        shrink_map(&mut self.edge_map);
    }

    /// Number of edges that leave node `id`; in an undirected graph, number
    /// of edges at the node.
    pub fn degree(&self, id: usize) -> (r: Result<usize, GraphError>)
        requires
            self.wf(),
        ensures
            match r {
                Ok(d) => self@.has_node(id) && d == self@.neighbors(id).len(),
                Err(e) => e == GraphError::NodeNotFound && !self@.has_node(id),
            },
    {
        match self.get_node(id) {
            Some(node) => {
                proof {
                    lemma_increasing_distinct(node@.neighbors);
                }
                Ok(node.degree())
            },
            None => Err(GraphError::NodeNotFound),
        }
    }

    /// The nodes that an edge leads to from node `id`, in ascending order.
    pub fn neighbors(&self, id: usize) -> (r: Result<&Vec<usize>, GraphError>)
        requires
            self.wf(),
        ensures
            match r {
                Ok(v) => self@.has_node(id) && strictly_increasing(v@) && v@.to_set()
                    == self@.neighbors(id),
                Err(e) => e == GraphError::NodeNotFound && !self@.has_node(id),
            },
    {
        match self.get_node(id) {
            Some(node) => Ok(node.neighbors()),
            None => Err(GraphError::NodeNotFound),
        }
    }

    /// Number of neighbours of node `id`.
    pub fn num_of_neighbors(&self, id: usize) -> (r: Result<usize, GraphError>)
        requires
            self.wf(),
        ensures
            match r {
                Ok(d) => self@.has_node(id) && d == self@.neighbors(id).len(),
                Err(e) => e == GraphError::NodeNotFound && !self@.has_node(id),
            },
    {
        self.degree(id)
    }

    /// The ids of all nodes, each once, in no particular order.
    pub fn node_indices(&self) -> (r: Vec<usize>)
        ensures
            r@.no_duplicates(),
            r@.to_set() == self@.nodes.dom(),
    {
        let mut out: Vec<usize> = Vec::new();
        for k in iter: self.node_map.keys()
            invariant
                iter.seq().unref().to_set() == self.node_map@.dom(),
                iter.seq().no_duplicates(),
                out@ =~= iter.seq().unref().take(iter.index()),
                iter.index() == iter.seq().len() ==> out@ =~= iter.seq().unref(),
        {
            out.push(*k);
        }
        proof {
            assert(self@.nodes.dom() =~= self.node_map@.dom());
        }
        out
    }

    /// The storage keys of all edge records, each once.
    fn raw_edge_keys(&self) -> (r: Vec<u128>)
        ensures
            r@.no_duplicates(),
            r@.to_set() == self.edge_map@.dom(),
    {
        let mut out: Vec<u128> = Vec::new();
        for k in iter: self.edge_map.keys()
            invariant
                iter.seq().unref().to_set() == self.edge_map@.dom(),
                iter.seq().no_duplicates(),
                out@ =~= iter.seq().unref().take(iter.index()),
                iter.index() == iter.seq().len() ==> out@ =~= iter.seq().unref(),
        {
            out.push(*k);
        }
        out
    }

    /// The keys of all edges, each once, in no particular order.
    pub fn edge_indices(&self) -> (r: Vec<(usize, usize)>)
        requires
            self.wf(),
        ensures
            r@.no_duplicates(),
            r@.to_set() == self@.edges.dom(),
    {
        let ghost raw = self.edge_map@;
        let keys = self.raw_edge_keys();
        let mut out: Vec<(usize, usize)> = Vec::new();
        let mut i: usize = 0;
        while i < keys.len()
            invariant
                i <= keys@.len(),
                raw == self.edge_map@,
                self.wf(),
                keys@.to_set() == raw.dom(),
                out@.len() == i,
                forall|j: int| 0 <= j < i ==> edge_key(out@[j].0, out@[j].1) == keys@[j],
            decreases keys@.len() - i,
        {
            let k = keys[i];
            assert(keys@.to_set().contains(k));
            assert(raw.contains_key(k));
            assert(edge_ok(self.node_map@, raw, Ty::directed(), k));
            match self.edge_map.get(&k) {
                Some(e) => {
                    out.push((e.get_start(), e.get_target()));
                },
                None => {},
            }
            i += 1;
        }
        proof {
            assert forall|a: int, b: int|
                0 <= a < out@.len() && 0 <= b < out@.len() && a != b implies out@[a] != out@[b] by {
                assert(keys@[a] != keys@[b]);
            }
            assert forall|p: (usize, usize)| out@.to_set().contains(p) <==> self@.edges.dom().contains(
                p,
            ) by {
                if out@.to_set().contains(p) {
                    let j = choose|j: int| 0 <= j < out@.len() && out@[j] == p;
                    assert(keys@[j] == edge_key(p.0, p.1));
                    assert(keys@.to_set().contains(edge_key(p.0, p.1)));
                }
                if self@.edges.dom().contains(p) {
                    assert(raw.dom().contains(edge_key(p.0, p.1)));
                    assert(keys@.to_set().contains(edge_key(p.0, p.1)));
                    let j = choose|j: int| 0 <= j < keys@.len() && keys@[j] == edge_key(p.0, p.1);
                    lemma_edge_key_injective(p.0, p.1, out@[j].0, out@[j].1);
                    assert(out@[j] == p);
                }
            }
            assert(out@.to_set() =~= self@.edges.dom());
        }
        out
    }
}

impl TypedGraphMap<Directed> {
    /// Number of edges that arrive at node `id`.
    pub fn in_degree(&self, id: usize) -> (r: Result<usize, GraphError>)
        requires
            self.wf(),
        ensures
            match r {
                Ok(d) => self@.has_node(id) && d == self@.in_neighbors(id).len(),
                Err(e) => e == GraphError::NodeNotFound && !self@.has_node(id),
            },
    {
        match self.get_node(id) {
            Some(node) => {
                proof {
                    lemma_increasing_distinct(node@.in_neighbors);
                }
                Ok(node.in_degree())
            },
            None => Err(GraphError::NodeNotFound),
        }
    }

    /// The nodes from which an edge leads to node `id`, in ascending order.
    pub fn in_neighbors(&self, id: usize) -> (r: Result<&Vec<usize>, GraphError>)
        requires
            self.wf(),
        ensures
            match r {
                Ok(v) => self@.has_node(id) && strictly_increasing(v@) && v@.to_set()
                    == self@.in_neighbors(id),
                Err(e) => e == GraphError::NodeNotFound && !self@.has_node(id),
            },
    {
        match self.get_node(id) {
            Some(node) => Ok(node.in_neighbors()),
            None => Err(GraphError::NodeNotFound),
        }
    }

    /// Number of nodes from which an edge leads to node `id`.
    pub fn num_of_in_neighbors(&self, id: usize) -> (r: Result<usize, GraphError>)
        requires
            self.wf(),
        ensures
            match r {
                Ok(d) => self@.has_node(id) && d == self@.in_neighbors(id).len(),
                Err(e) => e == GraphError::NodeNotFound && !self@.has_node(id),
            },
    {
        self.in_degree(id)
    }
}

impl<Ty: GraphType> TypedGraphMap<Ty> {
    /// For each node label id, how many nodes carry it.
    pub fn get_node_label_id_counter(&self) -> (r: Vec<usize>)
        requires
            self.wf(),
        ensures
            r@.len() == self@.node_labels.len(),
            forall|l: int|
                0 <= l < r@.len() ==> r@[l] == self@.node_label_frequency(l as usize),
    {
        let ghost g = self@;
        let ghost label_of = |id: usize| g.nodes[id];
        let ids = self.node_indices();
        let n = self.node_label_map.len();
        let mut counts: Vec<usize> = Vec::new();
        let mut l: usize = 0;
        while l < n
            invariant
                l <= n,
                counts@.len() == l,
                forall|j: int| 0 <= j < l ==> counts@[j] == 0,
            decreases n - l,
        {
            counts.push(0);
            l += 1;
        }
        let mut i: usize = 0;
        while i < ids.len()
            invariant
                i <= ids@.len(),
                self.wf(),
                g == self@,
                label_of == |id: usize| g.nodes[id],
                ids@.no_duplicates(),
                ids@.to_set() == g.nodes.dom(),
                counts@.len() == n,
                n == g.node_labels.len(),
                forall|j: int|
                    0 <= j < n ==> counts@[j] == tally(ids@.take(i as int), label_of, j as usize),
            decreases ids@.len() - i,
        {
            let id = ids[i];
            let ghost prefix = ids@.take(i as int);
            let ghost next = ids@.take(i + 1);
            proof {
                assert(next.drop_last() == prefix);
                assert(next.last() == id);
                assert(ids@.to_set().contains(id));
                self.lemma_wf_valid();
                assert(g.nodes.contains_key(id));
            }
            match self.get_node(id) {
                Some(node) => match node.get_label_id() {
                    Some(label) => {
                        proof {
                            assert(label_of(id) == Some(label));
                            assert(next.no_duplicates());
                            lemma_tally_counts_set(next, label_of, label);
                        }
                        let c = counts[label];
                        counts.set(label, c + 1);
                    },
                    None => {
                        assert(label_of(id) is None);
                    },
                },
                None => {},
            }
            i += 1;
        }
        proof {
            assert(ids@.take(ids@.len() as int) == ids@);
            assert forall|l: int| 0 <= l < counts@.len() implies counts@[l]
                == self@.node_label_frequency(l as usize) by {
                lemma_tally_counts_set(ids@, label_of, l as usize);
                assert(g.nodes.dom().filter(|x: usize| label_of(x) == Some(l as usize))
                    =~= g.nodes.dom().filter(|id: usize| g.nodes[id] == Some(l as usize)));
            }
        }
        counts
    }

    /// For each edge label id, how many edges carry it.
    pub fn get_edge_label_id_counter(&self) -> (r: Vec<usize>)
        requires
            self.wf(),
        ensures
            r@.len() == self@.edge_labels.len(),
            forall|l: int|
                0 <= l < r@.len() ==> r@[l] == self@.edge_label_frequency(l as usize),
    {
        let ghost g = self@;
        let ghost label_of = |k: (usize, usize)| g.edges[k];
        let keys = self.edge_indices();
        let n = self.edge_label_map.len();
        let mut counts: Vec<usize> = Vec::new();
        let mut l: usize = 0;
        while l < n
            invariant
                l <= n,
                counts@.len() == l,
                forall|j: int| 0 <= j < l ==> counts@[j] == 0,
            decreases n - l,
        {
            counts.push(0);
            l += 1;
        }
        let mut i: usize = 0;
        while i < keys.len()
            invariant
                i <= keys@.len(),
                self.wf(),
                g == self@,
                label_of == |k: (usize, usize)| g.edges[k],
                keys@.no_duplicates(),
                keys@.to_set() == g.edges.dom(),
                counts@.len() == n,
                n == g.edge_labels.len(),
                forall|j: int|
                    0 <= j < n ==> counts@[j] == tally(keys@.take(i as int), label_of, j as usize),
            decreases keys@.len() - i,
        {
            let k = keys[i];
            let ghost prefix = keys@.take(i as int);
            let ghost next = keys@.take(i + 1);
            proof {
                assert(next.drop_last() == prefix);
                assert(next.last() == k);
                assert(keys@.to_set().contains(k));
                self.lemma_wf_valid();
                assert(g.edges.contains_key(k));
                assert(g.key(k.0, k.1) == k);
            }
            match self.get_edge(k.0, k.1) {
                Some(e) => match e.get_label() {
                    Some(label) => {
                        proof {
                            assert(label_of(k) == Some(label));
                            assert(next.no_duplicates());
                            lemma_tally_counts_set(next, label_of, label);
                        }
                        let c = counts[label];
                        counts.set(label, c + 1);
                    },
                    None => {
                        assert(label_of(k) is None);
                    },
                },
                None => {},
            }
            i += 1;
        }
        proof {
            assert(keys@.take(keys@.len() as int) == keys@);
            assert forall|l: int| 0 <= l < counts@.len() implies counts@[l]
                == self@.edge_label_frequency(l as usize) by {
                lemma_tally_counts_set(keys@, label_of, l as usize);
                assert(g.edges.dom().filter(|x: (usize, usize)| label_of(x) == Some(l as usize))
                    =~= g.edges.dom().filter(|k: (usize, usize)| g.edges[k] == Some(l as usize)));
            }
        }
        counts
    }
}

impl<Ty: GraphType> TypedGraphMap<Ty> {
    /// The records of all nodes, each once, in no particular order.
    pub fn nodes(&self) -> (r: Vec<&NodeMap>)
        requires
            self.wf(),
        ensures
            r@.len() == self@.nodes.dom().len(),
            forall|i: int| 0 <= i < r@.len() ==> self@.describes(#[trigger] r@[i]@),
            forall|i: int, j: int|
                0 <= i < r@.len() && 0 <= j < r@.len() && i != j ==> r@[i]@.id != r@[j]@.id,
            forall|id: usize|
                self@.has_node(id) ==> exists|i: int| 0 <= i < r@.len() && r@[i]@.id == id,
    {
        let ids = self.node_indices();
        proof {
            ids@.unique_seq_to_set();
        }
        let mut out: Vec<&NodeMap> = Vec::new();
        let mut i: usize = 0;
        while i < ids.len()
            invariant
                i <= ids@.len(),
                self.wf(),
                ids@.to_set() == self@.nodes.dom(),
                out@.len() == i,
                forall|j: int| 0 <= j < i ==> (#[trigger] out@[j])@.id == ids@[j] && self@.describes(
                    out@[j]@,
                ),
            decreases ids@.len() - i,
        {
            assert(ids@.to_set().contains(ids@[i as int]));
            match self.get_node(ids[i]) {
                Some(node) => out.push(node),
                None => {},
            }
            i += 1;
        }
        proof {
            assert forall|id: usize| self@.has_node(id) implies exists|i: int|
                0 <= i < out@.len() && out@[i]@.id == id by {
                assert(ids@.to_set().contains(id));
                let k = choose|k: int| 0 <= k < ids@.len() && ids@[k] == id;
                assert(out@[k]@.id == id);
            }
        }
        out
    }

    /// The records of all edges, each once, in no particular order.
    pub fn edges(&self) -> (r: Vec<&Edge>)
        requires
            self.wf(),
        ensures
            r@.len() == self@.edges.dom().len(),
            forall|i: int|
                0 <= i < r@.len() ==> self@.edges.contains_key(
                    ((#[trigger] r@[i])@.start, r@[i]@.target),
                ) && self@.edges[(r@[i]@.start, r@[i]@.target)] == r@[i]@.label,
            forall|i: int, j: int|
                0 <= i < r@.len() && 0 <= j < r@.len() && i != j ==> (r@[i]@.start, r@[i]@.target)
                    != (r@[j]@.start, r@[j]@.target),
            forall|k: (usize, usize)|
                self@.edges.contains_key(k) ==> exists|i: int|
                    0 <= i < r@.len() && (r@[i]@.start, r@[i]@.target) == k,
    {
        let keys = self.edge_indices();
        proof {
            keys@.unique_seq_to_set();
            self.lemma_wf_valid();
        }
        let mut out: Vec<&Edge> = Vec::new();
        let mut i: usize = 0;
        while i < keys.len()
            invariant
                i <= keys@.len(),
                self.wf(),
                self@.valid(),
                keys@.to_set() == self@.edges.dom(),
                out@.len() == i,
                forall|j: int|
                    0 <= j < i ==> ((#[trigger] out@[j])@.start, out@[j]@.target) == keys@[j]
                        && self@.edges[keys@[j]] == out@[j]@.label,
            decreases keys@.len() - i,
        {
            let k = keys[i];
            proof {
                assert(keys@.to_set().contains(k));
                assert(self@.edges.contains_key(k));
                assert(self@.key(k.0, k.1) == k);
            }
            match self.get_edge(k.0, k.1) {
                Some(e) => out.push(e),
                None => {},
            }
            i += 1;
        }
        proof {
            assert forall|j: int| 0 <= j < out@.len() implies self@.edges.contains_key(
                ((#[trigger] out@[j])@.start, out@[j]@.target),
            ) by {
                assert(keys@.to_set().contains(keys@[j]));
            }
            assert forall|k: (usize, usize)| self@.edges.contains_key(k) implies exists|i: int|
                0 <= i < out@.len() && (out@[i]@.start, out@[i]@.target) == k by {
                assert(keys@.to_set().contains(k));
                let j = choose|j: int| 0 <= j < keys@.len() && keys@[j] == k;
                assert((out@[j]@.start, out@[j]@.target) == k);
            }
        }
        out
    }

    /// Records that `id` has been in use, as if a node with that id had been
    /// inserted and removed again: the recorded maximum id is raised to it
    /// if it was lower. Nothing else changes.
    pub fn note_seen_id(&mut self, id: usize)
        requires
            old(self).wf(),
        ensures
            final(self).wf(),
            final(self)@ == (GraphView { max_id: raised(old(self)@.max_id, id), ..old(self)@ }),
    {
        self.max_id = match self.max_id {
            Some(m) => if m < id {
                Some(id)
            } else {
                Some(m)
            },
            None => Some(id),
        };
    }

    /// Empties the graph: nodes, edges and labels go. The recorded maximum
    /// id stays.
    pub fn clear(&mut self)
        ensures
            final(self).wf(),
            final(self)@ == (GraphView { max_id: old(self)@.max_id, ..Self::new_view() }),
    {
        self.edge_map.clear();
        self.edge_label_map = SetMap::new();
        self.node_map.clear();
        self.node_label_map = SetMap::new();
        proof {
            assert(self@.nodes =~= Map::empty());
            assert(self@.edges =~= Map::empty());
        }
    }
}

impl<Ty: GraphType> GraphTrait for TypedGraphMap<Ty> {
    open spec fn well_formed(&self) -> bool {
        self.wf()
    }

    open spec fn holds_node(&self, id: usize) -> bool {
        self@.has_node(id)
    }

    open spec fn holds_edge(&self, start: usize, target: usize) -> bool {
        self@.has_edge(start, target)
    }

    open spec fn nodes_held(&self) -> nat {
        self@.nodes.dom().len()
    }

    open spec fn edges_held(&self) -> nat {
        self@.edges.dom().len()
    }

    open spec fn directed(&self) -> bool {
        self@.directed
    }

    fn has_node(&self, id: usize) -> (r: bool) {
        TypedGraphMap::has_node(self, id)
    }

    fn has_edge(&self, start: usize, target: usize) -> (r: bool)
        ensures
            r == self@.has_edge(start, target),
    {
        TypedGraphMap::has_edge(self, start, target)
    }

    fn node_count(&self) -> (r: usize) {
        TypedGraphMap::node_count(self)
    }

    fn edge_count(&self) -> (r: usize) {
        TypedGraphMap::edge_count(self)
    }

    fn is_directed(&self) -> (r: bool) {
        TypedGraphMap::is_directed(self)
    }

    fn degree(&self, id: usize) -> (r: Result<usize, GraphError>)
        ensures
            r is Ok ==> r->Ok_0 == self@.neighbors(id).len(),
    {
        TypedGraphMap::degree(self, id)
    }

    fn max_possible_id(&self) -> (r: usize) {
        TypedGraphMap::max_possible_id(self)
    }
}

impl<Ty: GraphType> Default for TypedGraphMap<Ty> {
    /// An empty graph.
    fn default() -> (r: Self)
        ensures
            r.wf(),
            r@ == Self::new_view(),
    {
        Self::new()
    }
}

impl<Ty: GraphType> Clone for TypedGraphMap<Ty> {
    fn clone(&self) -> (r: Self)
        ensures
            r@ == self@,
            self.wf() ==> r.wf(),
    {
        let r = TypedGraphMap {
            node_map: self.node_map.clone(),
            edge_map: self.edge_map.clone(),
            node_label_map: self.node_label_map.clone(),
            edge_label_map: self.edge_label_map.clone(),
            max_id: self.max_id,
            graph_type: PhantomData,
        };
        proof {
            assert(r@.nodes =~= self@.nodes);
            assert(r@.edges =~= self@.edges);
        }
        r
    }
}

} // verus!
