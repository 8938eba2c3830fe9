use rand::rngs::ThreadRng;
use rand::thread_rng;
use vstd::prelude::*;

use crate::generic::graph::GraphType;
use crate::generic::map::{interned_all, lemma_interned_position};
use crate::graph_gen::helper::{
    complete_edge_pairs, complete_pair, random_edge_label, random_node_label,
};
use crate::graph_impl::graph_map::graph::{label_text, GraphView, TypedGraphMap};
use crate::map::set_map::{string_views, SetMap};

verus! {

/// `rand::thread_rng`: the random number generator of this thread.
#[verifier::external_body]
fn new_rng() -> ThreadRng {
    thread_rng()
}

/// Whether `g` has exactly the nodes below `n`, each with a label if there
/// is any node label at all, and the given interned labels.
pub open spec fn has_nodes_below(
    g: GraphView,
    n: usize,
    node_label: Seq<String>,
    edge_label: Seq<String>,
) -> bool {
    &&& g.nodes.dom() == Set::new(|id: usize| id < n)
    &&& forall|id: usize| id < n ==> (#[trigger] g.nodes[id] is Some <==> g.node_labels.len() > 0)
    &&& g.node_labels == interned_all(Seq::empty(), string_views(node_label))
    &&& g.edge_labels == interned_all(Seq::empty(), string_views(edge_label))
    &&& g.max_id == if n == 0 {
        None
    } else {
        Some((n - 1) as usize)
    }
}

/// The graph on the nodes below `n` without edges. Each node gets one of
/// the labels of `node_label`, picked at random, or none if there are none.
pub fn empty_graph<Ty: GraphType>(n: usize, node_label: Vec<String>, edge_label: Vec<String>) -> (r:
    TypedGraphMap<Ty>)
    ensures
        r.wf(),
        r@.directed == Ty::directed(),
        has_nodes_below(r@, n, node_label@, edge_label@),
        r@.edges == Map::<(usize, usize), Option<usize>>::empty(),
{
    let mut rng = new_rng();
    let node_label_map = SetMap::from_vec(node_label);
    let edge_label_map = SetMap::from_vec(edge_label);
    let mut g = TypedGraphMap::with_label_map(node_label_map, edge_label_map);
    let ghost start = g@;
    proof {
        assert(g@.nodes.dom() =~= Set::new(|id: usize| id < 0));
    }
    let mut i: usize = 0;
    while i < n
        invariant
            i <= n,
            g.wf(),
            g@.directed == Ty::directed(),
            g@.nodes.dom() == Set::new(|id: usize| id < i),
            forall|id: usize| id < i ==> (#[trigger] g@.nodes[id] is Some <==> g@.node_labels.len() > 0),
            g@.node_labels == start.node_labels,
            g@.edge_labels == start.edge_labels,
            g@.edges == start.edges,
            g@.max_id == if i == 0 {
                None
            } else {
                Some((i - 1) as usize)
            },
        decreases n - i,
    {
        let label = random_node_label(&mut rng, &g);
        let ghost before = g@;
        proof {
            g.lemma_wf_valid();
            if label is Some {
                lemma_interned_position(before.node_labels, label_text(label)->0);
            }
        }
        g.add_node(i, label);
        proof {
            assert(g@.nodes.dom() =~= Set::new(|id: usize| id < i + 1));
        }
        i += 1;
    }
    g
}

/// The complete graph on the nodes below `n`: an edge between any two
/// different nodes, in a directed graph one in each direction. Nodes and
/// edges get labels picked at random out of those given.
pub fn complete_graph<Ty: GraphType>(n: usize, node_label: Vec<String>, edge_label: Vec<String>) -> (r:
    TypedGraphMap<Ty>)
    ensures
        r.wf(),
        r@.directed == Ty::directed(),
        has_nodes_below(r@, n, node_label@, edge_label@),
        r@.edges.dom() == Set::new(|k: (usize, usize)| complete_pair(Ty::directed(), n, k)),
        forall|k: (usize, usize)| #[trigger]
            r@.edges.contains_key(k) ==> (r@.edges[k] is Some <==> r@.edge_labels.len() > 0),
{
    let mut rng = new_rng();
    let ghost node_label_seq = node_label@;
    let ghost edge_label_seq = edge_label@;
    let mut g = empty_graph::<Ty>(n, node_label, edge_label);
    let pairs = complete_edge_pairs::<Ty>(n);
    let mut i: usize = 0;
    while i < pairs.len()
        invariant
            i <= pairs@.len(),
            g.wf(),
            g@.directed == Ty::directed(),
            has_nodes_below(g@, n, node_label_seq, edge_label_seq),
            pairs@.no_duplicates(),
            forall|p: (usize, usize)| pairs@.contains(p) <==> complete_pair(Ty::directed(), n, p),
            forall|k: (usize, usize)| g@.edges.contains_key(k) <==> pairs@.take(i as int).contains(k),
            forall|k: (usize, usize)| #[trigger]
                g@.edges.contains_key(k) ==> (g@.edges[k] is Some <==> g@.edge_labels.len() > 0),
        decreases pairs@.len() - i,
    {
        let (s, d) = pairs[i];
        let label = random_edge_label(&mut rng, &g);
        let ghost before = g@;
        proof {
            g.lemma_wf_valid();
            assert(pairs@.contains((s, d)));
            assert(complete_pair(Ty::directed(), n, (s, d)));
            assert(before.key(s, d) == (s, d));
            assert(before.nodes.dom().contains(s));
            assert(before.nodes.dom().contains(d));
            if label is Some {
                lemma_interned_position(before.edge_labels, label_text(label)->0);
            }
            assert(!before.edges.contains_key((s, d))) by {
                let done = pairs@.take(i as int);
                if done.contains((s, d)) {
                    let j = choose|j: int| 0 <= j < done.len() && done[j] == (s, d);
                    assert(pairs@[j] == pairs@[i as int]);
                }
            }
        }
        g.add_edge(s, d, label);
        proof {
            assert(g@.nodes == before.nodes);
            let done = pairs@.take(i as int);
            let next = pairs@.take(i + 1);
            assert forall|k: (usize, usize)| g@.edges.contains_key(k) <==> next.contains(k) by {
                if next.contains(k) {
                    let j = choose|j: int| 0 <= j < next.len() && next[j] == k;
                    if j < i {
                        assert(done[j] == k);
                    }
                }
                if done.contains(k) {
                    let j = choose|j: int| 0 <= j < done.len() && done[j] == k;
                    assert(next[j] == k);
                }
                if k == (s, d) {
                    assert(next[i as int] == k);
                }
            }
        }
        i += 1;
    }
    proof {
        assert(pairs@.take(pairs@.len() as int) == pairs@);
        assert(g@.edges.dom() =~= Set::new(|k: (usize, usize)| complete_pair(Ty::directed(), n, k)));
    }
    g
}

/// The graph on the nodes below `n` without edges and without labels.
pub fn empty_graph_unlabeled<Ty: GraphType>(n: usize) -> (r: TypedGraphMap<Ty>)
    ensures
        r.wf(),
        r@.directed == Ty::directed(),
        has_nodes_below(r@, n, Seq::empty(), Seq::empty()),
        r@.edges == Map::<(usize, usize), Option<usize>>::empty(),
{
    empty_graph(n, Vec::new(), Vec::new())
}

/// The complete graph on the nodes below `n` without labels.
pub fn complete_graph_unlabeled<Ty: GraphType>(n: usize) -> (r: TypedGraphMap<Ty>)
    ensures
        r.wf(),
        r@.directed == Ty::directed(),
        has_nodes_below(r@, n, Seq::empty(), Seq::empty()),
        r@.edges.dom() == Set::new(|k: (usize, usize)| complete_pair(Ty::directed(), n, k)),
{
    complete_graph(n, Vec::new(), Vec::new())
}

} // verus!
