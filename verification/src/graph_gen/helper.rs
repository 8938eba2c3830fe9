use itertools::Itertools;
use rand::rngs::ThreadRng;
use rand::Rng;
use vstd::prelude::*;

use crate::generic::graph::GraphType;
use crate::generic::map::MapTrait;
use crate::graph_impl::graph_map::graph::TypedGraphMap;
use crate::map::set_map::SetMap;

verus! {

/// `rand::rngs::ThreadRng`: the random number generator of a thread.
/// Nothing is known of what is inside.
#[verifier::external_type_specification]
#[verifier::external_body]
pub struct ExThreadRng(ThreadRng);

/// `Rng::gen_range` with lower bound 0: some index below `high`. Which one
/// is left open.
#[verifier::external_body]
fn gen_index(rng: &mut ThreadRng, high: usize) -> (r: usize)
    requires
        high > 0,
    ensures
        r < high,
{
    rng.gen_range(0, high)
}

/// `Itertools::tuple_combinations` for pairs over `0..n`: the pairs `(i, j)`
/// with `i < j < n`, each once, ordered by `i` and then by `j`.
#[verifier::external_body]
fn pair_combinations(n: usize) -> (r: Vec<(usize, usize)>)
    ensures
        forall|p: (usize, usize)| r@.contains(p) <==> p.0 < p.1 < n,
        forall|a: int, b: int|
            0 <= a < b < r@.len() ==> r@[a].0 < r@[b].0 || (r@[a].0 == r@[b].0 && r@[a].1
                < r@[b].1),
{
    (0..n).tuple_combinations().collect()
}

/// Whether `p` is an edge of the complete graph on the nodes below `n`:
/// any two different nodes, in an undirected graph the smaller first.
pub open spec fn complete_pair(directed: bool, n: usize, p: (usize, usize)) -> bool {
    if directed {
        p.0 < n && p.1 < n && p.0 != p.1
    } else {
        p.0 < p.1 < n
    }
}

/// The edges of the complete graph on the nodes below `n`, each once: for a
/// directed graph both directions of each pair of nodes.
pub fn complete_edge_pairs<Ty: GraphType>(n: usize) -> (r: Vec<(usize, usize)>)
    ensures
        r@.no_duplicates(),
        forall|p: (usize, usize)| r@.contains(p) <==> complete_pair(Ty::directed(), n, p),
{
    let pairs = pair_combinations(n);
    proof {
        assert forall|a: int, b: int|
            0 <= a < pairs@.len() && 0 <= b < pairs@.len() && a != b implies pairs@[a]
            != pairs@[b] by {
            if a < b {
                assert(pairs@[a].0 < pairs@[b].0 || (pairs@[a].0 == pairs@[b].0 && pairs@[a].1
                    < pairs@[b].1));
            } else {
                assert(pairs@[b].0 < pairs@[a].0 || (pairs@[b].0 == pairs@[a].0 && pairs@[b].1
                    < pairs@[a].1));
            }
        }
    }
    if !Ty::is_directed() {
        return pairs;
    }
    let mut out: Vec<(usize, usize)> = Vec::new();
    let mut i: usize = 0;
    while i < pairs.len()
        invariant
            i <= pairs@.len(),
            pairs@.no_duplicates(),
            forall|p: (usize, usize)| pairs@.contains(p) <==> p.0 < p.1 < n,
            out@.len() == 2 * i,
            forall|j: int| 0 <= j < i ==> out@[2 * j] == pairs@[j],
            forall|j: int| 0 <= j < i ==> out@[2 * j + 1] == (pairs@[j].1, pairs@[j].0),
        decreases pairs@.len() - i,
    {
        let (s, d) = pairs[i];
        out.push((s, d));
        out.push((d, s));
        i += 1;
    }
    proof {
        assert forall|a: int| 0 <= a < out@.len() implies (out@[a] == pairs@[a / 2] && a % 2 == 0)
            || (out@[a] == (pairs@[a / 2].1, pairs@[a / 2].0) && a % 2 == 1) by {
            if a % 2 == 0 {
                assert(out@[2 * (a / 2)] == pairs@[a / 2]);
            } else {
                assert(out@[2 * (a / 2) + 1] == (pairs@[a / 2].1, pairs@[a / 2].0));
            }
        }
        assert forall|a: int, b: int|
            0 <= a < out@.len() && 0 <= b < out@.len() && a != b implies out@[a] != out@[b] by {
            assert(pairs@.contains(pairs@[a / 2]));
            assert(pairs@.contains(pairs@[b / 2]));
            if a / 2 != b / 2 {
                assert(pairs@[a / 2] != pairs@[b / 2]);
            }
        }
        assert forall|p: (usize, usize)| out@.contains(p) <==> complete_pair(true, n, p) by {
            if out@.contains(p) {
                let a = choose|a: int| 0 <= a < out@.len() && out@[a] == p;
                assert(pairs@.contains(pairs@[a / 2]));
            }
            if complete_pair(true, n, p) {
                if p.0 < p.1 {
                    assert(pairs@.contains(p));
                    let j = choose|j: int| 0 <= j < pairs@.len() && pairs@[j] == p;
                    assert(out@[2 * j] == p);
                } else {
                    assert(pairs@.contains((p.1, p.0)));
                    let j = choose|j: int| 0 <= j < pairs@.len() && pairs@[j] == (p.1, p.0);
                    assert(out@[2 * j + 1] == p);
                }
            }
        }
    }
    out
}

/// The label at position `index` of `labels`, if there is one.
pub fn label_at_index(labels: &SetMap, index: usize) -> (r: Option<String>)
    requires
        labels.wf(),
    ensures
        match r {
            Some(l) => index < labels@.len() && l@ == labels@[index as int],
            None => index >= labels@.len(),
        },
{
    match labels.get_item(index) {
        Some(l) => Some(l.clone()),
        None => None,
    }
}

/// Some label out of `labels`, picked at random; `None` if there is none to
/// pick from.
fn random_label(rng: &mut ThreadRng, labels: &SetMap) -> (r: Option<String>)
    requires
        labels.wf(),
    ensures
        match r {
            Some(l) => labels@.contains(l@),
            None => labels@.len() == 0,
        },
{
    if labels.is_empty() {
        return None;
    }
    let random_index = gen_index(rng, labels.len());
    label_at_index(labels, random_index)
}

/// Some node label of `g`, picked at random; `None` if it has none.
pub fn random_node_label<Ty: GraphType>(rng: &mut ThreadRng, g: &TypedGraphMap<Ty>) -> (r: Option<
    String,
>)
    requires
        g.wf(),
    ensures
        match r {
            Some(l) => g@.node_labels.contains(l@),
            None => g@.node_labels.len() == 0,
        },
{
    random_label(rng, g.get_node_label_map())
}

/// Some edge label of `g`, picked at random; `None` if it has none.
pub fn random_edge_label<Ty: GraphType>(rng: &mut ThreadRng, g: &TypedGraphMap<Ty>) -> (r: Option<
    String,
>)
    requires
        g.wf(),
    ensures
        match r {
            Some(l) => g@.edge_labels.contains(l@),
            None => g@.edge_labels.len() == 0,
        },
{
    random_label(rng, g.get_edge_label_map())
}

} // verus!
