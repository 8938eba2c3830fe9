use vstd::prelude::*;

use crate::generic::graph::{Directed, GraphType, Undirected};
use crate::generic::map::{lemma_interned_all_distinct, MapTrait, MutMapTrait};
use crate::graph_impl::graph_map::graph::{GraphView, TypedGraphMap};
use crate::graph_impl::graph_map::label;
use crate::graph_impl::graph_map::node::lemma_increasing_distinct;
use crate::graph_impl::static_graph::edge_vec::{EdgeVec, EdgeVecView, END};
use crate::graph_impl::static_graph::graph::{StaticGraphView, TypedStaticGraph};
use crate::map::set_map::SetMap;

verus! {

pub type StaticGraphConverter<Ty> = TypedStaticGraphConverter<Ty>;

pub type TypedDiStaticGraphConverter = TypedStaticGraphConverter<Directed>;

pub type TypedUnStaticGraphConverter = TypedStaticGraphConverter<Undirected>;

pub type DiStaticGraphConverter = TypedStaticGraphConverter<Directed>;

pub type UnStaticGraphConverter = TypedStaticGraphConverter<Undirected>;

/// The order of pairs: by first component, then by second.
pub open spec fn pair_le(a: (usize, usize), b: (usize, usize)) -> bool {
    a.0 < b.0 || (a.0 == b.0 && a.1 <= b.1)
}

/// No pair of `s` is above a later one.
pub open spec fn pairs_ascending(s: Seq<(usize, usize)>) -> bool {
    forall|i: int, j: int| 0 <= i <= j < s.len() ==> pair_le(s[i], s[j])
}

/// `slice::sort_unstable` on pairs of integers: afterwards the vector holds
/// the same pairs, each as often as before, in ascending order, pairs being
/// compared by their first component and then by their second.
#[verifier::external_body]
fn sort_pairs(v: &mut Vec<(usize, usize)>)
    ensures
        final(v)@.to_multiset() == old(v)@.to_multiset(),
        pairs_ascending(final(v)@),
{
    v.sort_unstable();
}

/// Lists that hold the same items equally often have the same members and
/// the same length.
proof fn lemma_same_members<A>(a: Seq<A>, b: Seq<A>)
    requires
        a.to_multiset() == b.to_multiset(),
    ensures
        a.len() == b.len(),
        forall|x: A| a.contains(x) <==> b.contains(x),
{
    vstd::seq_lib::to_multiset_len(a);
    vstd::seq_lib::to_multiset_len(b);
    assert forall|x: A| a.contains(x) <==> b.contains(x) by {
        vstd::seq_lib::to_multiset_contains(a, x);
        vstd::seq_lib::to_multiset_contains(b, x);
    }
}

/// Whether `order` lists the members of `members`, each once, by ascending
/// weight, members of equal weight by ascending id.
pub open spec fn ranks(order: Seq<usize>, members: Set<usize>, weight: spec_fn(usize) -> nat) -> bool {
    &&& order.no_duplicates()
    &&& order.to_set() == members
    &&& forall|i: int, j: int|
        0 <= i < j < order.len() ==> weight(order[i]) < weight(order[j]) || (weight(order[i])
            == weight(order[j]) && order[i] < order[j])
}

/// There is one such order only: the weights and the ids settle the place of
/// every member.
pub proof fn lemma_ranks_unique(
    a: Seq<usize>,
    b: Seq<usize>,
    members: Set<usize>,
    weight: spec_fn(usize) -> nat,
)
    requires
        ranks(a, members, weight),
        ranks(b, members, weight),
    ensures
        a == b,
    decreases a.len(),
{
    a.unique_seq_to_set();
    b.unique_seq_to_set();
    if a.len() == 0 {
        assert(a =~= b);
    } else {
        assert(a.to_set().contains(a[0]));
        assert(b.to_set().contains(b[0]));
        assert(b.to_set().contains(a[0]));
        assert(a.to_set().contains(b[0]));
        let j = choose|j: int| 0 <= j < b.len() && b[j] == a[0];
        let i = choose|i: int| 0 <= i < a.len() && a[i] == b[0];
        if a[0] != b[0] {
            assert(0 < i && 0 < j);
            assert(weight(a[0]) < weight(a[i]) || (weight(a[0]) == weight(a[i]) && a[0] < a[i]));
            assert(weight(b[0]) < weight(b[j]) || (weight(b[0]) == weight(b[j]) && b[0] < b[j]));
        }
        let x = a[0];
        let rest = members.remove(x);
        let at = a.drop_first();
        let bt = b.drop_first();
        assert forall|y: usize| at.to_set().contains(y) <==> rest.contains(y) by {
            if at.to_set().contains(y) {
                let k = choose|k: int| 0 <= k < at.len() && at[k] == y;
                assert(a[k + 1] == y);
                assert(a.to_set().contains(y));
            }
            if rest.contains(y) {
                assert(a.to_set().contains(y));
                let k = choose|k: int| 0 <= k < a.len() && a[k] == y;
                assert(at[k - 1] == y);
            }
        }
        assert forall|y: usize| bt.to_set().contains(y) <==> rest.contains(y) by {
            if bt.to_set().contains(y) {
                let k = choose|k: int| 0 <= k < bt.len() && bt[k] == y;
                assert(b[k + 1] == y);
                assert(b.to_set().contains(y));
            }
            if rest.contains(y) {
                assert(b.to_set().contains(y));
                let k = choose|k: int| 0 <= k < b.len() && b[k] == y;
                assert(bt[k - 1] == y);
            }
        }
        assert(at.to_set() =~= rest);
        assert(bt.to_set() =~= rest);
        assert(at.no_duplicates()) by {
            assert forall|p: int, q: int|
                0 <= p < at.len() && 0 <= q < at.len() && p != q implies at[p] != at[q] by {
                assert(a[p + 1] != a[q + 1]);
            }
        }
        assert(bt.no_duplicates()) by {
            assert forall|p: int, q: int|
                0 <= p < bt.len() && 0 <= q < bt.len() && p != q implies bt[p] != bt[q] by {
                assert(b[p + 1] != b[q + 1]);
            }
        }
        assert forall|p: int, q: int| 0 <= p < q < at.len() implies weight(at[p]) < weight(at[q])
            || (weight(at[p]) == weight(at[q]) && at[p] < at[q]) by {
            assert(at[p] == a[p + 1] && at[q] == a[q + 1]);
        }
        assert forall|p: int, q: int| 0 <= p < q < bt.len() implies weight(bt[p]) < weight(bt[q])
            || (weight(bt[p]) == weight(bt[q]) && bt[p] < bt[q]) by {
            assert(bt[p] == b[p + 1] && bt[q] == b[q + 1]);
        }
        lemma_ranks_unique(at, bt, rest, weight);
        assert(a =~= seq![x] + at);
        assert(b =~= seq![x] + bt);
    }
}

/// Orders ids by weight: `pairs` holds each id behind its weight.
fn rank_by(
    pairs: Vec<(usize, usize)>,
    Ghost(members): Ghost<Set<usize>>,
    Ghost(weight): Ghost<spec_fn(usize) -> nat>,
) -> (r: Vec<usize>)
    requires
        forall|i: int|
            0 <= i < pairs@.len() ==> pairs@[i].0 == weight(pairs@[i].1) && members.contains(
                pairs@[i].1,
            ),
        forall|i: int, j: int|
            0 <= i < pairs@.len() && 0 <= j < pairs@.len() && i != j ==> pairs@[i].1 != pairs@[j].1,
        forall|id: usize|
            members.contains(id) ==> exists|i: int| 0 <= i < pairs@.len() && pairs@[i].1 == id,
    ensures
        ranks(r@, members, weight),
{
    let ghost given = pairs@;
    let mut pairs = pairs;
    sort_pairs(&mut pairs);
    let ghost sorted = pairs@;
    proof {
        lemma_same_members(given, sorted);
        assert(given.no_duplicates());
        given.lemma_multiset_has_no_duplicates();
        sorted.lemma_multiset_has_no_duplicates_conv();
        assert forall|i: int| 0 <= i < sorted.len() implies given.contains(sorted[i]) by {
            assert(sorted.contains(sorted[i]));
        }
        assert forall|i: int, j: int|
            0 <= i < sorted.len() && 0 <= j < sorted.len() && i != j implies sorted[i].1
            != sorted[j].1 by {
            assert(given.contains(sorted[i]));
            assert(given.contains(sorted[j]));
            let a = choose|a: int| 0 <= a < given.len() && given[a] == sorted[i];
            let b = choose|b: int| 0 <= b < given.len() && given[b] == sorted[j];
            assert(a != b);
        }
    }
    let mut out: Vec<usize> = Vec::new();
    let mut i: usize = 0;
    while i < pairs.len()
        invariant
            i <= pairs@.len(),
            pairs@ == sorted,
            out@.len() == i,
            forall|j: int| 0 <= j < i ==> out@[j] == sorted[j].1,
        decreases pairs@.len() - i,
    {
        out.push(pairs[i].1);
        i += 1;
    }
    proof {
        let order = out@;
        assert forall|a: int| 0 <= a < order.len() implies sorted[a].0 == weight(order[a])
            && members.contains(order[a]) by {
            assert(given.contains(sorted[a]));
            let k = choose|k: int| 0 <= k < given.len() && given[k] == sorted[a];
        }
        assert forall|id: usize| order.to_set().contains(id) <==> members.contains(id) by {
            if members.contains(id) {
                let k = choose|k: int| 0 <= k < given.len() && given[k].1 == id;
                assert(given.contains(given[k]));
                assert(sorted.contains(given[k]));
                let a = choose|a: int| 0 <= a < sorted.len() && sorted[a] == given[k];
                assert(order[a] == id);
            }
        }
        assert(order.to_set() =~= members);
        assert forall|a: int, b: int| 0 <= a < b < order.len() implies weight(order[a]) < weight(
            order[b],
        ) || (weight(order[a]) == weight(order[b]) && order[a] < order[b]) by {
            assert(pair_le(sorted[a], sorted[b]));
        }
    }
    out
}

/// What a converter holds.
pub struct ConverterView {
    /// The compact graph.
    pub graph: StaticGraphView,
    /// The old id of each node, by new id.
    pub node_ids: Seq<usize>,
    /// The old id of each node label in use, by new id.
    pub node_label_ids: Seq<usize>,
    /// The old id of each edge label in use, by new id.
    pub edge_label_ids: Seq<usize>,
    /// The node labels in use, by new id.
    pub node_labels: Seq<Seq<char>>,
    /// The edge labels in use, by new id.
    pub edge_labels: Seq<Seq<char>>,
}

/// A compact graph made from a mutable graph, with the tables that say how
/// nodes and labels were renumbered.
#[derive(Debug, PartialEq, Eq)]
pub struct TypedStaticGraphConverter<Ty: GraphType> {
    graph: TypedStaticGraph<Ty>,
    node_id_map: label::SetMap,
    node_label_id_map: label::SetMap,
    edge_label_id_map: label::SetMap,
    node_label_map: SetMap,
    edge_label_map: SetMap,
}

impl<Ty: GraphType> View for TypedStaticGraphConverter<Ty> {
    type V = ConverterView;

    closed spec fn view(&self) -> ConverterView {
        ConverterView {
            graph: self.graph@,
            node_ids: self.node_id_map@,
            node_label_ids: self.node_label_id_map@,
            edge_label_ids: self.edge_label_id_map@,
            node_labels: self.node_label_map@,
            edge_labels: self.edge_label_map@,
        }
    }
}

/// The number of neighbours that each node of `g` has.
pub open spec fn degree_of(g: GraphView) -> spec_fn(usize) -> nat {
    |id: usize| g.neighbors(id).len()
}

/// How many nodes of `g` carry each node label id.
pub open spec fn node_label_frequency_of(g: GraphView) -> spec_fn(usize) -> nat {
    |l: usize| g.node_label_frequency(l)
}

/// How many edges of `g` carry each edge label id.
pub open spec fn edge_label_frequency_of(g: GraphView) -> spec_fn(usize) -> nat {
    |l: usize| g.edge_label_frequency(l)
}

/// The label ids below `count` that something carries.
pub open spec fn labels_in_use(count: nat, frequency: spec_fn(usize) -> nat) -> Set<usize> {
    Set::new(|l: usize| l < count && frequency(l) > 0)
}

/// What a label array holds for a node or an edge with label id `label`:
/// the new id of the label, or the sentinel where there is no label.
pub open spec fn renumbered(label: Option<usize>, label_order: Seq<usize>) -> usize {
    match label {
        Some(l) => label_order.index_of(l) as usize,
        None => END,
    }
}

/// The node ids in the order of their new ids: by ascending degree, nodes
/// of equal degree by ascending id.
fn _get_node_id_map<Ty: GraphType>(g: &TypedGraphMap<Ty>) -> (r: label::SetMap)
    requires
        g.wf(),
    ensures
        r.wf(),
        ranks(r@, g@.nodes.dom(), degree_of(g@)),
{
    let ids = g.node_indices();
    let mut node_degree: Vec<(usize, usize)> = Vec::new();
    let mut i: usize = 0;
    while i < ids.len()
        invariant
            i <= ids@.len(),
            g.wf(),
            ids@.no_duplicates(),
            ids@.to_set() == g@.nodes.dom(),
            node_degree@.len() == i,
            forall|j: int|
                0 <= j < i ==> node_degree@[j] == (
                    degree_of(g@)(ids@[j]) as usize,
                    ids@[j],
                ) && node_degree@[j].0 == degree_of(g@)(ids@[j]),
        decreases ids@.len() - i,
    {
        let id = ids[i];
        assert(ids@.to_set().contains(id));
        match g.degree(id) {
            Ok(d) => {
                node_degree.push((d, id));
            },
            Err(_) => {},
        }
        i += 1;
    }
    proof {
        assert forall|id: usize| g@.nodes.dom().contains(id) implies exists|k: int|
            0 <= k < node_degree@.len() && node_degree@[k].1 == id by {
            assert(ids@.to_set().contains(id));
            let k = choose|k: int| 0 <= k < ids@.len() && ids@[k] == id;
            assert(node_degree@[k].1 == id);
        }
        assert forall|k: int| 0 <= k < node_degree@.len() implies g@.nodes.dom().contains(
            node_degree@[k].1,
        ) by {
            assert(ids@.to_set().contains(ids@[k]));
        }
    }
    let order = rank_by(node_degree, Ghost(g@.nodes.dom()), Ghost(degree_of(g@)));
    proof {
        lemma_interned_all_distinct(order@);
    }
    label::SetMap::from_vec(order)
}

/// The label ids that something carries, in the order of their new ids: by
/// ascending frequency, label ids of equal frequency in ascending order.
/// `label_counter` holds the frequency of each label id.
fn label_id_map(label_counter: Vec<usize>, Ghost(frequency): Ghost<spec_fn(usize) -> nat>) -> (r:
    label::SetMap)
    requires
        forall|l: int| 0 <= l < label_counter@.len() ==> label_counter@[l] == frequency(l as usize),
    ensures
        r.wf(),
        ranks(r@, labels_in_use(label_counter@.len(), frequency), frequency),
{
    let ghost members = labels_in_use(label_counter@.len(), frequency);
    let mut pairs: Vec<(usize, usize)> = Vec::new();
    let mut l: usize = 0;
    while l < label_counter.len()
        invariant
            l <= label_counter@.len(),
            members == labels_in_use(label_counter@.len(), frequency),
            forall|k: int|
                0 <= k < label_counter@.len() ==> label_counter@[k] == frequency(k as usize),
            forall|k: int|
                0 <= k < pairs@.len() ==> pairs@[k].0 == frequency(pairs@[k].1) && members.contains(
                    pairs@[k].1,
                ) && pairs@[k].1 < l,
            forall|a: int, b: int| 0 <= a < b < pairs@.len() ==> pairs@[a].1 < pairs@[b].1,
            forall|id: usize|
                members.contains(id) && id < l ==> exists|k: int|
                    0 <= k < pairs@.len() && pairs@[k].1 == id,
        decreases label_counter@.len() - l,
    {
        let f = label_counter[l];
        let ghost before = pairs@;
        if f > 0 {
            pairs.push((f, l));
            proof {
                assert forall|id: usize| members.contains(id) && id < l + 1 implies exists|k: int|
                    0 <= k < pairs@.len() && pairs@[k].1 == id by {
                    if id < l {
                        let k = choose|k: int| 0 <= k < before.len() && before[k].1 == id;
                        assert(pairs@[k].1 == id);
                    } else {
                        assert(pairs@[before.len() as int].1 == id);
                    }
                }
            }
        } else {
            proof {
                assert forall|id: usize| members.contains(id) && id < l + 1 implies exists|k: int|
                    0 <= k < pairs@.len() && pairs@[k].1 == id by {
                    assert(id < l);
                }
            }
        }
        l += 1;
    }
    let order = rank_by(pairs, Ghost(members), Ghost(frequency));
    proof {
        lemma_interned_all_distinct(order@);
    }
    label::SetMap::from_vec(order)
}

/// The node label ids in use, in the order of their new ids.
fn _get_node_label_id_map<Ty: GraphType>(g: &TypedGraphMap<Ty>) -> (r: label::SetMap)
    requires
        g.wf(),
    ensures
        r.wf(),
        ranks(r@, labels_in_use(g@.node_labels.len(), node_label_frequency_of(g@)), node_label_frequency_of(g@)),
{
    let label_counter = g.get_node_label_id_counter();
    label_id_map(label_counter, Ghost(node_label_frequency_of(g@)))
}

/// The edge label ids in use, in the order of their new ids.
fn _get_edge_label_id_map<Ty: GraphType>(g: &TypedGraphMap<Ty>) -> (r: label::SetMap)
    requires
        g.wf(),
    ensures
        r.wf(),
        ranks(r@, labels_in_use(g@.edge_labels.len(), edge_label_frequency_of(g@)), edge_label_frequency_of(g@)),
{
    let label_counter = g.get_edge_label_id_counter();
    label_id_map(label_counter, Ghost(edge_label_frequency_of(g@)))
}

/// The labels of `old_map` that `new_map` names, in the order in which it
/// names them.
pub open spec fn merged(new_map: Seq<usize>, old_map: Seq<Seq<char>>) -> Seq<Seq<char>> {
    Seq::new(new_map.len(), |i: int| old_map[new_map[i] as int])
}

/// The interner of the labels in use: the label with new id `i` is the
/// label whose old id `new_map` holds at `i`.
fn _merge_map(new_map: &label::SetMap, old_map: &SetMap) -> (r: SetMap)
    requires
        new_map.wf(),
        old_map.wf(),
        forall|i: int| 0 <= i < new_map@.len() ==> new_map@[i] < old_map@.len(),
    ensures
        r.wf(),
        r@ == merged(new_map@, old_map@),
{
    let mut result = SetMap::new();
    let n = new_map.len();
    let mut i: usize = 0;
    while i < n
        invariant
            i <= n,
            n == new_map@.len(),
            new_map.wf(),
            old_map.wf(),
            forall|k: int| 0 <= k < new_map@.len() ==> new_map@[k] < old_map@.len(),
            result.wf(),
            result@ == merged(new_map@, old_map@).take(i as int),
        decreases n - i,
    {
        let ghost before = result@;
        let ghost all = merged(new_map@, old_map@);
        match new_map.get_item(i) {
            Some(old_id) => match old_map.get_item(*old_id) {
                Some(item) => {
                    proof {
                        assert(item@ == all[i as int]);
                        assert(!before.contains(item@)) by {
                            if before.contains(item@) {
                                let k = choose|k: int| 0 <= k < before.len() && before[k] == item@;
                                assert(all[k] == all[i as int]);
                                assert(old_map@[new_map@[k] as int] == old_map@[new_map@[i as int] as int]);
                                assert(new_map@[k] == new_map@[i as int]);
                            }
                        }
                    }
                    result.add_item(item.clone());
                    assert(result@ =~= all.take(i + 1));
                },
                None => {},
            },
            None => {},
        }
        i += 1;
    }
    assert(merged(new_map@, old_map@).take(n as int) == merged(new_map@, old_map@));
    result
}

/// Whether `b` is a neighbour of `a` in `g`: an outgoing one, or with
/// `incoming` an incoming one.
pub open spec fn linked(g: GraphView, incoming: bool, a: usize, b: usize) -> bool {
    if incoming {
        g.in_neighbors(a).contains(b)
    } else {
        g.neighbors(a).contains(b)
    }
}

/// Whether `edges[lo..hi]` holds the neighbours of node `a` of `g` under
/// their new ids: each once, in ascending order, and no other.
pub open spec fn slice_ok(
    g: GraphView,
    order: Seq<usize>,
    incoming: bool,
    edges: Seq<usize>,
    a: usize,
    lo: int,
    hi: int,
) -> bool {
    &&& 0 <= lo <= hi <= edges.len()
    &&& forall|i: int, j: int| lo <= i < j < hi ==> edges[i] < edges[j]
    &&& forall|i: int|
        lo <= i < hi ==> (#[trigger] edges[i]) < order.len() && linked(
            g,
            incoming,
            a,
            order[edges[i] as int],
        )
    &&& forall|w: int|
        0 <= w < order.len() && linked(g, incoming, a, #[trigger] order[w]) ==> exists|i: int|
            lo <= i < hi && edges[i] == w
}

/// Whether `labels[lo..hi]` holds, for each neighbour in `edges[lo..hi]`,
/// the new label id of the edge from node `a` of `g` to it.
pub open spec fn slice_labels_ok(
    g: GraphView,
    order: Seq<usize>,
    label_order: Seq<usize>,
    edges: Seq<usize>,
    labels: Seq<usize>,
    a: usize,
    lo: int,
    hi: int,
) -> bool {
    forall|i: int|
        lo <= i < hi ==> (#[trigger] labels[i]) == renumbered(
            g.edges[g.key(a, order[edges[i] as int])],
            label_order,
        )
}

/// Whether the adjacency structure `ev` holds the neighbours of `g` under
/// the renumbering `order`: node `order[x]` has become node `x`.
pub open spec fn mirrors(g: GraphView, order: Seq<usize>, incoming: bool, ev: EdgeVecView) -> bool {
    &&& ev.valid()
    &&& ev.num_nodes() == order.len()
    &&& forall|x: int|
        0 <= x < order.len() ==> slice_ok(
            g,
            order,
            incoming,
            ev.edges,
            #[trigger] order[x],
            ev.offsets[x] as int,
            ev.offsets[x + 1] as int,
        )
}

/// Whether the label array of `ev`, if it has one, holds the edge labels of
/// `g` under the renumbering `label_order` of the label ids.
pub open spec fn labels_mirror(
    g: GraphView,
    order: Seq<usize>,
    label_order: Seq<usize>,
    ev: EdgeVecView,
) -> bool {
    ev.labels is Some ==> forall|x: int|
        0 <= x < order.len() ==> slice_labels_ok(
            g,
            order,
            label_order,
            ev.edges,
            ev.labels->0,
            #[trigger] order[x],
            ev.offsets[x] as int,
            ev.offsets[x + 1] as int,
        )
}

/// A label that an edge carries is a label in use.
proof fn lemma_carried_edge_label_in_use(g: GraphView, k: (usize, usize))
    requires
        g.valid(),
        g.edges.contains_key(k),
        g.edges[k] is Some,
    ensures
        labels_in_use(g.edge_labels.len(), edge_label_frequency_of(g)).contains(g.edges[k]->0),
{
    let l = g.edges[k]->0;
    let pred = |x: (usize, usize)| g.edges[x] == Some(l);
    g.edges.dom().lemma_len_filter(pred);
    assert(g.edges.dom().filter(pred).contains(k));
}

/// A label that a node carries is a label in use.
proof fn lemma_carried_node_label_in_use(g: GraphView, id: usize)
    requires
        g.valid(),
        g.nodes.contains_key(id),
        g.nodes[id] is Some,
    ensures
        labels_in_use(g.node_labels.len(), node_label_frequency_of(g)).contains(g.nodes[id]->0),
{
    let l = g.nodes[id]->0;
    let pred = |x: usize| g.nodes[x] == Some(l);
    g.nodes.dom().lemma_len_filter(pred);
    assert(g.nodes.dom().filter(pred).contains(id));
}

/// The neighbours of node `node_id` under their new ids, in ascending
/// order, each with the new label id of the edge to it (the sentinel where
/// the edge has no label, and for incoming neighbours).
fn renumber_neighbors<Ty: GraphType>(
    g: &TypedGraphMap<Ty>,
    node_map: &label::SetMap,
    label_map: &label::SetMap,
    node_id: usize,
    incoming: bool,
) -> (r: Vec<(usize, usize)>)
    requires
        g.wf(),
        node_map.wf(),
        node_map@.to_set() == g@.nodes.dom(),
        label_map.wf(),
        label_map@.to_set() == labels_in_use(g@.edge_labels.len(), edge_label_frequency_of(g@)),
        g@.has_node(node_id),
    ensures
        forall|i: int, j: int| 0 <= i < j < r@.len() ==> r@[i].0 < r@[j].0,
        forall|i: int|
            0 <= i < r@.len() ==> (#[trigger] r@[i]).0 < node_map@.len() && linked(
                g@,
                incoming,
                node_id,
                node_map@[r@[i].0 as int],
            ),
        forall|i: int|
            0 <= i < r@.len() && !incoming ==> (#[trigger] r@[i]).1 == renumbered(
                g@.edges[g@.key(node_id, node_map@[r@[i].0 as int])],
                label_map@,
            ),
        forall|w: int|
            0 <= w < node_map@.len() && linked(g@, incoming, node_id, #[trigger] node_map@[w])
                ==> exists|i: int| 0 <= i < r@.len() && r@[i].0 == w,
{
    let ghost order = node_map@;
    let ghost view = g@;
    proof {
        g.lemma_wf_valid();
    }
    let mut pairs: Vec<(usize, usize)> = Vec::new();
    let node = match g.get_node(node_id) {
        Some(node) => node,
        None => {
            return pairs;
        },
    };
    let nbrs = if incoming {
        node.in_neighbors()
    } else {
        node.neighbors()
    };
    proof {
        lemma_increasing_distinct(nbrs@);
        assert forall|b: usize| nbrs@.contains(b) <==> linked(view, incoming, node_id, b) by {
            assert(nbrs@.contains(b) <==> nbrs@.to_set().contains(b));
        }
    }
    let mut k: usize = 0;
    while k < nbrs.len()
        invariant
            k <= nbrs@.len(),
            g.wf(),
            view == g@,
            view.valid(),
            order == node_map@,
            node_map.wf(),
            order.to_set() == view.nodes.dom(),
            label_map.wf(),
            label_map@.to_set() == labels_in_use(
                view.edge_labels.len(),
                edge_label_frequency_of(view),
            ),
            view.has_node(node_id),
            forall|b: usize| nbrs@.contains(b) <==> linked(view, incoming, node_id, b),
            pairs@.len() == k,
            forall|j: int|
                0 <= j < k ==> (#[trigger] pairs@[j]).0 < order.len() && order[pairs@[j].0 as int]
                    == nbrs@[j],
            forall|j: int|
                0 <= j < k && !incoming ==> (#[trigger] pairs@[j]).1 == renumbered(
                    view.edges[view.key(node_id, nbrs@[j])],
                    label_map@,
                ),
        decreases nbrs@.len() - k,
    {
        let v = nbrs[k];
        proof {
            assert(nbrs@.contains(v));
            assert(linked(view, incoming, node_id, v));
            if incoming {
                assert(view.has_edge(v, node_id));
                assert(view.edges.contains_key(view.key(v, node_id)));
            } else {
                assert(view.has_edge(node_id, v));
                assert(view.edges.contains_key(view.key(node_id, v)));
            }
            assert(view.nodes.dom().contains(v));
            assert(order.to_set().contains(v));
            assert(order.contains(v));
        }
        let new_v = match node_map.find_index(&v) {
            Some(i) => i,
            None => 0,
        };
        let code = if incoming {
            END
        } else {
            match g.get_edge(node_id, v) {
                Some(e) => match e.get_label() {
                    Some(l) => {
                        proof {
                            lemma_carried_edge_label_in_use(view, view.key(node_id, v));
                            assert(label_map@.to_set().contains(l));
                            assert(label_map@.contains(l));
                        }
                        match label_map.find_index(&l) {
                            Some(i) => i,
                            None => END,
                        }
                    },
                    None => END,
                },
                None => END,
            }
        };
        pairs.push((new_v, code));
        k += 1;
    }
    let ghost given = pairs@;
    sort_pairs(&mut pairs);
    proof {
        let sorted = pairs@;
        lemma_same_members(given, sorted);
        assert forall|i: int, j: int|
            0 <= i < given.len() && 0 <= j < given.len() && i != j implies given[i].0
            != given[j].0 by {
            assert(order[given[i].0 as int] == nbrs@[i]);
            assert(order[given[j].0 as int] == nbrs@[j]);
        }
        assert(given.no_duplicates()) by {
            assert forall|i: int, j: int|
                0 <= i < given.len() && 0 <= j < given.len() && i != j implies given[i]
                != given[j] by {
                assert(given[i].0 != given[j].0);
            }
        }
        given.lemma_multiset_has_no_duplicates();
        sorted.lemma_multiset_has_no_duplicates_conv();
        assert forall|i: int, j: int| 0 <= i < j < sorted.len() implies sorted[i].0
            < sorted[j].0 by {
            assert(pair_le(sorted[i], sorted[j]));
            assert(sorted.contains(sorted[i]));
            assert(sorted.contains(sorted[j]));
            let a = choose|a: int| 0 <= a < given.len() && given[a] == sorted[i];
            let b = choose|b: int| 0 <= b < given.len() && given[b] == sorted[j];
            assert(a != b);
        }
        assert forall|i: int| 0 <= i < sorted.len() implies (#[trigger] sorted[i]).0 < order.len()
            && linked(view, incoming, node_id, order[sorted[i].0 as int]) && (!incoming
            ==> sorted[i].1 == renumbered(
            view.edges[view.key(node_id, order[sorted[i].0 as int])],
            label_map@,
        )) by {
            assert(sorted.contains(sorted[i]));
            let a = choose|a: int| 0 <= a < given.len() && given[a] == sorted[i];
            assert(order[given[a].0 as int] == nbrs@[a]);
            assert(nbrs@.contains(nbrs@[a]));
        }
        assert forall|w: int|
            0 <= w < order.len() && linked(view, incoming, node_id, #[trigger] order[w]) implies exists|
            i: int,
        | 0 <= i < sorted.len() && sorted[i].0 == w by {
            assert(nbrs@.contains(order[w]));
            let a = choose|a: int| 0 <= a < nbrs@.len() && nbrs@[a] == order[w];
            assert(order[given[a].0 as int] == order[w]);
            assert(given[a].0 == w);
            assert(given.contains(given[a]));
            assert(sorted.contains(given[a]));
            let i = choose|i: int| 0 <= i < sorted.len() && sorted[i] == given[a];
            assert(sorted[i].0 == w);
        }
    }
    pairs
}

/// A slice that is in order stays in order when the array grows behind it.
proof fn lemma_slice_ok_extends(
    g: GraphView,
    order: Seq<usize>,
    incoming: bool,
    edges: Seq<usize>,
    longer: Seq<usize>,
    a: usize,
    lo: int,
    hi: int,
)
    requires
        slice_ok(g, order, incoming, edges, a, lo, hi),
        edges.len() <= longer.len(),
        forall|i: int| 0 <= i < edges.len() ==> longer[i] == edges[i],
    ensures
        slice_ok(g, order, incoming, longer, a, lo, hi),
{
    assert forall|w: int|
        0 <= w < order.len() && linked(g, incoming, a, #[trigger] order[w]) implies exists|i: int|
        lo <= i < hi && longer[i] == w by {
        let i = choose|i: int| lo <= i < hi && edges[i] == w;
        assert(longer[i] == w);
    }
}

/// The adjacency structure of `g` under the renumbering `node_map`: the
/// outgoing neighbours, or with `incoming` the incoming ones. With
/// `with_labels` each stored neighbour gets the new label id of its edge.
fn build_edge_vec<Ty: GraphType>(
    g: &TypedGraphMap<Ty>,
    node_map: &label::SetMap,
    label_map: &label::SetMap,
    incoming: bool,
    with_labels: bool,
) -> (r: EdgeVec)
    requires
        g.wf(),
        node_map.wf(),
        node_map@.to_set() == g@.nodes.dom(),
        label_map.wf(),
        label_map@.to_set() == labels_in_use(g@.edge_labels.len(), edge_label_frequency_of(g@)),
        with_labels ==> !incoming,
    ensures
        r.wf(),
        mirrors(g@, node_map@, incoming, r@),
        r@.labels is Some <==> with_labels,
        labels_mirror(g@, node_map@, label_map@, r@),
{
    let ghost order = node_map@;
    let ghost view = g@;
    let ghost label_order = label_map@;
    let n = node_map.len();
    let mut offset_vec: Vec<usize> = Vec::new();
    let mut edge_vec: Vec<usize> = Vec::new();
    let mut edge_labels: Vec<usize> = Vec::new();
    let mut u: usize = 0;
    while u < n
        invariant
            u <= n,
            n == order.len(),
            g.wf(),
            view == g@,
            order == node_map@,
            label_order == label_map@,
            node_map.wf(),
            order.to_set() == view.nodes.dom(),
            label_map.wf(),
            label_order.to_set() == labels_in_use(
                view.edge_labels.len(),
                edge_label_frequency_of(view),
            ),
            with_labels ==> !incoming,
            offset_vec@.len() == u,
            edge_labels@.len() == edge_vec@.len(),
            u > 0 ==> offset_vec@[0] == 0,
            u == 0 ==> edge_vec@.len() == 0,
            forall|a: int, b: int| 0 <= a <= b < u ==> offset_vec@[a] <= offset_vec@[b],
            forall|a: int| 0 <= a < u ==> offset_vec@[a] <= edge_vec@.len(),
            forall|x: int|
                0 <= x < u ==> slice_ok(
                    view,
                    order,
                    incoming,
                    edge_vec@,
                    #[trigger] order[x],
                    offset_vec@.push(edge_vec.len())[x] as int,
                    offset_vec@.push(edge_vec.len())[x + 1] as int,
                ),
            forall|x: int|
                0 <= x < u && !incoming ==> slice_labels_ok(
                    view,
                    order,
                    label_order,
                    edge_vec@,
                    edge_labels@,
                    #[trigger] order[x],
                    offset_vec@.push(edge_vec.len())[x] as int,
                    offset_vec@.push(edge_vec.len())[x + 1] as int,
                ),
        decreases n - u,
    {
        let ghost offsets0 = offset_vec@;
        let ghost edges0 = edge_vec@;
        let ghost labels0 = edge_labels@;
        let ghost bounds0 = offsets0.push(edge_vec.len());
        let node_id = match node_map.get_item(u) {
            Some(x) => *x,
            None => 0,
        };
        proof {
            assert(order[u as int] == node_id);
            assert(order.to_set().contains(node_id));
            assert(view.has_node(node_id));
        }
        let base = edge_vec.len();
        offset_vec.push(base);
        let neighbors = renumber_neighbors(g, node_map, label_map, node_id, incoming);
        let mut k: usize = 0;
        while k < neighbors.len()
            invariant
                k <= neighbors@.len(),
                base == edges0.len(),
                edge_vec@.len() == base + k,
                edge_labels@.len() == edge_vec@.len(),
                forall|i: int| 0 <= i < base ==> edge_vec@[i] == edges0[i],
                labels0.len() == edges0.len(),
                forall|i: int| 0 <= i < base ==> edge_labels@[i] == labels0[i],
                forall|j: int| 0 <= j < k ==> edge_vec@[base + j] == neighbors@[j].0,
                forall|j: int| 0 <= j < k ==> edge_labels@[base + j] == neighbors@[j].1,
            decreases neighbors@.len() - k,
        {
            let p = neighbors[k];
            edge_vec.push(p.0);
            edge_labels.push(p.1);
            k += 1;
        }
        proof {
            let edges1 = edge_vec@;
            let labels1 = edge_labels@;
            let offsets1 = offset_vec@;
            let bounds1 = offsets1.push(edge_vec.len());
            assert(offsets1 == bounds0);
            assert forall|x: int| 0 <= x < u + 1 implies slice_ok(
                view,
                order,
                incoming,
                edges1,
                #[trigger] order[x],
                bounds1[x] as int,
                bounds1[x + 1] as int,
            ) by {
                if x < u {
                    assert(bounds1[x] == bounds0[x]);
                    assert(bounds1[x + 1] == bounds0[x + 1]);
                    lemma_slice_ok_extends(
                        view,
                        order,
                        incoming,
                        edges0,
                        edges1,
                        order[x],
                        bounds0[x] as int,
                        bounds0[x + 1] as int,
                    );
                } else {
                    let lo = base as int;
                    let hi = edges1.len() as int;
                    assert(bounds1[x] == base);
                    assert(bounds1[x + 1] == edges1.len());
                    assert forall|i: int, j: int| lo <= i < j < hi implies edges1[i]
                        < edges1[j] by {
                        assert(edges1[lo + (i - lo)] == neighbors@[i - lo].0);
                        assert(edges1[lo + (j - lo)] == neighbors@[j - lo].0);
                    }
                    assert forall|i: int| lo <= i < hi implies (#[trigger] edges1[i]) < order.len()
                        && linked(view, incoming, node_id, order[edges1[i] as int]) by {
                        assert(edges1[lo + (i - lo)] == neighbors@[i - lo].0);
                    }
                    assert forall|w: int|
                        0 <= w < order.len() && linked(
                            view,
                            incoming,
                            node_id,
                            #[trigger] order[w],
                        ) implies exists|i: int| lo <= i < hi && edges1[i] == w by {
                        let j = choose|j: int| 0 <= j < neighbors@.len() && neighbors@[j].0 == w;
                        assert(edges1[lo + j] == w);
                    }
                }
            }
            assert forall|x: int| 0 <= x < u + 1 && !incoming implies slice_labels_ok(
                view,
                order,
                label_order,
                edges1,
                labels1,
                #[trigger] order[x],
                bounds1[x] as int,
                bounds1[x + 1] as int,
            ) by {
                if x < u {
                    assert(bounds1[x] == bounds0[x]);
                    assert(bounds1[x + 1] == bounds0[x + 1]);
                    assert(slice_labels_ok(
                        view,
                        order,
                        label_order,
                        edges0,
                        labels0,
                        order[x],
                        bounds0[x] as int,
                        bounds0[x + 1] as int,
                    ));
                    assert(slice_ok(
                        view,
                        order,
                        incoming,
                        edges0,
                        order[x],
                        bounds0[x] as int,
                        bounds0[x + 1] as int,
                    ));
                    assert forall|i: int| bounds0[x] <= i < bounds0[x + 1] implies (
                    #[trigger] labels1[i]) == renumbered(
                        view.edges[view.key(order[x], order[edges1[i] as int])],
                        label_order,
                    ) by {
                        assert(labels1[i] == labels0[i]);
                        assert(edges1[i] == edges0[i]);
                    }
                } else {
                    let lo = base as int;
                    let hi = edges1.len() as int;
                    assert(bounds1[x] == base);
                    assert(bounds1[x + 1] == edges1.len());
                    assert forall|i: int| lo <= i < hi implies (#[trigger] labels1[i])
                        == renumbered(
                        view.edges[view.key(node_id, order[edges1[i] as int])],
                        label_order,
                    ) by {
                        assert(edges1[lo + (i - lo)] == neighbors@[i - lo].0);
                        assert(labels1[lo + (i - lo)] == neighbors@[i - lo].1);
                    }
                }
            }
        }
        u += 1;
    }
    let total = edge_vec.len();
    offset_vec.push(total);
    proof {
        let ev = EdgeVecView {
            offsets: offset_vec@,
            edges: edge_vec@,
            labels: if with_labels {
                Some(edge_labels@)
            } else {
                None
            },
        };
        assert forall|i: int, j: int| 0 <= i <= j < ev.offsets.len() implies ev.offsets[i]
            <= ev.offsets[j] by {}
        assert(ev.valid());
    }
    let built = if with_labels {
        EdgeVec::with_labels(offset_vec, edge_vec, edge_labels)
    } else {
        EdgeVec::new(offset_vec, edge_vec)
    };
    match built {
        Ok(ev) => ev,
        Err(_) => vstd::pervasive::unreached(),
    }
}

/// Whether place `p` of the neighbour array belongs to node `u`.
pub open spec fn owns(ev: EdgeVecView, u: int, p: int) -> bool {
    0 <= u < ev.num_nodes() && ev.offsets[u] <= p < ev.offsets[u + 1]
}

/// Each place below the offset of node `k` belongs to a node below `k`.
proof fn lemma_owner_below(ev: EdgeVecView, p: int, k: int)
    requires
        ev.valid(),
        0 <= k <= ev.num_nodes(),
        0 <= p < ev.offsets[k],
    ensures
        exists|u: int| 0 <= u < k && #[trigger] owns(ev, u, p),
    decreases k,
{
    if k == 0 {
    } else if ev.offsets[k - 1] <= p {
        assert(owns(ev, k - 1, p));
    } else {
        lemma_owner_below(ev, p, k - 1);
        let u = choose|u: int| 0 <= u < k - 1 && #[trigger] owns(ev, u, p);
        assert(owns(ev, u, p));
    }
}

/// No place of the neighbour array belongs to two nodes.
proof fn lemma_owner_unique(ev: EdgeVecView, u: int, v: int, p: int)
    requires
        ev.valid(),
        owns(ev, u, p),
        owns(ev, v, p),
    ensures
        u == v,
{
    if u < v {
        assert(ev.offsets[u + 1] <= ev.offsets[v]);
    } else if v < u {
        assert(ev.offsets[v + 1] <= ev.offsets[u]);
    }
}

/// The adjacency structure of a directed graph stores one neighbour for each
/// edge, in either direction.
pub proof fn lemma_mirror_size(g: GraphView, order: Seq<usize>, incoming: bool, ev: EdgeVecView)
    requires
        g.valid(),
        g.directed,
        order.no_duplicates(),
        order.to_set() == g.nodes.dom(),
        mirrors(g, order, incoming, ev),
    ensures
        ev.edges.len() == g.edges.dom().len(),
{
    let len = ev.edges.len() as int;
    let places = vstd::set_lib::set_int_range(0, len);
    vstd::set_lib::lemma_int_range(0, len);
    let owner = |p: int| choose|u: int| owns(ev, u, p);
    let f = |p: int|
        {
            let u = owner(p);
            if incoming {
                (order[ev.edges[p] as int], order[u])
            } else {
                (order[u], order[ev.edges[p] as int])
            }
        };
    assert forall|p: int| 0 <= p < len implies owns(ev, owner(p), p) && slice_ok(
        g,
        order,
        incoming,
        ev.edges,
        order[owner(p)],
        ev.offsets[owner(p)] as int,
        ev.offsets[owner(p) + 1] as int,
    ) && ev.edges[p] < order.len() && g.edges.contains_key(#[trigger] f(p)) by {
        lemma_owner_below(ev, p, ev.num_nodes());
        let u = owner(p);
        assert(owns(ev, u, p));
        assert(slice_ok(
            g,
            order,
            incoming,
            ev.edges,
            order[u],
            ev.offsets[u] as int,
            ev.offsets[u + 1] as int,
        ));
        assert(ev.edges[p] < order.len());
        assert(linked(g, incoming, order[u], order[ev.edges[p] as int]));
    }
    assert forall|p: int, q: int|
        places.contains(p) && places.contains(q) && #[trigger] f(p) == #[trigger] f(
            q,
        ) implies p == q by {
        let u = owner(p);
        let v = owner(q);
        assert(g.edges.contains_key(f(p)));
        assert(g.edges.contains_key(f(q)));
        assert(order[u] == order[v]);
        assert(u == v);
        assert(order[ev.edges[p] as int] == order[ev.edges[q] as int]);
        assert(ev.edges[p] == ev.edges[q]);
        if p < q {
            assert(ev.edges[p] < ev.edges[q]);
        } else if q < p {
            assert(ev.edges[q] < ev.edges[p]);
        }
    }
    assert forall|k: (usize, usize)| places.map(f).contains(k) <==> g.edges.dom().contains(k) by {
        if places.map(f).contains(k) {
            let p = choose|p: int| places.contains(p) && f(p) == k;
            assert(g.edges.contains_key(f(p)));
        }
        if g.edges.dom().contains(k) {
            assert(g.edges.contains_key(k));
            assert(g.nodes.dom().contains(k.0));
            assert(g.nodes.dom().contains(k.1));
            assert(order.to_set().contains(k.0));
            assert(order.to_set().contains(k.1));
            let a = choose|a: int| 0 <= a < order.len() && order[a] == k.0;
            let b = choose|b: int| 0 <= b < order.len() && order[b] == k.1;
            assert(g.key(k.0, k.1) == k);
            if incoming {
                assert(linked(g, incoming, order[b], order[a]));
                assert(slice_ok(
                    g,
                    order,
                    incoming,
                    ev.edges,
                    order[b],
                    ev.offsets[b] as int,
                    ev.offsets[b + 1] as int,
                ));
                let i = choose|i: int| ev.offsets[b] <= i < ev.offsets[b + 1] && ev.edges[i] == a;
                assert(owns(ev, b, i));
                assert(g.edges.contains_key(f(i)));
                lemma_owner_unique(ev, b, owner(i), i);
                assert(places.contains(i) && f(i) == k);
            } else {
                assert(linked(g, incoming, order[a], order[b]));
                assert(slice_ok(
                    g,
                    order,
                    incoming,
                    ev.edges,
                    order[a],
                    ev.offsets[a] as int,
                    ev.offsets[a + 1] as int,
                ));
                let i = choose|i: int| ev.offsets[a] <= i < ev.offsets[a + 1] && ev.edges[i] == b;
                assert(owns(ev, a, i));
                assert(g.edges.contains_key(f(i)));
                lemma_owner_unique(ev, a, owner(i), i);
                assert(places.contains(i) && f(i) == k);
            }
        }
    }
    assert(places.map(f) =~= g.edges.dom());
    vstd::set_lib::lemma_map_size(places, g.edges.dom(), f);
}

/// The outgoing adjacency structure of `g` under the renumbering `node_map`,
/// with the edge labels under the renumbering `label_map` if any edge
/// carries a label.
fn _get_edge_vec<Ty: GraphType>(
    g: &TypedGraphMap<Ty>,
    node_map: &label::SetMap,
    label_map: &label::SetMap,
) -> (r: EdgeVec)
    requires
        g.wf(),
        node_map.wf(),
        node_map@.to_set() == g@.nodes.dom(),
        label_map.wf(),
        label_map@.to_set() == labels_in_use(g@.edge_labels.len(), edge_label_frequency_of(g@)),
    ensures
        r.wf(),
        mirrors(g@, node_map@, false, r@),
        r@.labels is Some <==> label_map@.len() > 0,
        labels_mirror(g@, node_map@, label_map@, r@),
{
    let has_edge_label = !label_map.is_empty();
    build_edge_vec(g, node_map, label_map, false, has_edge_label)
}

/// The incoming adjacency structure of `g` under the renumbering
/// `node_map`. It carries no edge labels.
fn _get_in_edge_vec<Ty: GraphType>(
    g: &TypedGraphMap<Ty>,
    node_map: &label::SetMap,
    label_map: &label::SetMap,
) -> (r: EdgeVec)
    requires
        g.wf(),
        node_map.wf(),
        node_map@.to_set() == g@.nodes.dom(),
        label_map.wf(),
        label_map@.to_set() == labels_in_use(g@.edge_labels.len(), edge_label_frequency_of(g@)),
    ensures
        r.wf(),
        mirrors(g@, node_map@, true, r@),
        r@.labels is None,
{
    build_edge_vec(g, node_map, label_map, true, false)
}

/// The node label array of the compact graph: for each new node id the new
/// id of the node's label, or the sentinel. There is none if no node
/// carries a label.
pub open spec fn node_label_array(g: GraphView, order: Seq<usize>, label_order: Seq<usize>) -> Option<
    Seq<usize>,
> {
    if label_order.len() == 0 {
        None
    } else {
        Some(Seq::new(order.len(), |x: int| renumbered(g.nodes[order[x]], label_order)))
    }
}

/// The node labels by new node id.
fn _get_node_labels<Ty: GraphType>(
    g: &TypedGraphMap<Ty>,
    node_map: &label::SetMap,
    label_map: &label::SetMap,
) -> (r: Option<Vec<usize>>)
    requires
        g.wf(),
        node_map.wf(),
        node_map@.to_set() == g@.nodes.dom(),
        label_map.wf(),
        label_map@.to_set() == labels_in_use(g@.node_labels.len(), node_label_frequency_of(g@)),
    ensures
        match r {
            Some(v) => Some(v@) == node_label_array(g@, node_map@, label_map@),
            None => node_label_array(g@, node_map@, label_map@) is None,
        },
{
    if label_map.is_empty() {
        return None;
    }
    let ghost view = g@;
    let ghost order = node_map@;
    let ghost want = node_label_array(view, order, label_map@)->0;
    proof {
        g.lemma_wf_valid();
    }
    let n = node_map.len();
    let mut labels: Vec<usize> = Vec::new();
    let mut u: usize = 0;
    while u < n
        invariant
            u <= n,
            n == order.len(),
            g.wf(),
            view == g@,
            view.valid(),
            order == node_map@,
            node_map.wf(),
            order.to_set() == view.nodes.dom(),
            label_map.wf(),
            label_map@.to_set() == labels_in_use(
                view.node_labels.len(),
                node_label_frequency_of(view),
            ),
            want == Seq::new(order.len(), |x: int| renumbered(view.nodes[order[x]], label_map@)),
            labels@ == want.take(u as int),
        decreases n - u,
    {
        let node_id = match node_map.get_item(u) {
            Some(x) => *x,
            None => 0,
        };
        proof {
            assert(order[u as int] == node_id);
            assert(order.to_set().contains(node_id));
        }
        let code = match g.get_node(node_id) {
            Some(node) => match node.get_label_id() {
                Some(l) => {
                    proof {
                        lemma_carried_node_label_in_use(view, node_id);
                        assert(label_map@.to_set().contains(l));
                        assert(label_map@.contains(l));
                    }
                    match label_map.find_index(&l) {
                        Some(i) => i,
                        None => END,
                    }
                },
                None => END,
            },
            None => END,
        };
        labels.push(code);
        assert(labels@ =~= want.take(u + 1));
        u += 1;
    }
    assert(want.take(n as int) == want);
    Some(labels)
}

/// Whether `c` is the conversion of the mutable graph `g`: nodes renumbered
/// by degree, labels by frequency, adjacency carried over under the new
/// numbers into ascending neighbour lists.
pub open spec fn converts(g: GraphView, c: ConverterView) -> bool {
    &&& ranks(c.node_ids, g.nodes.dom(), degree_of(g))
    &&& ranks(
        c.node_label_ids,
        labels_in_use(g.node_labels.len(), node_label_frequency_of(g)),
        node_label_frequency_of(g),
    )
    &&& ranks(
        c.edge_label_ids,
        labels_in_use(g.edge_labels.len(), edge_label_frequency_of(g)),
        edge_label_frequency_of(g),
    )
    &&& c.node_labels == merged(c.node_label_ids, g.node_labels)
    &&& c.edge_labels == merged(c.edge_label_ids, g.edge_labels)
    &&& c.graph.valid()
    &&& c.graph.directed == g.directed
    &&& c.graph.num_nodes == c.node_ids.len()
    &&& c.graph.num_edges == StaticGraphView::counted_edges(g.directed, c.graph.edge_vec)
    &&& mirrors(g, c.node_ids, false, c.graph.edge_vec)
    &&& (c.graph.edge_vec.labels is Some <==> c.edge_label_ids.len() > 0)
    &&& labels_mirror(g, c.node_ids, c.edge_label_ids, c.graph.edge_vec)
    &&& match c.graph.in_edge_vec {
        Some(iv) => g.directed && mirrors(g, c.node_ids, true, iv) && iv.labels is None,
        None => !g.directed,
    }
    &&& c.graph.labels == node_label_array(g, c.node_ids, c.node_label_ids)
    &&& c.graph.node_labels == c.node_labels
    &&& c.graph.edge_labels == c.edge_labels
}

/// The labels that a renumbering picks from an interner are all different.
proof fn lemma_merged_distinct(new_map: Seq<usize>, old_map: Seq<Seq<char>>)
    requires
        new_map.no_duplicates(),
        old_map.no_duplicates(),
        forall|i: int| 0 <= i < new_map.len() ==> new_map[i] < old_map.len(),
    ensures
        merged(new_map, old_map).no_duplicates(),
{
    let m = merged(new_map, old_map);
    assert forall|i: int, j: int| 0 <= i < m.len() && 0 <= j < m.len() && i != j implies m[i]
        != m[j] by {
        assert(new_map[i] != new_map[j]);
    }
}

impl<Ty: GraphType> TypedStaticGraphConverter<Ty> {
    /// The representation is sound.
    pub closed spec fn wf(&self) -> bool {
        &&& self.graph.wf()
        &&& self.node_id_map.wf()
        &&& self.node_label_id_map.wf()
        &&& self.edge_label_id_map.wf()
        &&& self.node_label_map.wf()
        &&& self.edge_label_map.wf()
    }

    /// Converts the mutable graph `g` into a compact graph. Nodes get new
    /// ids by ascending degree, nodes of equal degree by ascending old id;
    /// labels get new ids by ascending frequency, labels of equal frequency
    /// by ascending old id, and labels that nothing carries get none. Each
    /// node's neighbours are stored under their new ids in ascending order.
    /// Edge labels go with the outgoing neighbours only.
    pub fn new(g: &TypedGraphMap<Ty>) -> (r: Self)
        requires
            g.wf(),
        ensures
            r.wf(),
            converts(g@, r@),
    {
        proof {
            g.lemma_wf_valid();
        }
        let node_id_map = _get_node_id_map(g);
        let node_label_id_map = _get_node_label_id_map(g);
        let edge_label_id_map = _get_edge_label_id_map(g);
        let edge_vec = _get_edge_vec(g, &node_id_map, &edge_label_id_map);
        let node_labels = _get_node_labels(g, &node_id_map, &node_label_id_map);
        let in_edge_vec = if Ty::is_directed() {
            let iv = _get_in_edge_vec(g, &node_id_map, &edge_label_id_map);
            proof {
                lemma_mirror_size(g@, node_id_map@, false, edge_vec@);
                lemma_mirror_size(g@, node_id_map@, true, iv@);
            }
            Some(iv)
        } else {
            None
        };
        proof {
            assert forall|i: int| 0 <= i < node_label_id_map@.len() implies node_label_id_map@[i]
                < g@.node_labels.len() by {
                assert(node_label_id_map@.to_set().contains(node_label_id_map@[i]));
            }
            assert forall|i: int| 0 <= i < edge_label_id_map@.len() implies edge_label_id_map@[i]
                < g@.edge_labels.len() by {
                assert(edge_label_id_map@.to_set().contains(edge_label_id_map@[i]));
            }
            lemma_merged_distinct(node_label_id_map@, g@.node_labels);
            lemma_merged_distinct(edge_label_id_map@, g@.edge_labels);
        }
        let node_label_map = _merge_map(&node_label_id_map, g.get_node_label_map());
        let edge_label_map = _merge_map(&edge_label_id_map, g.get_edge_label_map());
        let num_nodes = node_id_map.len();
        let num_edges = if Ty::is_directed() {
            edge_vec.num_edges()
        } else {
            edge_vec.num_edges() / 2
        };
        let built = TypedStaticGraph::from_raw(
            num_nodes,
            num_edges,
            edge_vec,
            in_edge_vec,
            node_labels,
            node_label_map.clone(),
            edge_label_map.clone(),
        );
        let graph = match built {
            Ok(graph) => graph,
            Err(_) => vstd::pervasive::unreached(),
        };
        TypedStaticGraphConverter {
            graph,
            node_id_map,
            node_label_id_map,
            edge_label_id_map,
            node_label_map,
            edge_label_map,
        }
    }

    /// Gives up the tables and keeps the compact graph.
    pub fn into_graph(self) -> (r: TypedStaticGraph<Ty>)
        ensures
            r@ == self@.graph,
            self.wf() ==> r.wf(),
    {
        self.graph
    }

    /// The compact graph.
    pub fn get_graph(&self) -> (r: &TypedStaticGraph<Ty>)
        ensures
            r@ == self@.graph,
            self.wf() ==> r.wf(),
    {
        &self.graph
    }

    /// The id that the node with new id `new_id` had in the mutable graph.
    pub fn get_original_node_id(&self, new_id: usize) -> (r: Option<usize>)
        requires
            self.wf(),
        ensures
            r == if new_id < self@.node_ids.len() {
                Some(self@.node_ids[new_id as int])
            } else {
                None
            },
    {
        match self.node_id_map.get_item(new_id) {
            Some(x) => Some(*x),
            None => None,
        }
    }

    /// The new id of the node that had id `old_id` in the mutable graph.
    pub fn find_new_node_id(&self, old_id: usize) -> (r: Option<usize>)
        requires
            self.wf(),
        ensures
            match r {
                Some(i) => i < self@.node_ids.len() && self@.node_ids[i as int] == old_id,
                None => !self@.node_ids.contains(old_id),
            },
    {
        self.node_id_map.find_index(&old_id)
    }

    /// The node label with new id `label_id`.
    pub fn get_node_label(&self, label_id: usize) -> (r: Option<&String>)
        requires
            self.wf(),
        ensures
            match r {
                Some(x) => label_id < self@.node_labels.len() && x@ == self@.node_labels[label_id as int],
                None => label_id >= self@.node_labels.len(),
            },
    {
        self.node_label_map.get_item(label_id)
    }

    /// The edge label with new id `label_id`.
    pub fn get_edge_label(&self, label_id: usize) -> (r: Option<&String>)
        requires
            self.wf(),
        ensures
            match r {
                Some(x) => label_id < self@.edge_labels.len() && x@ == self@.edge_labels[label_id as int],
                None => label_id >= self@.edge_labels.len(),
            },
    {
        self.edge_label_map.get_item(label_id)
    }

    /// The new id of the node label `label`.
    pub fn find_node_label_index(&self, label: &String) -> (r: Option<usize>)
        requires
            self.wf(),
        ensures
            match r {
                Some(i) => i < self@.node_labels.len() && self@.node_labels[i as int] == label@,
                None => !self@.node_labels.contains(label@),
            },
    {
        self.node_label_map.find_index(label)
    }

    /// The new id of the edge label `label`.
    pub fn find_edge_label_index(&self, label: &String) -> (r: Option<usize>)
        requires
            self.wf(),
        ensures
            match r {
                Some(i) => i < self@.edge_labels.len() && self@.edge_labels[i as int] == label@,
                None => !self@.edge_labels.contains(label@),
            },
    {
        self.edge_label_map.find_index(label)
    }

    /// The old node ids by new id.
    pub fn get_node_id_map(&self) -> (r: &label::SetMap)
        ensures
            r@ == self@.node_ids,
            self.wf() ==> r.wf(),
    {
        &self.node_id_map
    }

    /// The old ids of the node labels in use, by new id.
    pub fn get_node_label_id_map(&self) -> (r: &label::SetMap)
        ensures
            r@ == self@.node_label_ids,
            self.wf() ==> r.wf(),
    {
        &self.node_label_id_map
    }

    /// The old ids of the edge labels in use, by new id.
    pub fn get_edge_label_id_map(&self) -> (r: &label::SetMap)
        ensures
            r@ == self@.edge_label_ids,
            self.wf() ==> r.wf(),
    {
        &self.edge_label_id_map
    }

    /// The node labels in use, by new id.
    pub fn get_node_label_map(&self) -> (r: &SetMap)
        ensures
            r@ == self@.node_labels,
            self.wf() ==> r.wf(),
    {
        &self.node_label_map
    }

    /// The edge labels in use, by new id.
    pub fn get_edge_label_map(&self) -> (r: &SetMap)
        ensures
            r@ == self@.edge_labels,
            self.wf() ==> r.wf(),
    {
        &self.edge_label_map
    }
}

/// Conversion preserves adjacency: the compact graph has an edge from `u` to
/// `v` exactly if the mutable graph has one between the nodes that became
/// `u` and `v`, and it has no edge at a number that is no node. Each node's
/// neighbours are stored in ascending order, so that the search by halving
/// finds every edge.
pub proof fn lemma_conversion_preserves_adjacency(g: GraphView, c: ConverterView)
    requires
        g.valid(),
        converts(g, c),
    ensures
        c.graph.edge_vec.sorted(),
        forall|u: usize, v: usize|
            u < c.node_ids.len() && v < c.node_ids.len() ==> (#[trigger] c.graph.has_edge(u, v)
                <==> g.has_edge(c.node_ids[u as int], c.node_ids[v as int])),
        forall|u: usize, v: usize| #[trigger]
            c.graph.has_edge(u, v) ==> u < c.node_ids.len() && v < c.node_ids.len(),
        forall|id: usize| g.has_node(id) <==> c.node_ids.contains(id),
        c.graph.num_nodes == g.nodes.dom().len(),
{
    c.node_ids.unique_seq_to_set();
    lemma_mirror_adjacency(g, c.node_ids, false, c.graph.edge_vec);
    assert forall|id: usize| g.has_node(id) <==> c.node_ids.contains(id) by {
        assert(c.node_ids.to_set().contains(id) <==> c.node_ids.contains(id));
    }
}

/// In the conversion of a directed graph the incoming neighbours mirror the
/// outgoing ones, and as many are stored of either as the graph has edges.
pub proof fn lemma_conversion_directed(g: GraphView, c: ConverterView)
    requires
        g.valid(),
        g.directed,
        converts(g, c),
    ensures
        c.graph.in_edge_vec is Some,
        c.graph.in_edge_vec->0.sorted(),
        forall|u: usize, v: usize|
            u < c.node_ids.len() && v < c.node_ids.len() ==> (
            #[trigger] c.graph.in_edge_vec->0.has_edge(v, u) <==> c.graph.edge_vec.has_edge(u, v)),
        c.graph.edge_vec.edges.len() == g.edges.dom().len(),
        c.graph.in_edge_vec->0.edges.len() == g.edges.dom().len(),
        c.graph.num_edges == g.edges.dom().len(),
{
    let iv = c.graph.in_edge_vec->0;
    lemma_mirror_adjacency(g, c.node_ids, false, c.graph.edge_vec);
    lemma_mirror_adjacency(g, c.node_ids, true, iv);
    lemma_mirror_size(g, c.node_ids, false, c.graph.edge_vec);
    lemma_mirror_size(g, c.node_ids, true, iv);
    assert forall|u: usize, v: usize| u < c.node_ids.len() && v < c.node_ids.len() implies (
    #[trigger] iv.has_edge(v, u) <==> c.graph.edge_vec.has_edge(u, v)) by {
        assert(iv.has_edge(v, u) <==> linked(g, true, c.node_ids[v as int], c.node_ids[u as int]));
        assert(c.graph.edge_vec.has_edge(u, v) <==> linked(
            g,
            false,
            c.node_ids[u as int],
            c.node_ids[v as int],
        ));
    }
}

/// What an adjacency structure that mirrors a graph says of each pair of
/// nodes.
pub proof fn lemma_mirror_adjacency(g: GraphView, order: Seq<usize>, incoming: bool, ev: EdgeVecView)
    requires
        mirrors(g, order, incoming, ev),
    ensures
        ev.sorted(),
        forall|u: usize, v: usize|
            u < order.len() && v < order.len() ==> (#[trigger] ev.has_edge(u, v) <==> linked(
                g,
                incoming,
                order[u as int],
                order[v as int],
            )),
        forall|u: usize, v: usize| #[trigger] ev.has_edge(u, v) ==> u < order.len() && v < order.len(),
{
    assert forall|x: int| 0 <= x < ev.num_nodes() implies crate::graph_impl::static_graph::edge_vec::ascending(
        ev.edges,
        #[trigger] ev.offsets[x] as int,
        ev.offsets[x + 1] as int,
    ) by {
        assert(slice_ok(
            g,
            order,
            incoming,
            ev.edges,
            order[x],
            ev.offsets[x] as int,
            ev.offsets[x + 1] as int,
        ));
    }
    assert forall|u: usize, v: usize| #[trigger] ev.has_edge(u, v) implies u < order.len() && v
        < order.len() && linked(g, incoming, order[u as int], order[v as int]) by {
        let part = ev.neighbors(u as int);
        let k = choose|k: int| 0 <= k < part.len() && part[k] == v;
        let lo = ev.offsets[u as int] as int;
        assert(slice_ok(
            g,
            order,
            incoming,
            ev.edges,
            order[u as int],
            lo,
            ev.offsets[u + 1] as int,
        ));
        assert(ev.edges[lo + k] == v);
    }
    assert forall|u: usize, v: usize|
        u < order.len() && v < order.len() && linked(
            g,
            incoming,
            order[u as int],
            order[v as int],
        ) implies #[trigger] ev.has_edge(u, v) by {
        let lo = ev.offsets[u as int] as int;
        let hi = ev.offsets[u + 1] as int;
        assert(slice_ok(g, order, incoming, ev.edges, order[u as int], lo, hi));
        let i = choose|i: int| lo <= i < hi && ev.edges[i] == v;
        assert(ev.neighbors(u as int)[i - lo] == v);
    }
}

impl<Ty: GraphType> Clone for TypedStaticGraphConverter<Ty> {
    fn clone(&self) -> (r: Self)
        ensures
            r@ == self@,
    {
        TypedStaticGraphConverter {
            graph: self.graph.clone(),
            node_id_map: self.node_id_map.clone(),
            node_label_id_map: self.node_label_id_map.clone(),
            edge_label_id_map: self.edge_label_id_map.clone(),
            node_label_map: self.node_label_map.clone(),
            edge_label_map: self.edge_label_map.clone(),
        }
    }
}

/// Ascending lists with the same members are the same list.
proof fn lemma_ascending_same(a: Seq<usize>, b: Seq<usize>)
    requires
        forall|i: int, j: int| 0 <= i < j < a.len() ==> a[i] < a[j],
        forall|i: int, j: int| 0 <= i < j < b.len() ==> b[i] < b[j],
        forall|x: usize| a.contains(x) <==> b.contains(x),
    ensures
        a == b,
    decreases a.len(),
{
    if a.len() == 0 {
        if b.len() > 0 {
            assert(b.contains(b[0]));
        }
        assert(a =~= b);
    } else {
        assert(a.contains(a[0]));
        let j = choose|j: int| 0 <= j < b.len() && b[j] == a[0];
        assert(b.contains(b[0]));
        let i = choose|i: int| 0 <= i < a.len() && a[i] == b[0];
        assert(a[0] == b[0]) by {
            if i > 0 && j > 0 {
                assert(a[0] < a[i]);
                assert(b[0] < b[j]);
            }
        }
        let at = a.drop_first();
        let bt = b.drop_first();
        assert forall|x: usize| at.contains(x) <==> bt.contains(x) by {
            if at.contains(x) {
                let k = choose|k: int| 0 <= k < at.len() && at[k] == x;
                assert(a[k + 1] == x);
                assert(a.contains(x));
                assert(a[0] < x);
                let m = choose|m: int| 0 <= m < b.len() && b[m] == x;
                assert(bt[m - 1] == x);
            }
            if bt.contains(x) {
                let k = choose|k: int| 0 <= k < bt.len() && bt[k] == x;
                assert(b[k + 1] == x);
                assert(b.contains(x));
                assert(b[0] < x);
                let m = choose|m: int| 0 <= m < a.len() && a[m] == x;
                assert(at[m - 1] == x);
            }
        }
        assert forall|p: int, q: int| 0 <= p < q < at.len() implies at[p] < at[q] by {
            assert(at[p] == a[p + 1] && at[q] == a[q + 1]);
        }
        assert forall|p: int, q: int| 0 <= p < q < bt.len() implies bt[p] < bt[q] by {
            assert(bt[p] == b[p + 1] && bt[q] == b[q + 1]);
        }
        lemma_ascending_same(at, bt);
        assert(a =~= seq![a[0]] + at);
        assert(b =~= seq![b[0]] + bt);
    }
}

/// Two adjacency structures that mirror the same graph under the same
/// renumbering agree up to node `k`: in the offsets and in the neighbours
/// stored below them.
proof fn lemma_mirrors_agree_upto(
    g: GraphView,
    order: Seq<usize>,
    incoming: bool,
    a: EdgeVecView,
    b: EdgeVecView,
    k: int,
)
    requires
        order.no_duplicates(),
        mirrors(g, order, incoming, a),
        mirrors(g, order, incoming, b),
        0 <= k <= order.len(),
    ensures
        forall|x: int| 0 <= x <= k ==> a.offsets[x] == b.offsets[x],
        forall|i: int| 0 <= i < a.offsets[k] ==> a.edges[i] == b.edges[i],
    decreases k,
{
    if k > 0 {
        lemma_mirrors_agree_upto(g, order, incoming, a, b, k - 1);
        let x = k - 1;
        let lo = a.offsets[x] as int;
        assert(slice_ok(g, order, incoming, a.edges, order[x], lo, a.offsets[x + 1] as int));
        assert(slice_ok(g, order, incoming, b.edges, order[x], lo, b.offsets[x + 1] as int));
        let sa = a.neighbors(x);
        let sb = b.neighbors(x);
        assert forall|w: usize| sa.contains(w) <==> sb.contains(w) by {
            if sa.contains(w) {
                let i = choose|i: int| 0 <= i < sa.len() && sa[i] == w;
                assert(a.edges[lo + i] == w);
                assert(linked(g, incoming, order[x], order[w as int]));
                let j = choose|j: int| lo <= j < b.offsets[x + 1] && b.edges[j] == w;
                assert(sb[j - lo] == w);
            }
            if sb.contains(w) {
                let i = choose|i: int| 0 <= i < sb.len() && sb[i] == w;
                assert(b.edges[lo + i] == w);
                assert(linked(g, incoming, order[x], order[w as int]));
                let j = choose|j: int| lo <= j < a.offsets[x + 1] && a.edges[j] == w;
                assert(sa[j - lo] == w);
            }
        }
        assert forall|p: int, q: int| 0 <= p < q < sa.len() implies sa[p] < sa[q] by {
            assert(a.edges[lo + p] < a.edges[lo + q]);
        }
        assert forall|p: int, q: int| 0 <= p < q < sb.len() implies sb[p] < sb[q] by {
            assert(b.edges[lo + p] < b.edges[lo + q]);
        }
        lemma_ascending_same(sa, sb);
        assert(sa.len() == sb.len());
        assert forall|i: int| 0 <= i < a.offsets[k] implies a.edges[i] == b.edges[i] by {
            if i >= lo {
                assert(sa[i - lo] == sb[i - lo]);
            }
        }
    }
}

/// A graph is mirrored, under one renumbering, by one adjacency structure
/// only, labels apart.
pub proof fn lemma_mirrors_unique(
    g: GraphView,
    order: Seq<usize>,
    incoming: bool,
    a: EdgeVecView,
    b: EdgeVecView,
)
    requires
        order.no_duplicates(),
        mirrors(g, order, incoming, a),
        mirrors(g, order, incoming, b),
    ensures
        a.offsets == b.offsets,
        a.edges == b.edges,
{
    lemma_mirrors_agree_upto(g, order, incoming, a, b, order.len() as int);
    assert(a.offsets =~= b.offsets);
    assert(a.edges =~= b.edges);
}

/// Conversion is a function of the graph: every graph has one conversion
/// only.
pub proof fn lemma_converts_unique(g: GraphView, c: ConverterView, d: ConverterView)
    requires
        converts(g, c),
        converts(g, d),
    ensures
        c == d,
{
    lemma_ranks_unique(c.node_ids, d.node_ids, g.nodes.dom(), degree_of(g));
    lemma_ranks_unique(
        c.node_label_ids,
        d.node_label_ids,
        labels_in_use(g.node_labels.len(), node_label_frequency_of(g)),
        node_label_frequency_of(g),
    );
    lemma_ranks_unique(
        c.edge_label_ids,
        d.edge_label_ids,
        labels_in_use(g.edge_labels.len(), edge_label_frequency_of(g)),
        edge_label_frequency_of(g),
    );
    let order = c.node_ids;
    let a = c.graph.edge_vec;
    let b = d.graph.edge_vec;
    lemma_mirrors_unique(g, order, false, a, b);
    if a.labels is Some {
        let la = a.labels->0;
        let lb = b.labels->0;
        assert forall|i: int| 0 <= i < la.len() implies la[i] == lb[i] by {
            lemma_owner_below(a, i, a.num_nodes());
            let x = choose|x: int| 0 <= x < a.num_nodes() && #[trigger] owns(a, x, i);
            assert(slice_labels_ok(
                g,
                order,
                c.edge_label_ids,
                a.edges,
                la,
                order[x],
                a.offsets[x] as int,
                a.offsets[x + 1] as int,
            ));
            assert(slice_labels_ok(
                g,
                order,
                c.edge_label_ids,
                b.edges,
                lb,
                order[x],
                b.offsets[x] as int,
                b.offsets[x + 1] as int,
            ));
        }
        assert(la =~= lb);
    }
    assert(a == b);
    if g.directed {
        lemma_mirrors_unique(g, order, true, c.graph.in_edge_vec->0, d.graph.in_edge_vec->0);
        assert(c.graph.in_edge_vec->0 == d.graph.in_edge_vec->0);
    }
    assert(c.graph == d.graph);
}

} // verus!
