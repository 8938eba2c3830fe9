use vstd::prelude::*;

verus! {

/// Each element is smaller than every later one.
pub open spec fn strictly_increasing(s: Seq<usize>) -> bool {
    forall|i: int, j: int| 0 <= i < j < s.len() ==> s[i] < s[j]
}

/// An ascending list holds nothing twice, so it is as long as the set of its
/// elements is large.
pub proof fn lemma_increasing_distinct(s: Seq<usize>)
    requires
        strictly_increasing(s),
    ensures
        s.no_duplicates(),
        s.to_set().finite(),
        s.to_set().len() == s.len(),
{
    assert forall|i: int, j: int| 0 <= i < s.len() && 0 <= j < s.len() && i != j implies s[i]
        != s[j] by {
        if i < j {
            assert(s[i] < s[j]);
        } else {
            assert(s[j] < s[i]);
        }
    }
    s.unique_seq_to_set();
}

/// Position of the first element of the ordered `v` that is not below `x`.
pub fn lower_bound(v: &Vec<usize>, x: usize) -> (i: usize)
    requires
        strictly_increasing(v@),
    ensures
        i <= v@.len(),
        forall|j: int| 0 <= j < i ==> v@[j] < x,
        forall|j: int| i <= j < v@.len() ==> v@[j] >= x,
{
    let mut lo: usize = 0;
    let mut hi: usize = v.len();
    while lo < hi
        invariant
            lo <= hi <= v@.len(),
            strictly_increasing(v@),
            forall|j: int| 0 <= j < lo ==> v@[j] < x,
            forall|j: int| hi <= j < v@.len() ==> v@[j] >= x,
        decreases hi - lo,
    {
        let mid: usize = lo + (hi - lo) / 2;
        if v[mid] < x {
            lo = mid + 1;
        } else {
            hi = mid;
        }
    }
    lo
}

/// Whether the ordered `v` holds `x`.
pub fn sorted_contains(v: &Vec<usize>, x: usize) -> (r: bool)
    requires
        strictly_increasing(v@),
    ensures
        r == v@.contains(x),
{
    let i = lower_bound(v, x);
    i < v.len() && v[i] == x
}

/// Puts `x` into the ordered `v` at its place, unless it is there already.
/// Returns whether `x` was put in.
pub fn sorted_insert(v: &mut Vec<usize>, x: usize) -> (r: bool)
    requires
        strictly_increasing(old(v)@),
    ensures
        strictly_increasing(final(v)@),
        r == !old(v)@.contains(x),
        forall|y: usize| final(v)@.contains(y) <==> (old(v)@.contains(y) || y == x),
        final(v)@.len() == old(v)@.len() + if r { 1int } else { 0int },
        !r ==> final(v)@ == old(v)@,
{
    let i = lower_bound(v, x);
    if i < v.len() && v[i] == x {
        false
    } else {
        let ghost before = v@;
        v.insert(i, x);
        proof {
            let after = v@;
            assert(after[i as int] == x);
            assert forall|y: usize| after.contains(y) <==> (before.contains(y) || y == x) by {
                if after.contains(y) {
                    let k = choose|k: int| 0 <= k < after.len() && after[k] == y;
                    if k < i {
                        assert(before[k] == y);
                    } else if k > i {
                        assert(before[k - 1] == y);
                    }
                }
                if before.contains(y) {
                    let k = choose|k: int| 0 <= k < before.len() && before[k] == y;
                    if k < i {
                        assert(after[k] == y);
                    } else {
                        assert(after[k + 1] == y);
                    }
                }
            }
        }
        true
    }
}

/// Takes `x` out of the ordered `v`, if it is there. Returns whether it was.
pub fn sorted_remove(v: &mut Vec<usize>, x: usize) -> (r: bool)
    requires
        strictly_increasing(old(v)@),
    ensures
        strictly_increasing(final(v)@),
        r == old(v)@.contains(x),
        forall|y: usize| final(v)@.contains(y) <==> (old(v)@.contains(y) && y != x),
        final(v)@.len() == old(v)@.len() - if r { 1int } else { 0int },
        !r ==> final(v)@ == old(v)@,
{
    let i = lower_bound(v, x);
    if i < v.len() && v[i] == x {
        let ghost before = v@;
        v.remove(i);
        proof {
            let after = v@;
            assert forall|y: usize| after.contains(y) <==> (before.contains(y) && y != x) by {
                if after.contains(y) {
                    let k = choose|k: int| 0 <= k < after.len() && after[k] == y;
                    if k < i {
                        assert(before[k] == y);
                    } else {
                        assert(before[k + 1] == y);
                    }
                }
                if before.contains(y) && y != x {
                    let k = choose|k: int| 0 <= k < before.len() && before[k] == y;
                    if k < i {
                        assert(after[k] == y);
                    } else {
                        assert(after[k - 1] == y);
                    }
                }
            }
        }
        true
    } else {
        false
    }
}

/// What a node record holds.
pub struct NodeView {
    pub id: usize,
    pub label: Option<usize>,
    /// The nodes that an edge leads to from here (for an undirected graph:
    /// the nodes joined to this one), in ascending order.
    pub neighbors: Seq<usize>,
    /// The nodes from which an edge leads here, in ascending order. Empty in
    /// an undirected graph.
    pub in_neighbors: Seq<usize>,
}

/// A node record of the mutable graph: the node's id, the id of its label if
/// it has one, and its neighbours in both directions.
#[derive(Debug, PartialEq, Eq)]
pub struct NodeMap {
    id: usize,
    label: Option<usize>,
    neighbors: Vec<usize>,
    in_neighbors: Vec<usize>,
}

impl View for NodeMap {
    type V = NodeView;

    closed spec fn view(&self) -> NodeView {
        NodeView {
            id: self.id,
            label: self.label,
            neighbors: self.neighbors@,
            in_neighbors: self.in_neighbors@,
        }
    }
}

impl Clone for NodeMap {
    fn clone(&self) -> (r: Self)
        ensures
            r@ == self@,
    {
        let r = NodeMap {
            id: self.id,
            label: self.label,
            neighbors: self.neighbors.clone(),
            in_neighbors: self.in_neighbors.clone(),
        };
        assert(r.neighbors@ =~= self.neighbors@);
        assert(r.in_neighbors@ =~= self.in_neighbors@);
        r
    }
}

impl NodeMap {
    /// Both neighbour lists are in ascending order, so none holds a node
    /// twice.
    pub open spec fn wf(&self) -> bool {
        &&& strictly_increasing(self@.neighbors)
        &&& strictly_increasing(self@.in_neighbors)
    }

    /// A node without neighbours.
    pub fn new(id: usize, label: Option<usize>) -> (r: Self)
        ensures
            r.wf(),
            r@ == (NodeView { id, label, neighbors: Seq::empty(), in_neighbors: Seq::empty() }),
    {
        NodeMap { id, label, neighbors: Vec::new(), in_neighbors: Vec::new() }
    }

    pub fn get_id(&self) -> (r: usize)
        ensures
            r == self@.id,
    {
        self.id
    }

    pub fn get_label_id(&self) -> (r: Option<usize>)
        ensures
            r == self@.label,
    {
        self.label
    }

    /// Replaces the label id, or takes the label away.
    pub fn set_label_id(&mut self, label: Option<usize>)
        ensures
            final(self)@ == (NodeView { label, ..old(self)@ }),
    {
        self.label = label;
    }

    /// Records an edge from this node to `adj`. Returns whether it was new.
    pub fn add_edge(&mut self, adj: usize) -> (r: bool)
        requires
            old(self).wf(),
        ensures
            final(self).wf(),
            r == !old(self)@.neighbors.contains(adj),
            forall|y: usize|
                final(self)@.neighbors.contains(y) <==> (old(self)@.neighbors.contains(y) || y
                    == adj),
            final(self)@.neighbors.len() == old(self)@.neighbors.len() + if r { 1int } else { 0int },
            final(self)@ == (NodeView { neighbors: final(self)@.neighbors, ..old(self)@ }),
    {
        sorted_insert(&mut self.neighbors, adj)
    }

    /// Records an edge from `adj` to this node. Returns whether it was new.
    pub fn add_in_edge(&mut self, adj: usize) -> (r: bool)
        requires
            old(self).wf(),
        ensures
            final(self).wf(),
            r == !old(self)@.in_neighbors.contains(adj),
            forall|y: usize|
                final(self)@.in_neighbors.contains(y) <==> (old(self)@.in_neighbors.contains(y)
                    || y == adj),
            final(self)@.in_neighbors.len() == old(self)@.in_neighbors.len() + if r { 1int } else { 0int },
            final(self)@ == (NodeView { in_neighbors: final(self)@.in_neighbors, ..old(self)@ }),
    {
        sorted_insert(&mut self.in_neighbors, adj)
    }

    /// Forgets the edge from this node to `adj`. Returns whether there was
    /// one.
    pub fn remove_edge(&mut self, adj: usize) -> (r: bool)
        requires
            old(self).wf(),
        ensures
            final(self).wf(),
            r == old(self)@.neighbors.contains(adj),
            forall|y: usize|
                final(self)@.neighbors.contains(y) <==> (old(self)@.neighbors.contains(y) && y
                    != adj),
            final(self)@.neighbors.len() == old(self)@.neighbors.len() - if r { 1int } else { 0int },
            final(self)@ == (NodeView { neighbors: final(self)@.neighbors, ..old(self)@ }),
    {
        sorted_remove(&mut self.neighbors, adj)
    }

    /// Forgets the edge from `adj` to this node. Returns whether there was
    /// one.
    pub fn remove_in_edge(&mut self, adj: usize) -> (r: bool)
        requires
            old(self).wf(),
        ensures
            final(self).wf(),
            r == old(self)@.in_neighbors.contains(adj),
            forall|y: usize|
                final(self)@.in_neighbors.contains(y) <==> (old(self)@.in_neighbors.contains(y)
                    && y != adj),
            final(self)@.in_neighbors.len() == old(self)@.in_neighbors.len() - if r { 1int } else { 0int },
            final(self)@ == (NodeView { in_neighbors: final(self)@.in_neighbors, ..old(self)@ }),
    {
        sorted_remove(&mut self.in_neighbors, adj)
    }

    /// Whether an edge leads from this node to `adj`.
    pub fn has_neighbor(&self, adj: usize) -> (r: bool)
        requires
            self.wf(),
        ensures
            r == self@.neighbors.contains(adj),
    {
        sorted_contains(&self.neighbors, adj)
    }

    /// Number of edges that leave this node.
    pub fn degree(&self) -> (r: usize)
        ensures
            r == self@.neighbors.len(),
    {
        self.neighbors.len()
    }

    /// Number of edges that arrive at this node.
    pub fn in_degree(&self) -> (r: usize)
        ensures
            r == self@.in_neighbors.len(),
    {
        self.in_neighbors.len()
    }

    /// The nodes that an edge leads to from here, in ascending order.
    pub fn neighbors(&self) -> (r: &Vec<usize>)
        ensures
            r@ == self@.neighbors,
    {
        &self.neighbors
    }

    /// The nodes from which an edge leads here, in ascending order.
    pub fn in_neighbors(&self) -> (r: &Vec<usize>)
        ensures
            r@ == self@.in_neighbors,
    {
        &self.in_neighbors
    }

    pub fn num_of_neighbors(&self) -> (r: usize)
        ensures
            r == self@.neighbors.len(),
    {
        self.neighbors.len()
    }

    pub fn num_of_in_neighbors(&self) -> (r: usize)
        ensures
            r == self@.in_neighbors.len(),
    {
        self.in_neighbors.len()
    }
}

} // verus!
