use vstd::prelude::*;
use vstd::slice::slice_subrange;

use crate::generic::graph::GraphError;

verus! {

/// The label id that stands for "no label" in a label array.
pub const END: usize = usize::MAX;

/// Each element of `s` from `lo` up to `hi` is at most every later one.
pub open spec fn ascending(s: Seq<usize>, lo: int, hi: int) -> bool {
    forall|i: int, j: int| lo <= i <= j < hi ==> s[i] <= s[j]
}

/// What a label array holds at one place: the sentinel stands for no label.
pub open spec fn label_at(raw: usize) -> Option<usize> {
    if raw == END {
        None
    } else {
        Some(raw)
    }
}

/// The mathematical content of a compressed adjacency structure.
pub struct EdgeVecView {
    /// Where each node's neighbours start in `edges`; one entry more than
    /// there are nodes.
    pub offsets: Seq<usize>,
    /// The neighbours of all nodes, node after node.
    pub edges: Seq<usize>,
    /// The label id of each place of `edges`, if edges carry labels.
    pub labels: Option<Seq<usize>>,
}

impl EdgeVecView {
    /// The shape rules: the offsets start at 0, never fall, and end at the
    /// number of stored neighbours; a label array has a label for each.
    pub open spec fn valid(self) -> bool {
        &&& self.offsets.len() >= 1
        &&& self.offsets[0] == 0
        &&& forall|i: int, j: int|
            0 <= i <= j < self.offsets.len() ==> self.offsets[i] <= self.offsets[j]
        &&& self.offsets.last() == self.edges.len()
        &&& self.labels is Some ==> self.labels->0.len() == self.edges.len()
    }

    pub open spec fn num_nodes(self) -> int {
        self.offsets.len() - 1
    }

    pub open spec fn num_edges(self) -> int {
        self.edges.len() as int
    }

    /// The neighbours of node `id`, as stored.
    pub open spec fn neighbors(self, id: int) -> Seq<usize> {
        self.edges.subrange(self.offsets[id] as int, self.offsets[id + 1] as int)
    }

    /// Whether each node's neighbours are stored in ascending order.
    pub open spec fn sorted(self) -> bool {
        forall|id: int|
            0 <= id < self.num_nodes() ==> ascending(
                self.edges,
                #[trigger] self.offsets[id] as int,
                self.offsets[id + 1] as int,
            )
    }

    pub open spec fn has_node(self, id: usize) -> bool {
        id < self.num_nodes()
    }

    /// Whether `target` is among the stored neighbours of `start`.
    pub open spec fn has_edge(self, start: usize, target: usize) -> bool {
        start < self.num_nodes() && self.neighbors(start as int).contains(target)
    }

    /// The label id stored for place `index` of `edges`.
    pub open spec fn label_of(self, index: int) -> Option<usize> {
        match self.labels {
            Some(l) => label_at(l[index]),
            None => None,
        }
    }
}

/// Looks for `x` among `v[lo..hi]` by halving. What it finds is there; if
/// that part of `v` is in ascending order, it finds `x` whenever it is there.
pub fn search_range(v: &Vec<usize>, lo: usize, hi: usize, x: usize) -> (r: Option<usize>)
    requires
        lo <= hi <= v@.len(),
    ensures
        match r {
            Some(i) => lo <= i < hi && v@[i as int] == x,
            None => ascending(v@, lo as int, hi as int) ==> !v@.subrange(lo as int, hi as int).contains(x),
        },
{
    let mut a: usize = lo;
    let mut b: usize = hi;
    while a < b
        invariant
            lo <= a <= b <= hi <= v@.len(),
            ascending(v@, lo as int, hi as int) ==> forall|j: int| lo <= j < a ==> v@[j] < x,
            ascending(v@, lo as int, hi as int) ==> forall|j: int| b <= j < hi ==> v@[j] > x,
        decreases b - a,
    {
        let mid: usize = a + (b - a) / 2;
        let y = v[mid];
        if y == x {
            return Some(mid);
        } else if y < x {
            a = mid + 1;
        } else {
            b = mid;
        }
    }
    proof {
        if ascending(v@, lo as int, hi as int) {
            let part = v@.subrange(lo as int, hi as int);
            if part.contains(x) {
                let j = choose|j: int| 0 <= j < part.len() && part[j] == x;
                assert(v@[lo + j] == x);
            }
        }
    }
    None
}

/// `Vec::shrink_to_fit`: the vector keeps what it holds.
#[verifier::external_body]
pub(crate) fn shrink_vec(v: &mut Vec<usize>)
    ensures
        final(v)@ == old(v)@,
{
    v.shrink_to_fit();
}

/// A compressed adjacency structure: the neighbours of all nodes in one
/// array, and for each node the place where its neighbours start.
#[derive(Debug, PartialEq, Eq)]
pub struct EdgeVec {
    offsets: Vec<usize>,
    edges: Vec<usize>,
    labels: Option<Vec<usize>>,
}

impl View for EdgeVec {
    type V = EdgeVecView;

    closed spec fn view(&self) -> EdgeVecView {
        EdgeVecView {
            offsets: self.offsets@,
            edges: self.edges@,
            labels: match self.labels {
                Some(l) => Some(l@),
                None => None,
            },
        }
    }
}

/// Whether `offsets` starts at 0, never falls, and ends at `total`.
fn offsets_fit(offsets: &Vec<usize>, total: usize) -> (r: bool)
    ensures
        r <==> {
            &&& offsets@.len() >= 1
            &&& offsets@[0] == 0
            &&& forall|i: int, j: int| 0 <= i <= j < offsets@.len() ==> offsets@[i] <= offsets@[j]
            &&& offsets@.last() == total
        },
{
    if offsets.len() == 0 || offsets[0] != 0 || offsets[offsets.len() - 1] != total {
        return false;
    }
    let mut i: usize = 1;
    while i < offsets.len()
        invariant
            1 <= i <= offsets@.len(),
            forall|a: int, b: int| 0 <= a <= b < i ==> offsets@[a] <= offsets@[b],
        decreases offsets@.len() - i,
    {
        if offsets[i - 1] > offsets[i] {
            return false;
        }
        i += 1;
    }
    true
}

impl EdgeVec {
    /// The representation obeys the shape rules.
    pub open spec fn wf(&self) -> bool {
        self@.valid()
    }

    /// An adjacency structure without labels from its two arrays. Fails with
    /// `ConstructionError` exactly if the arrays break the shape rules.
    pub fn new(offsets: Vec<usize>, edges: Vec<usize>) -> (r: Result<Self, GraphError>)
        ensures
            match r {
                Ok(ev) => ev@ == (EdgeVecView { offsets: offsets@, edges: edges@, labels: None })
                    && ev.wf(),
                Err(e) => e == GraphError::ConstructionError && !(EdgeVecView {
                    offsets: offsets@,
                    edges: edges@,
                    labels: None,
                }).valid(),
            },
    {
        if !offsets_fit(&offsets, edges.len()) {
            return Err(GraphError::ConstructionError);
        }
        Ok(EdgeVec { offsets, edges, labels: None })
    }

    /// An adjacency structure with a label id for each stored neighbour.
    /// Fails with `ConstructionError` exactly if the arrays break the shape
    /// rules.
    pub fn with_labels(offsets: Vec<usize>, edges: Vec<usize>, labels: Vec<usize>) -> (r: Result<
        Self,
        GraphError,
    >)
        ensures
            match r {
                Ok(ev) => ev@ == (EdgeVecView {
                    offsets: offsets@,
                    edges: edges@,
                    labels: Some(labels@),
                }) && ev.wf(),
                Err(e) => e == GraphError::ConstructionError && !(EdgeVecView {
                    offsets: offsets@,
                    edges: edges@,
                    labels: Some(labels@),
                }).valid(),
            },
    {
        if !offsets_fit(&offsets, edges.len()) || labels.len() != edges.len() {
            return Err(GraphError::ConstructionError);
        }
        Ok(EdgeVec { offsets, edges, labels: Some(labels) })
    }

    /// Whether the arrays obey the shape rules.
    pub fn is_well_shaped(&self) -> (r: bool)
        ensures
            r == self@.valid(),
    {
        if !offsets_fit(&self.offsets, self.edges.len()) {
            return false;
        }
        match &self.labels {
            Some(l) => l.len() == self.edges.len(),
            None => true,
        }
    }

    /// Number of nodes.
    pub fn num_nodes(&self) -> (r: usize)
        requires
            self.wf(),
        ensures
            r == self@.num_nodes(),
    {
        self.offsets.len() - 1
    }

    /// Number of stored neighbours, over all nodes.
    pub fn num_edges(&self) -> (r: usize)
        ensures
            r == self@.num_edges(),
    {
        self.edges.len()
    }

    pub fn get_offsets(&self) -> (r: &Vec<usize>)
        ensures
            r@ == self@.offsets,
    {
        &self.offsets
    }

    pub fn get_edges(&self) -> (r: &Vec<usize>)
        ensures
            r@ == self@.edges,
    {
        &self.edges
    }

    /// The label array, if edges carry labels.
    pub fn get_labels(&self) -> (r: Option<&Vec<usize>>)
        ensures
            match r {
                Some(l) => self@.labels == Some(l@),
                None => self@.labels is None,
            },
    {
        match &self.labels {
            Some(l) => Some(l),
            None => None,
        }
    }

    /// Whether the structure holds node `id`.
    pub fn has_node(&self, id: usize) -> (r: bool)
        requires
            self.wf(),
        ensures
            r == self@.has_node(id),
    {
        id < self.offsets.len() - 1
    }

    /// The stored neighbours of node `id`, borrowed from the structure.
    pub fn neighbors(&self, id: usize) -> (r: Result<&[usize], GraphError>)
        requires
            self.wf(),
        ensures
            match r {
                Ok(s) => self@.has_node(id) && s@ == self@.neighbors(id as int),
                Err(e) => e == GraphError::NodeNotFound && !self@.has_node(id),
            },
    {
        if !self.has_node(id) {
            return Err(GraphError::NodeNotFound);
        }
        let n = self.offsets.len();
        assert(id + 1 < n);
        let start = self.offsets[id];
        let end = self.offsets[id + 1];
        Ok(slice_subrange(self.edges.as_slice(), start, end))
    }

    /// Number of stored neighbours of node `id`.
    pub fn degree(&self, id: usize) -> (r: Result<usize, GraphError>)
        requires
            self.wf(),
        ensures
            match r {
                Ok(d) => self@.has_node(id) && d == self@.neighbors(id as int).len(),
                Err(e) => e == GraphError::NodeNotFound && !self@.has_node(id),
            },
    {
        if !self.has_node(id) {
            return Err(GraphError::NodeNotFound);
        }
        let n = self.offsets.len();
        assert(id + 1 < n);
        Ok(self.offsets[id + 1] - self.offsets[id])
    }

    /// The place in the neighbour array where `target` stands as a
    /// neighbour of `start`, found by halving the neighbours of `start`. A
    /// place that is returned is such a place; if the neighbours are stored
    /// in ascending order, a place is returned whenever there is one.
    pub fn find_edge_index(&self, start: usize, target: usize) -> (r: Option<usize>)
        requires
            self.wf(),
        ensures
            match r {
                Some(i) => {
                    &&& self@.has_edge(start, target)
                    &&& self@.offsets[start as int] <= i < self@.offsets[start + 1]
                    &&& self@.edges[i as int] == target
                },
                None => self@.sorted() ==> !self@.has_edge(start, target),
            },
    {
        if !self.has_node(start) {
            return None;
        }
        let n = self.offsets.len();
        assert(start + 1 < n);
        let lo = self.offsets[start];
        let hi = self.offsets[start + 1];
        let r = search_range(&self.edges, lo, hi, target);
        proof {
            match r {
                Some(i) => {
                    assert(self@.neighbors(start as int)[i - lo] == target);
                },
                None => {
                    if self@.sorted() {
                        assert(ascending(
                            self@.edges,
                            self@.offsets[start as int] as int,
                            self@.offsets[start + 1] as int,
                        ));
                    }
                },
            }
        }
        r
    }

    /// Whether `target` is a stored neighbour of `start`, found by halving.
    /// `true` is never wrong; if the neighbours are stored in ascending
    /// order, neither is `false`.
    pub fn has_edge(&self, start: usize, target: usize) -> (r: bool)
        requires
            self.wf(),
        ensures
            r ==> self@.has_edge(start, target),
            self@.sorted() ==> r == self@.has_edge(start, target),
    {
        self.find_edge_index(start, target).is_some()
    }

    /// The label id of the edge from `start` to `target`, as stored for
    /// the place at which the search by halving finds `target` among the
    /// neighbours of `start`; `None` if the search finds no such place.
    pub fn find_edge_label_id(&self, start: usize, target: usize) -> (r: Option<usize>)
        requires
            self.wf(),
        ensures
            (self@.has_edge(start, target) && exists|i: int|
                self@.offsets[start as int] <= i < self@.offsets[start + 1] && self@.edges[i]
                    == target && #[trigger] self@.label_of(i) == r) || (r is None && (
            self@.sorted() ==> !self@.has_edge(start, target))),
    {
        match self.find_edge_index(start, target) {
            Some(i) => {
                let r = match &self.labels {
                    Some(l) => {
                        let raw = l[i];
                        if raw == END {
                            None
                        } else {
                            Some(raw)
                        }
                    },
                    None => None,
                };
                assert(self@.label_of(i as int) == r);
                r
            },
            None => None,
        }
    }

    /// Drops the label array. Offsets and neighbours stay.
    pub fn remove_labels(&mut self)
        ensures
            final(self)@ == (EdgeVecView { labels: None, ..old(self)@ }),
    {
        self.labels = None;
    }

    /// Gives back room that the arrays hold in reserve. The content stays.
    pub fn shrink_to_fit(&mut self)
        ensures
            final(self)@ == old(self)@,
    {
        shrink_vec(&mut self.offsets);
        shrink_vec(&mut self.edges);
        let labels = self.labels.take();
        self.labels = match labels {
            Some(mut l) => {
                shrink_vec(&mut l);
                Some(l)
            },
            None => None,
        };
    }
}

impl Clone for EdgeVec {
    fn clone(&self) -> (r: Self)
        ensures
            r@ == self@,
    {
        let labels = match &self.labels {
            Some(l) => {
                let c = l.clone();
                assert(c@ =~= l@);
                Some(c)
            },
            None => None,
        };
        let r = EdgeVec { offsets: self.offsets.clone(), edges: self.edges.clone(), labels };
        assert(r.offsets@ =~= self.offsets@);
        assert(r.edges@ =~= self.edges@);
        r
    }
}

impl Default for EdgeVec {
    /// The structure of a graph without nodes.
    fn default() -> (r: Self)
        ensures
            r.wf(),
            r@ == (EdgeVecView { offsets: seq![0usize], edges: Seq::empty(), labels: None }),
    {
        let mut offsets: Vec<usize> = Vec::new();
        offsets.push(0);
        let r = EdgeVec { offsets, edges: Vec::new(), labels: None };
        assert(r.offsets@ =~= seq![0usize]);
        r
    }
}

} // verus!
