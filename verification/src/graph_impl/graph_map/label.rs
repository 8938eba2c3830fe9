use ordermap::OrderSet;
use vstd::prelude::*;

use crate::generic::map::{interned, interned_all, position_after, MapTrait, MutMapTrait};

verus! {

/// `ordermap::OrderSet`: a hash set that keeps its values in the order in
/// which they were inserted and gives each the index of its place. Nothing
/// is known of what is inside a value of this type but through the functions
/// below.
#[verifier::external_type_specification]
#[verifier::external_body]
#[verifier::reject_recursive_types(T)]
#[verifier::reject_recursive_types(S)]
pub struct ExOrderSet<T, S>(OrderSet<T, S>);

/// The integers held by an `OrderSet`, in index order.
pub uninterp spec fn order_set_items(s: OrderSet<usize>) -> Seq<usize>;

/// `OrderSet::new`: the new set holds nothing.
#[verifier::external_body]
fn order_set_new() -> (s: OrderSet<usize>)
    ensures
        order_set_items(s) == Seq::<usize>::empty(),
{
    OrderSet::new()
}

/// `OrderSet::len`: the number of values held.
#[verifier::external_body]
fn order_set_len(s: &OrderSet<usize>) -> (n: usize)
    ensures
        n == order_set_items(*s).len(),
{
    s.len()
}

/// `OrderSet::get_index`: the value at `index`, present exactly for the
/// indices below the length.
#[verifier::external_body]
fn order_set_get_index(s: &OrderSet<usize>, index: usize) -> (r: Option<&usize>)
    ensures
        match r {
            Some(x) => index < order_set_items(*s).len() && *x == order_set_items(*s)[index as int],
            None => index >= order_set_items(*s).len(),
        },
{
    s.get_index(index)
}

/// `OrderSet::get_full`: an index at which the value is held, or `None` when
/// it is not held. The value that comes with the index is dropped.
#[verifier::external_body]
fn order_set_get_full(s: &OrderSet<usize>, item: &usize) -> (r: Option<usize>)
    ensures
        match r {
            Some(i) => i < order_set_items(*s).len() && order_set_items(*s)[i as int] == *item,
            None => !order_set_items(*s).contains(*item),
        },
{
    match s.get_full(item) {
        Some((i, _)) => Some(i),
        None => None,
    }
}

/// `OrderSet::contains`: whether the value is held.
#[verifier::external_body]
fn order_set_contains(s: &OrderSet<usize>, item: &usize) -> (r: bool)
    ensures
        r == order_set_items(*s).contains(*item),
{
    s.contains(item)
}

/// `OrderSet::insert`: a value not yet held is appended behind all others and
/// `true` comes back; a value already held leaves the set as it was and
/// `false` comes back.
#[verifier::external_body]
fn order_set_insert(s: &mut OrderSet<usize>, item: usize) -> (r: bool)
    ensures
        r == !order_set_items(*old(s)).contains(item),
        order_set_items(*final(s)) == if r {
            order_set_items(*old(s)).push(item)
        } else {
            order_set_items(*old(s))
        },
{
    s.insert(item)
}

/// `OrderSet::clone`: the copy holds the same values in the same order.
#[verifier::external_body]
fn order_set_clone(s: &OrderSet<usize>) -> (r: OrderSet<usize>)
    ensures
        order_set_items(r) == order_set_items(*s),
{
    s.clone()
}

/// An append-only interner of integer ids. The converter uses it to renumber
/// node ids and label ids: the position of an id is its new number.
#[derive(Debug, PartialEq, Eq)]
pub struct SetMap {
    labels: OrderSet<usize>,
}

impl View for SetMap {
    type V = Seq<usize>;

    closed spec fn view(&self) -> Seq<usize> {
        order_set_items(self.labels)
    }
}

impl SetMap {
    /// No id occurs at two positions.
    pub open spec fn wf(&self) -> bool {
        self@.no_duplicates()
    }

    /// An empty interner.
    pub fn new() -> (r: Self)
        ensures
            r.wf(),
            r@ == Seq::<usize>::empty(),
    {
        SetMap { labels: order_set_new() }
    }

    /// An interner seeded with `data`, first to last; an id that occurs again
    /// keeps its first position.
    pub fn from_vec(data: Vec<usize>) -> (r: Self)
        ensures
            r.wf(),
            r@ == interned_all(Seq::empty(), data@),
    {
        let mut r = SetMap::new();
        let mut i: usize = 0;
        while i < data.len()
            invariant
                i <= data.len(),
                r.wf(),
                r@ == interned_all(Seq::empty(), data@.take(i as int)),
            decreases data.len() - i,
        {
            proof {
                assert(data@.take(i + 1).drop_last() == data@.take(i as int));
                assert(data@.take(i + 1).last() == data[i as int]);
            }
            r.add_item(data[i]);
            i += 1;
        }
        proof {
            assert(data@.take(data.len() as int) == data@);
        }
        r
    }
}

impl Clone for SetMap {
    fn clone(&self) -> (r: Self)
        ensures
            r@ == self@,
    {
        SetMap { labels: order_set_clone(&self.labels) }
    }
}

impl MapTrait<usize> for SetMap {
    open spec fn well_formed(&self) -> bool {
        self.wf()
    }

    open spec fn size(&self) -> nat {
        self@.len()
    }

    fn get_item(&self, id: usize) -> (r: Option<&usize>)
        ensures
            match r {
                Some(x) => id < self@.len() && *x == self@[id as int],
                None => id >= self@.len(),
            },
    {
        order_set_get_index(&self.labels, id)
    }

    fn find_index(&self, item: &usize) -> (r: Option<usize>)
        ensures
            match r {
                Some(i) => self@.contains(*item) && i == self@.index_of(*item),
                None => !self@.contains(*item),
            },
    {
        order_set_get_full(&self.labels, item)
    }

    fn contains(&self, item: &usize) -> (r: bool)
        ensures
            r == self@.contains(*item),
    {
        order_set_contains(&self.labels, item)
    }

    fn items(&self) -> (r: Vec<&usize>)
        ensures
            r@.len() == self@.len(),
            forall|i: int| 0 <= i < r@.len() ==> *r@[i] == self@[i],
    {
        let n = order_set_len(&self.labels);
        let mut out: Vec<&usize> = Vec::new();
        let mut i: usize = 0;
        while i < n
            invariant
                i <= n,
                n == self@.len(),
                out@.len() == i,
                forall|j: int| 0 <= j < i ==> *out@[j] == self@[j],
            decreases n - i,
        {
            match order_set_get_index(&self.labels, i) {
                Some(x) => {
                    out.push(x);
                },
                None => {},
            }
            i += 1;
        }
        out
    }

    fn items_vec(self) -> (r: Vec<usize>)
        ensures
            r@ == self@,
    {
        let n = order_set_len(&self.labels);
        let mut out: Vec<usize> = Vec::new();
        let mut i: usize = 0;
        while i < n
            invariant
                i <= n,
                n == self@.len(),
                out@ == self@.take(i as int),
            decreases n - i,
        {
            match order_set_get_index(&self.labels, i) {
                Some(x) => {
                    out.push(*x);
                    assert(out@ =~= self@.take(i + 1));
                },
                None => {},
            }
            i += 1;
        }
        assert(self@.take(n as int) == self@);
        out
    }

    fn len(&self) -> (r: usize)
        ensures
            r == self@.len(),
    {
        order_set_len(&self.labels)
    }

    fn is_empty(&self) -> (r: bool)
        ensures
            r == (self@.len() == 0),
    {
        order_set_len(&self.labels) == 0
    }
}

impl MutMapTrait<usize> for SetMap {
    fn add_item(&mut self, item: usize) -> (r: usize)
        ensures
            final(self)@ == interned(old(self)@, item),
            r == position_after(old(self)@, item),
            final(self)@[r as int] == item,
    {
        proof {
            crate::generic::map::lemma_interned_distinct(self@, item);
        }
        if order_set_contains(&self.labels, &item) {
            match order_set_get_full(&self.labels, &item) {
                Some(i) => i,
                None => 0,
            }
        } else {
            order_set_insert(&mut self.labels, item);
            order_set_len(&self.labels) - 1
        }
    }
}

} // verus!
