use indexmap::IndexSet;
use vstd::prelude::*;

use crate::generic::map::{interned, interned_all, position_after, MapTrait, MutMapTrait};

verus! {

/// `indexmap::IndexSet`: a hash set that keeps its values in the order in
/// which they were inserted and gives each the index of its place. Nothing
/// is known of what is inside a value of this type but through the functions
/// below.
#[verifier::external_type_specification]
#[verifier::external_body]
#[verifier::reject_recursive_types(T)]
#[verifier::reject_recursive_types(S)]
pub struct ExIndexSet<T, S>(IndexSet<T, S>);

/// The strings held by an `IndexSet`, in index order.
pub uninterp spec fn index_set_items(s: IndexSet<String>) -> Seq<Seq<char>>;

/// `IndexSet::new`: the new set holds nothing.
#[verifier::external_body]
fn index_set_new() -> (s: IndexSet<String>)
    ensures
        index_set_items(s) == Seq::<Seq<char>>::empty(),
{
    IndexSet::new()
}

/// `IndexSet::with_capacity`: the new set holds nothing, whatever room was
/// asked for.
#[verifier::external_body]
fn index_set_with_capacity(capacity: usize) -> (s: IndexSet<String>)
    ensures
        index_set_items(s) == Seq::<Seq<char>>::empty(),
{
    IndexSet::with_capacity(capacity)
}

/// `IndexSet::len`: the number of values held.
#[verifier::external_body]
fn index_set_len(s: &IndexSet<String>) -> (n: usize)
    ensures
        n == index_set_items(*s).len(),
{
    s.len()
}

/// `IndexSet::get_index`: the value at `index`, present exactly for the
/// indices below the length.
#[verifier::external_body]
fn index_set_get_index(s: &IndexSet<String>, index: usize) -> (r: Option<&String>)
    ensures
        match r {
            Some(x) => index < index_set_items(*s).len() && x@ == index_set_items(*s)[index as int],
            None => index >= index_set_items(*s).len(),
        },
{
    s.get_index(index)
}

/// `IndexSet::get_full`: an index at which an equal value is held, or `None`
/// when no equal value is held. The value that comes with the index is
/// dropped.
#[verifier::external_body]
fn index_set_get_full(s: &IndexSet<String>, item: &String) -> (r: Option<usize>)
    ensures
        match r {
            Some(i) => i < index_set_items(*s).len() && index_set_items(*s)[i as int] == item@,
            None => !index_set_items(*s).contains(item@),
        },
{
    match s.get_full(item) {
        Some((i, _)) => Some(i),
        None => None,
    }
}

/// `IndexSet::contains`: whether an equal value is held.
#[verifier::external_body]
fn index_set_contains(s: &IndexSet<String>, item: &String) -> (r: bool)
    ensures
        r == index_set_items(*s).contains(item@),
{
    s.contains(item)
}

/// `IndexSet::insert`: a value not yet held is appended behind all others and
/// `true` comes back; an equal value already held leaves the set as it was
/// and `false` comes back.
#[verifier::external_body]
fn index_set_insert(s: &mut IndexSet<String>, item: String) -> (r: bool)
    ensures
        r == !index_set_items(*old(s)).contains(item@),
        index_set_items(*final(s)) == if r {
            index_set_items(*old(s)).push(item@)
        } else {
            index_set_items(*old(s))
        },
{
    s.insert(item)
}

/// `IndexSet::clone`: the copy holds the same values in the same order.
#[verifier::external_body]
fn index_set_clone(s: &IndexSet<String>) -> (r: IndexSet<String>)
    ensures
        index_set_items(r) == index_set_items(*s),
{
    s.clone()
}

/// What each string of `v` holds.
pub open spec fn string_views(v: Seq<String>) -> Seq<Seq<char>> {
    Seq::new(v.len(), |i: int| v[i]@)
}

/// What each borrowed string of `v` holds.
pub open spec fn borrowed_string_views(v: Seq<&String>) -> Seq<Seq<char>> {
    Seq::new(v.len(), |i: int| v[i]@)
}

/// An append-only interner of string labels: each distinct label gets the
/// next free position, and keeps it.
#[derive(Debug, PartialEq, Eq)]
pub struct SetMap {
    labels: IndexSet<String>,
}

impl View for SetMap {
    type V = Seq<Seq<char>>;

    closed spec fn view(&self) -> Seq<Seq<char>> {
        index_set_items(self.labels)
    }
}

impl SetMap {
    /// No label occurs at two positions.
    pub open spec fn wf(&self) -> bool {
        self@.no_duplicates()
    }

    /// An empty interner.
    pub fn new() -> (r: Self)
        ensures
            r.wf(),
            r@ == Seq::<Seq<char>>::empty(),
    {
        SetMap { labels: index_set_new() }
    }

    /// An empty interner with room for `capacity` labels.
    pub fn with_capacity(capacity: usize) -> (r: Self)
        ensures
            r.wf(),
            r@ == Seq::<Seq<char>>::empty(),
    {
        SetMap { labels: index_set_with_capacity(capacity) }
    }

    /// An interner seeded with the values of `data`, in their order.
    pub fn with_data(data: IndexSet<String>) -> (r: Self)
        ensures
            r.wf(),
            r@ == interned_all(Seq::empty(), index_set_items(data)),
    {
        let mut r = SetMap::new();
        let n = index_set_len(&data);
        let mut i: usize = 0;
        while i < n
            invariant
                i <= n,
                n == index_set_items(data).len(),
                r.wf(),
                r@ == interned_all(Seq::empty(), index_set_items(data).take(i as int)),
            decreases n - i,
        {
            let ghost items = index_set_items(data);
            match index_set_get_index(&data, i) {
                Some(x) => {
                    proof {
                        assert(items.take(i + 1).drop_last() == items.take(i as int));
                        assert(items.take(i + 1).last() == items[i as int]);
                    }
                    r.add_item(x.clone());
                },
                None => {},
            }
            i += 1;
        }
        proof {
            assert(index_set_items(data).take(n as int) == index_set_items(data));
        }
        r
    }

    /// An interner seeded with `data`, first to last; a value that occurs
    /// again keeps its first position.
    pub fn from_vec(data: Vec<String>) -> (r: Self)
        ensures
            r.wf(),
            r@ == interned_all(Seq::empty(), string_views(data@)),
    {
        let mut r = SetMap::new();
        let mut i: usize = 0;
        let ghost items = string_views(data@);
        while i < data.len()
            invariant
                i <= data.len(),
                items == string_views(data@),
                r.wf(),
                r@ == interned_all(Seq::empty(), items.take(i as int)),
            decreases data.len() - i,
        {
            proof {
                assert(items.take(i + 1).drop_last() == items.take(i as int));
                assert(items.take(i + 1).last() == data[i as int]@);
            }
            r.add_item(data[i].clone());
            i += 1;
        }
        proof {
            assert(items.take(data.len() as int) == items);
        }
        r
    }
}

impl Default for SetMap {
    fn default() -> (r: Self)
        ensures
            r.wf(),
            r@ == Seq::<Seq<char>>::empty(),
    {
        SetMap::new()
    }
}

impl Clone for SetMap {
    fn clone(&self) -> (r: Self)
        ensures
            r@ == self@,
    {
        SetMap { labels: index_set_clone(&self.labels) }
    }
}

impl MapTrait<String> for SetMap {
    open spec fn well_formed(&self) -> bool {
        self.wf()
    }

    open spec fn size(&self) -> nat {
        self@.len()
    }

    fn get_item(&self, id: usize) -> (r: Option<&String>)
        ensures
            match r {
                Some(x) => id < self@.len() && x@ == self@[id as int],
                None => id >= self@.len(),
            },
    {
        index_set_get_index(&self.labels, id)
    }

    fn find_index(&self, item: &String) -> (r: Option<usize>)
        ensures
            match r {
                Some(i) => self@.contains(item@) && i == self@.index_of(item@),
                None => !self@.contains(item@),
            },
    {
        index_set_get_full(&self.labels, item)
    }

    fn contains(&self, item: &String) -> (r: bool)
        ensures
            r == self@.contains(item@),
    {
        index_set_contains(&self.labels, item)
    }

    fn items(&self) -> (r: Vec<&String>)
        ensures
            borrowed_string_views(r@) == self@,
    {
        let n = index_set_len(&self.labels);
        let mut out: Vec<&String> = Vec::new();
        let mut i: usize = 0;
        while i < n
            invariant
                i <= n,
                n == self@.len(),
                out@.len() == i,
                borrowed_string_views(out@) == self@.take(i as int),
            decreases n - i,
        {
            match index_set_get_index(&self.labels, i) {
                Some(x) => {
                    let ghost before = out@;
                    out.push(x);
                    assert forall|j: int| 0 <= j < i + 1 implies borrowed_string_views(out@)[j]
                        == self@.take(i + 1)[j] by {
                        if j < i {
                            assert(borrowed_string_views(before)[j] == self@.take(i as int)[j]);
                        }
                    }
                    assert(borrowed_string_views(out@) =~= self@.take(i + 1));
                },
                None => {},
            }
            i += 1;
        }
        assert(self@.take(n as int) == self@);
        out
    }

    fn items_vec(self) -> (r: Vec<String>)
        ensures
            string_views(r@) == self@,
    {
        let n = index_set_len(&self.labels);
        let mut out: Vec<String> = Vec::new();
        let mut i: usize = 0;
        while i < n
            invariant
                i <= n,
                n == self@.len(),
                out@.len() == i,
                string_views(out@) == self@.take(i as int),
            decreases n - i,
        {
            match index_set_get_index(&self.labels, i) {
                Some(x) => {
                    let ghost before = out@;
                    out.push(x.clone());
                    assert forall|j: int| 0 <= j < i + 1 implies string_views(out@)[j]
                        == self@.take(i + 1)[j] by {
                        if j < i {
                            assert(string_views(before)[j] == self@.take(i as int)[j]);
                        }
                    }
                    assert(string_views(out@) =~= self@.take(i + 1));
                },
                None => {},
            }
            i += 1;
        }
        assert(self@.take(n as int) == self@);
        out
    }

    fn len(&self) -> (r: usize)
        ensures
            r == self@.len(),
    {
        index_set_len(&self.labels)
    }

    fn is_empty(&self) -> (r: bool)
        ensures
            r == (self@.len() == 0),
    {
        index_set_len(&self.labels) == 0
    }
}

impl MutMapTrait<String> for SetMap {
    fn add_item(&mut self, item: String) -> (r: usize)
        ensures
            final(self)@ == interned(old(self)@, item@),
            r == position_after(old(self)@, item@),
            final(self)@[r as int] == item@,
    {
        proof {
            crate::generic::map::lemma_interned_distinct(self@, item@);
        }
        if index_set_contains(&self.labels, &item) {
            match index_set_get_full(&self.labels, &item) {
                Some(i) => i,
                None => 0,
            }
        } else {
            index_set_insert(&mut self.labels, item);
            index_set_len(&self.labels) - 1
        }
    }
}

} // verus!
