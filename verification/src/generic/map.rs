use vstd::prelude::*;

verus! {

/// The contents of an interner after `x` has been interned into `s`.
pub open spec fn interned<A>(s: Seq<A>, x: A) -> Seq<A> {
    if s.contains(x) {
        s
    } else {
        s.push(x)
    }
}

/// The position that interning `x` into `s` reports.
pub open spec fn position_after<A>(s: Seq<A>, x: A) -> int {
    if s.contains(x) {
        s.index_of(x)
    } else {
        s.len() as int
    }
}

/// The contents of an interner after every value of `xs` has been interned
/// into `s`, first to last.
pub open spec fn interned_all<A>(s: Seq<A>, xs: Seq<A>) -> Seq<A>
    decreases xs.len(),
{
    if xs.len() == 0 {
        s
    } else {
        interned(interned_all(s, xs.drop_last()), xs.last())
    }
}

/// Interning keeps the contents free of repetition.
pub proof fn lemma_interned_distinct<A>(s: Seq<A>, x: A)
    requires
        s.no_duplicates(),
    ensures
        interned(s, x).no_duplicates(),
        interned(s, x).contains(x),
{
    let t = interned(s, x);
    if s.contains(x) {
    } else {
        assert(t[s.len() as int] == x);
        assert forall|i: int, j: int| 0 <= i < t.len() && 0 <= j < t.len() && i != j implies t[i]
            != t[j] by {
            if i < s.len() && j < s.len() {
            } else if i < s.len() {
                assert(s.contains(s[i]));
            } else if j < s.len() {
                assert(s.contains(s[j]));
            }
        }
    }
}

/// Interning a value reports the position at which the value then stands,
/// and moves nothing that was interned before.
pub proof fn lemma_interned_position<A>(s: Seq<A>, x: A)
    requires
        s.no_duplicates(),
    ensures
        0 <= position_after(s, x) < interned(s, x).len(),
        interned(s, x)[position_after(s, x)] == x,
        s.len() <= interned(s, x).len() <= s.len() + 1,
        forall|i: int| 0 <= i < s.len() ==> interned(s, x)[i] == s[i],
        !s.contains(x) ==> position_after(s, x) == s.len(),
{
}

/// Interning a value that is already present reports the position it was
/// first given and leaves the contents as they were.
pub proof fn lemma_reinsert_keeps_position<A>(s: Seq<A>, x: A)
    requires
        s.no_duplicates(),
    ensures
        interned(interned(s, x), x) == interned(s, x),
        position_after(interned(s, x), x) == position_after(s, x),
{
    lemma_interned_distinct(s, x);
    lemma_interned_position(s, x);
    let t = interned(s, x);
    let p = position_after(s, x);
    assert(t.contains(x));
    let q = t.index_of(x);
    assert(t[q] == x && t[p] == x);
}

/// Interning a run of values into an empty interner yields exactly the
/// distinct values of the run, each once, in the order of their first
/// occurrence: positions `0..n-1` are handed out in first-seen order.
pub proof fn lemma_interned_all_first_seen<A>(xs: Seq<A>)
    ensures
        interned_all(Seq::<A>::empty(), xs).no_duplicates(),
        forall|j: int| 0 <= j < xs.len() ==> interned_all(Seq::<A>::empty(), xs).contains(#[trigger] xs[j]),
        forall|p: int|
            0 <= p < interned_all(Seq::<A>::empty(), xs).len() ==> xs.contains(
                #[trigger] interned_all(Seq::<A>::empty(), xs)[p],
            ),
        forall|p: int, q: int|
            0 <= p < q < interned_all(Seq::<A>::empty(), xs).len() ==> first_seen_before(
                xs,
                #[trigger] interned_all(Seq::<A>::empty(), xs)[p],
                #[trigger] interned_all(Seq::<A>::empty(), xs)[q],
            ),
    decreases xs.len(),
{
    let e = Seq::<A>::empty();
    let r = interned_all(e, xs);
    if xs.len() == 0 {
    } else {
        let ys = xs.drop_last();
        let x = xs.last();
        let t = interned_all(e, ys);
        lemma_interned_all_first_seen(ys);
        lemma_interned_distinct(t, x);
        lemma_interned_position(t, x);
        assert forall|j: int| 0 <= j < xs.len() implies r.contains(#[trigger] xs[j]) by {
            if j < ys.len() {
                assert(ys[j] == xs[j]);
                assert(t.contains(ys[j]));
                let k = choose|k: int| 0 <= k < t.len() && t[k] == ys[j];
                assert(r[k] == xs[j]);
            }
        }
        assert forall|p: int| 0 <= p < r.len() implies xs.contains(#[trigger] r[p]) by {
            if p < t.len() {
                assert(r[p] == t[p]);
                assert(ys.contains(t[p]));
                let k = choose|k: int| 0 <= k < ys.len() && ys[k] == t[p];
                assert(xs[k] == r[p]);
            } else {
                assert(r[p] == x);
                assert(xs[xs.len() - 1] == x);
            }
        }
        assert forall|p: int, q: int| 0 <= p < q < r.len() implies first_seen_before(
            xs,
            #[trigger] r[p],
            #[trigger] r[q],
        ) by {
            assert(r[p] == t[p]);
            if q < t.len() {
                assert(r[q] == t[q]);
                assert(first_seen_before(ys, t[p], t[q]));
                let j = choose|j: int|
                    0 <= j < ys.len() && ys[j] == t[p] && forall|k: int|
                        0 <= k <= j ==> ys[k] != t[q];
                assert(xs[j] == r[p]);
                assert forall|k: int| 0 <= k <= j implies xs[k] != r[q] by {
                    assert(xs[k] == ys[k]);
                }
            } else {
                assert(r[q] == x);
                assert(!t.contains(x));
                assert(ys.contains(t[p]));
                let j = choose|j: int| 0 <= j < ys.len() && ys[j] == t[p];
                assert(xs[j] == r[p]);
                assert forall|k: int| 0 <= k <= j implies xs[k] != r[q] by {
                    assert(xs[k] == ys[k]);
                    if ys[k] == x {
                        assert(t.contains(ys[k]));
                    }
                }
            }
        }
    }
}

/// Interning a run of values that are all different yields the run itself.
pub proof fn lemma_interned_all_distinct<A>(xs: Seq<A>)
    requires
        xs.no_duplicates(),
    ensures
        interned_all(Seq::<A>::empty(), xs) == xs,
    decreases xs.len(),
{
    if xs.len() == 0 {
        assert(xs =~= Seq::<A>::empty());
    } else {
        let ys = xs.drop_last();
        lemma_interned_all_distinct(ys);
        assert(!ys.contains(xs.last())) by {
            if ys.contains(xs.last()) {
                let k = choose|k: int| 0 <= k < ys.len() && ys[k] == xs.last();
                assert(xs[k] == xs[xs.len() - 1]);
            }
        }
        assert(ys.push(xs.last()) =~= xs);
    }
}

/// Whether `a` occurs in `xs` before the first occurrence of `b`.
pub open spec fn first_seen_before<A>(xs: Seq<A>, a: A, b: A) -> bool {
    exists|j: int| 0 <= j < xs.len() && xs[j] == a && forall|k: int| 0 <= k <= j ==> xs[k] != b
}

/// Read access to an append-only interner: values and their positions.
pub trait MapTrait<L> {
    /// Validity of the interner's representation.
    spec fn well_formed(&self) -> bool;

    /// Number of interned values.
    spec fn size(&self) -> nat;

    /// The value interned at position `id`, if `id` is in use.
    fn get_item(&self, id: usize) -> (r: Option<&L>)
        requires
            self.well_formed(),
        ensures
            r.is_some() <==> id < self.size(),
    ;

    /// The position of `item`, if it has been interned.
    fn find_index(&self, item: &L) -> (r: Option<usize>)
        requires
            self.well_formed(),
        ensures
            r.is_some() ==> r.unwrap() < self.size(),
    ;

    /// Whether `item` has been interned.
    fn contains(&self, item: &L) -> (r: bool)
        requires
            self.well_formed(),
    ;

    /// References to all interned values in order of their positions.
    fn items(&self) -> (r: Vec<&L>)
        requires
            self.well_formed(),
        ensures
            r.len() == self.size(),
    ;

    /// All interned values in order of their positions.
    fn items_vec(self) -> (r: Vec<L>)
        requires
            self.well_formed(),
        ensures
            r.len() == self.size(),
    ;

    /// Number of interned values.
    fn len(&self) -> (r: usize)
        requires
            self.well_formed(),
        ensures
            r == self.size(),
    ;

    /// Whether nothing has been interned yet.
    fn is_empty(&self) -> (r: bool)
        requires
            self.well_formed(),
        ensures
            r == (self.size() == 0),
    ;
}

/// Write access to an append-only interner.
pub trait MutMapTrait<L>: MapTrait<L> {
    /// Interns `item` and returns its position. Nothing already interned
    /// moves, and at most one value is appended.
    fn add_item(&mut self, item: L) -> (r: usize)
        requires
            old(self).well_formed(),
        ensures
            final(self).well_formed(),
            old(self).size() <= final(self).size() <= old(self).size() + 1,
            r < final(self).size(),
    ;
}

} // verus!
