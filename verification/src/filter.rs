//! Facts about filtered sequences that the proofs about rosters share.

use vstd::prelude::*;

verus! {

/// A list in which nothing meets `keep` has nothing left after filtering by it.
pub(crate) proof fn lemma_filter_none<A>(s: Seq<A>, keep: spec_fn(A) -> bool)
    requires
        forall|i: int| 0 <= i < s.len() ==> !keep(#[trigger] s[i]),
    ensures
        s.filter(keep) == Seq::<A>::empty(),
{
    let kept = s.filter(keep);
    if kept.len() > 0 {
        s.lemma_filter_pred(keep, 0);
        assert(kept.contains(kept[0]));
        s.lemma_filter_contains_rev(keep, kept[0]);
    }
    assert(kept =~= Seq::<A>::empty());
}

/// Where filtering leaves anything, some place of the list meets `keep`.
pub(crate) proof fn lemma_kept_once<A>(s: Seq<A>, keep: spec_fn(A) -> bool) -> (place: int)
    requires
        s.filter(keep).len() >= 1,
    ensures
        0 <= place < s.len(),
        keep(s[place]),
{
    let first = s.filter(keep)[0];
    s.lemma_filter_pred(keep, 0);
    assert(s.filter(keep).contains(first));
    s.lemma_filter_contains_rev(keep, first);
    choose|i: int| 0 <= i < s.len() && s[i] == first
}

/// Two places of a list that meet `keep` leave at least two items after filtering by it.
pub(crate) proof fn lemma_two_kept<A>(s: Seq<A>, keep: spec_fn(A) -> bool, i: int, j: int)
    requires
        0 <= i < j < s.len(),
        keep(s[i]),
        keep(s[j]),
    ensures
        s.filter(keep).len() >= 2,
    decreases s.len(),
{
    let rest = s.drop_last();
    rest.lemma_filter_push(s.last(), keep);
    assert(rest.push(s.last()) =~= s);
    if j == s.len() - 1 {
        rest.lemma_filter_contains(keep, i);
    } else {
        lemma_two_kept(rest, keep, i, j);
    }
}

/// Where filtering leaves at least two items, two places of the list meet `keep`.
pub(crate) proof fn lemma_kept_twice<A>(s: Seq<A>, keep: spec_fn(A) -> bool) -> (places: (int, int))
    requires
        s.filter(keep).len() >= 2,
    ensures
        0 <= places.0 < places.1 < s.len(),
        keep(s[places.0]),
        keep(s[places.1]),
    decreases s.len(),
{
    if s.len() == 0 {
        s.lemma_filter_len(keep);
        (0, 0)
    } else {
        let rest = s.drop_last();
        rest.lemma_filter_push(s.last(), keep);
        assert(rest.push(s.last()) =~= s);
        if keep(s.last()) {
            (lemma_kept_once(rest, keep), s.len() - 1)
        } else {
            lemma_kept_twice(rest, keep)
        }
    }
}

/// Filtering keeps as many copies of an item that meets `keep` as the list has.
pub(crate) proof fn lemma_filter_keeps_count<A>(s: Seq<A>, keep: spec_fn(A) -> bool, item: A)
    requires
        keep(item),
    ensures
        s.filter(keep).to_multiset().count(item) == s.to_multiset().count(item),
    decreases s.len(),
{
    broadcast use vstd::seq_lib::group_to_multiset_ensures;

    if s.len() == 0 {
        s.lemma_filter_len(keep);
        assert(s.filter(keep) =~= s);
    } else {
        let rest = s.drop_last();
        rest.lemma_filter_push(s.last(), keep);
        assert(rest.push(s.last()) =~= s);
        lemma_filter_keeps_count(rest, keep, item);
    }
}

/// Filtering keeps no copy of an item that does not meet `keep`.
pub(crate) proof fn lemma_filter_drops<A>(s: Seq<A>, keep: spec_fn(A) -> bool, item: A)
    requires
        !keep(item),
    ensures
        s.filter(keep).to_multiset().count(item) == 0,
{
    let kept = s.filter(keep);
    vstd::seq_lib::to_multiset_contains(kept, item);
    if kept.contains(item) {
        let i = choose|i: int| 0 <= i < kept.len() && kept[i] == item;
        s.lemma_filter_pred(keep, i);
    }
}

} // verus!
