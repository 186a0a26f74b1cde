//! Facts about filtering sequences.
use vstd::prelude::*;
use vstd::multiset::Multiset;

verus! {

/// Filtering by a predicate and by its negation splits a sequence: the two
/// parts together are as long as the sequence.
pub proof fn lemma_filter_split_len<A>(s: Seq<A>, p: spec_fn(A) -> bool, q: spec_fn(A) -> bool)
    requires
        forall|x: A| #[trigger] q(x) == !p(x),
    ensures
        s.filter(p).len() + s.filter(q).len() == s.len(),
    decreases s.len(),
{
    reveal(Seq::filter);
    if s.len() > 0 {
        lemma_filter_split_len(s.drop_last(), p, q);
        assert(q(s.last()) == !p(s.last()));
    }
}

/// Filtering by a predicate and by its negation splits a sequence: each
/// element lands in exactly one part.
pub proof fn lemma_filter_split_multiset<A>(s: Seq<A>, p: spec_fn(A) -> bool, q: spec_fn(A) -> bool)
    requires
        forall|x: A| #[trigger] q(x) == !p(x),
    ensures
        s.filter(p).to_multiset().add(s.filter(q).to_multiset()) == s.to_multiset(),
    decreases s.len(),
{
    broadcast use vstd::seq_lib::to_multiset_build;
    broadcast use vstd::seq_lib::group_to_multiset_ensures;
    broadcast use vstd::multiset::group_multiset_axioms;

    reveal(Seq::filter);
    if s.len() == 0 {
        assert(s.filter(p) =~= Seq::<A>::empty());
        assert(s.filter(q) =~= Seq::<A>::empty());
        assert(s.filter(p).to_multiset().len() == 0);
        assert(s.filter(q).to_multiset().len() == 0);
        assert(s.to_multiset().len() == 0);
        assert(s.filter(p).to_multiset() =~= Multiset::<A>::empty());
        assert(s.filter(q).to_multiset() =~= Multiset::<A>::empty());
        assert(s.to_multiset() =~= Multiset::<A>::empty());
    } else {
        let t = s.drop_last();
        lemma_filter_split_multiset(t, p, q);
        assert(q(s.last()) == !p(s.last()));
        assert(t.push(s.last()) =~= s);
        if p(s.last()) {
            assert(s.filter(p) == t.filter(p).push(s.last()));
            assert(s.filter(q) == t.filter(q));
        } else {
            assert(s.filter(q) == t.filter(q).push(s.last()));
            assert(s.filter(p) == t.filter(p));
        }
        assert(s.filter(p).to_multiset().add(s.filter(q).to_multiset()) =~= s.to_multiset());
    }
}

/// An element that passes the filter and comes first in the sequence comes
/// first in the filtered sequence.
pub proof fn lemma_filter_first<A>(s: Seq<A>, p: spec_fn(A) -> bool)
    requires
        s.len() > 0,
        p(s[0]),
    ensures
        s.filter(p).len() > 0,
        s.filter(p)[0] == s[0],
    decreases s.len(),
{
    reveal(Seq::filter);
    if s.len() == 1 {
        assert(s.drop_last() =~= Seq::<A>::empty());
        assert(s.drop_last().filter(p) =~= Seq::<A>::empty());
    } else {
        let t = s.drop_last();
        assert(t[0] == s[0]);
        lemma_filter_first(t, p);
    }
}

/// Every element of the filtered sequence passes the filter.
pub proof fn lemma_filter_all<A>(s: Seq<A>, p: spec_fn(A) -> bool)
    ensures
        forall|i: int| 0 <= i < s.filter(p).len() ==> p(#[trigger] s.filter(p)[i]),
{
    broadcast use vstd::seq_lib::group_filter_ensures;

}

} // verus!
