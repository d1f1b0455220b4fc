//! Facts about filtered sequences.

use vstd::prelude::*;

verus! {

/// The items kept by a filter are the items of the sequence that meet the
/// condition.
pub proof fn lemma_filter_set<A>(s: Seq<A>, keep: spec_fn(A) -> bool)
    ensures
        forall|v: A| #[trigger] s.filter(keep).contains(v) <==> s.contains(v) && keep(v),
{
    assert forall|v: A| #[trigger] s.filter(keep).contains(v) <==> s.contains(v) && keep(v) by {
        if s.filter(keep).contains(v) {
            s.lemma_filter_contains_rev(keep, v);
            let k = choose|k: int| 0 <= k < s.filter(keep).len() && s.filter(keep)[k] == v;
            s.lemma_filter_pred(keep, k);
        }
        if s.contains(v) && keep(v) {
            let k = choose|k: int| 0 <= k < s.len() && s[k] == v;
            s.lemma_filter_contains(keep, k);
        }
    }
}

/// A filtered prefix is a prefix of the filtered sequence.
pub proof fn lemma_filter_take<A>(s: Seq<A>, keep: spec_fn(A) -> bool, n: int)
    requires
        0 <= n <= s.len(),
    ensures
        s.take(n).filter(keep).len() <= s.filter(keep).len(),
        s.filter(keep).take(s.take(n).filter(keep).len() as int) == s.take(n).filter(keep),
{
    assert(s =~= s.take(n) + s.skip(n));
    Seq::filter_distributes_over_add(s.take(n), s.skip(n), keep);
    assert((s.take(n).filter(keep) + s.skip(n).filter(keep)).take(
        s.take(n).filter(keep).len() as int,
    ) =~= s.take(n).filter(keep));
}

/// A filter that keeps no item of the sequence leaves nothing.
pub proof fn lemma_filter_none<A>(s: Seq<A>, keep: spec_fn(A) -> bool)
    requires
        forall|k: int| 0 <= k < s.len() ==> !keep(#[trigger] s[k]),
    ensures
        s.filter(keep) == Seq::<A>::empty(),
{
    lemma_filter_set(s, keep);
    let kept = s.filter(keep);
    if kept.len() > 0 {
        assert(kept.contains(kept[0]));
        let k = choose|k: int| 0 <= k < s.len() && s[k] == kept[0];
        assert(!keep(s[k]));
    }
    assert(kept =~= Seq::<A>::empty());
}

/// Every item is kept either by a filter or by its opposite.
pub proof fn lemma_filter_split<A>(s: Seq<A>, keep: spec_fn(A) -> bool)
    ensures
        s.filter(keep).len() + s.filter(|x: A| !keep(x)).len() == s.len(),
    decreases s.len(),
{
    reveal(Seq::filter);
    if s.len() > 0 {
        lemma_filter_split(s.drop_last(), keep);
    }
}

/// Filtering what a weaker filter kept is filtering the sequence.
pub proof fn lemma_filter_twice<A>(s: Seq<A>, keep: spec_fn(A) -> bool, wide: spec_fn(A) -> bool)
    requires
        forall|x: A| #[trigger] keep(x) ==> wide(x),
    ensures
        s.filter(wide).filter(keep) == s.filter(keep),
    decreases s.len(),
{
    reveal(Seq::filter);
    if s.len() > 0 {
        lemma_filter_twice(s.drop_last(), keep, wide);
        if wide(s.last()) {
            s.drop_last().filter(wide).lemma_filter_push(s.last(), keep);
        }
    }
}

} // verus!
