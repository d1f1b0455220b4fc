//! Strict total orders on views, and sets kept as ascending vectors.

use vstd::prelude::*;

verus! {

/// A type whose views are totally ordered by `below`.
pub trait Ordered: View + Sized {
    /// `a` comes strictly before `b`.
    spec fn below(a: Self::V, b: Self::V) -> bool;

    /// Whether `self` comes strictly before `other`.
    fn before(&self, other: &Self) -> (r: bool)
        ensures
            r == Self::below(self@, other@),
    ;

    proof fn lemma_irreflexive(a: Self::V)
        ensures
            !Self::below(a, a),
    ;

    proof fn lemma_transitive(a: Self::V, b: Self::V, c: Self::V)
        requires
            Self::below(a, b),
            Self::below(b, c),
        ensures
            Self::below(a, c),
    ;

    proof fn lemma_total(a: Self::V, b: Self::V)
        ensures
            a == b || Self::below(a, b) || Self::below(b, a),
    ;
}

/// The views of the items of `s`, in order.
pub open spec fn views<T: View>(s: Seq<T>) -> Seq<T::V> {
    s.map_values(|t: T| t@)
}

/// Every item of `s` comes strictly before all later ones.
pub open spec fn ascending<T: Ordered>(s: Seq<T::V>) -> bool {
    forall|i: int, j: int| 0 <= i < j < s.len() ==> #[trigger] T::below(s[i], s[j])
}

/// Two items cannot each come before the other.
pub proof fn lemma_asymmetric<T: Ordered>(a: T::V, b: T::V)
    requires
        T::below(a, b),
    ensures
        !T::below(b, a),
        a != b,
{
    if T::below(b, a) {
        T::lemma_transitive(a, b, a);
    }
    T::lemma_irreflexive(a);
}

/// An ascending sequence holds no item twice.
pub proof fn lemma_ascending_no_duplicates<T: Ordered>(s: Seq<T::V>)
    requires
        ascending::<T>(s),
    ensures
        s.no_duplicates(),
{
    assert forall|i: int, j: int| 0 <= i < s.len() && 0 <= j < s.len() && i != j implies s[i]
        != s[j] by {
        if i < j {
            assert(T::below(s[i], s[j]));
            lemma_asymmetric::<T>(s[i], s[j]);
        } else {
            assert(T::below(s[j], s[i]));
            lemma_asymmetric::<T>(s[j], s[i]);
        }
    }
}

/// An ascending sequence is determined by the set of its items.
pub proof fn lemma_ascending_unique<T: Ordered>(s: Seq<T::V>, t: Seq<T::V>)
    requires
        ascending::<T>(s),
        ascending::<T>(t),
        s.to_set() == t.to_set(),
    ensures
        s == t,
    decreases s.len(),
{
    lemma_ascending_no_duplicates::<T>(s);
    lemma_ascending_no_duplicates::<T>(t);
    s.unique_seq_to_set();
    t.unique_seq_to_set();
    assert(s.len() == t.len());
    if s.len() > 0 {
        let a = s[0];
        let b = t[0];
        assert(s.to_set().contains(a));
        assert(t.contains(a));
        assert(t.to_set().contains(b));
        assert(s.contains(b));
        let i = choose|i: int| 0 <= i < t.len() && t[i] == a;
        let j = choose|j: int| 0 <= j < s.len() && s[j] == b;
        if i > 0 {
            assert(T::below(t[0], t[i]));
            if j > 0 {
                assert(T::below(s[0], s[j]));
                lemma_asymmetric::<T>(a, b);
            }
        }
        assert(a == b);
        let s1 = s.drop_first();
        let t1 = t.drop_first();
        assert(ascending::<T>(s1)) by {
            assert forall|i: int, j: int| 0 <= i < j < s1.len() implies #[trigger] T::below(
                s1[i],
                s1[j],
            ) by {
                assert(T::below(s[i + 1], s[j + 1]));
            }
        }
        assert(ascending::<T>(t1)) by {
            assert forall|i: int, j: int| 0 <= i < j < t1.len() implies #[trigger] T::below(
                t1[i],
                t1[j],
            ) by {
                assert(T::below(t[i + 1], t[j + 1]));
            }
        }
        assert(s1.to_set() =~= t1.to_set()) by {
            assert forall|v: T::V| s1.contains(v) <==> t1.contains(v) by {
                if s1.contains(v) {
                    let k = choose|k: int| 0 <= k < s1.len() && s1[k] == v;
                    assert(s[k + 1] == v);
                    assert(T::below(s[0], s[k + 1]));
                    lemma_asymmetric::<T>(a, v);
                    assert(s.to_set().contains(v));
                    assert(t.contains(v));
                    let m = choose|m: int| 0 <= m < t.len() && t[m] == v;
                    assert(m > 0);
                    assert(t1[m - 1] == v);
                }
                if t1.contains(v) {
                    let k = choose|k: int| 0 <= k < t1.len() && t1[k] == v;
                    assert(t[k + 1] == v);
                    assert(T::below(t[0], t[k + 1]));
                    lemma_asymmetric::<T>(b, v);
                    assert(t.to_set().contains(v));
                    assert(s.contains(v));
                    let m = choose|m: int| 0 <= m < s.len() && s[m] == v;
                    assert(m > 0);
                    assert(s1[m - 1] == v);
                }
            }
        }
        lemma_ascending_unique::<T>(s1, t1);
        assert(s =~= seq![a] + s1);
        assert(t =~= seq![b] + t1);
    } else {
        assert(s =~= t);
    }
}

/// Keeping only the items that meet `keep` leaves an ascending sequence
/// ascending.
pub proof fn lemma_filter_ascending<T: Ordered>(s: Seq<T::V>, keep: spec_fn(T::V) -> bool)
    requires
        ascending::<T>(s),
    ensures
        ascending::<T>(s.filter(keep)),
    decreases s.len(),
{
    reveal(Seq::filter);
    if s.len() > 0 {
        let front = s.drop_last();
        assert(ascending::<T>(front)) by {
            assert forall|i: int, j: int| 0 <= i < j < front.len() implies #[trigger] T::below(
                front[i],
                front[j],
            ) by {
                assert(T::below(s[i], s[j]));
            }
        }
        lemma_filter_ascending::<T>(front, keep);
        let kept = front.filter(keep);
        if keep(s.last()) {
            let all = s.filter(keep);
            assert(all == kept.push(s.last()));
            assert forall|i: int, j: int| 0 <= i < j < all.len() implies #[trigger] T::below(
                all[i],
                all[j],
            ) by {
                if j < kept.len() {
                    assert(T::below(kept[i], kept[j]));
                } else {
                    assert(kept.contains(kept[i]));
                    front.lemma_filter_contains_rev(keep, kept[i]);
                    let k = choose|k: int| 0 <= k < front.len() && front[k] == kept[i];
                    assert(T::below(s[k], s[s.len() - 1]));
                }
            }
        }
    }
}

/// The number of items of the ascending sequence `s` that come before `x`:
/// they are its first items.
pub proof fn lemma_rank<T: Ordered>(s: Seq<T::V>, x: T::V) -> (p: int)
    requires
        ascending::<T>(s),
    ensures
        0 <= p <= s.len(),
        forall|k: int| 0 <= k < p ==> T::below(#[trigger] s[k], x),
        forall|k: int| p <= k < s.len() ==> !T::below(#[trigger] s[k], x),
    decreases s.len(),
{
    if s.len() == 0 {
        0
    } else if T::below(s.last(), x) {
        assert forall|k: int| 0 <= k < s.len() implies T::below(#[trigger] s[k], x) by {
            if k < s.len() - 1 {
                assert(T::below(s[k], s[s.len() - 1]));
                T::lemma_transitive(s[k], s.last(), x);
            }
        }
        s.len() as int
    } else {
        let front = s.drop_last();
        assert(ascending::<T>(front)) by {
            assert forall|i: int, j: int| 0 <= i < j < front.len() implies #[trigger] T::below(
                front[i],
                front[j],
            ) by {
                assert(T::below(s[i], s[j]));
            }
        }
        let p = lemma_rank::<T>(front, x);
        assert forall|k: int| 0 <= k < p implies T::below(#[trigger] s[k], x) by {
            assert(T::below(front[k], x));
        }
        assert forall|k: int| p <= k < s.len() implies !T::below(#[trigger] s[k], x) by {
            if k < front.len() {
                assert(!T::below(front[k], x));
            }
        }
        p
    }
}

/// Every finite set has an ascending sequence of its items.
pub proof fn lemma_enumeration<T: Ordered>(set: Set<T::V>) -> (s: Seq<T::V>)
    requires
        set.finite(),
    ensures
        ascending::<T>(s),
        s.to_set() == set,
    decreases set.len(),
{
    if set.len() == 0 {
        let s = Seq::<T::V>::empty();
        assert(set =~= Set::empty());
        assert(s.to_set() =~= set);
        s
    } else {
        let x = set.choose();
        let rest = lemma_enumeration::<T>(set.remove(x));
        let p = lemma_rank::<T>(rest, x);
        let s = rest.insert(p, x);
        assert(!rest.contains(x)) by {
            if rest.contains(x) {
                assert(rest.to_set().contains(x));
            }
        }
        assert forall|i: int, j: int| 0 <= i < j < s.len() implies #[trigger] T::below(
            s[i],
            s[j],
        ) by {
            if j < p {
                assert(T::below(rest[i], rest[j]));
            } else if j == p {
                assert(T::below(rest[i], x));
            } else if i < p {
                assert(T::below(rest[i], rest[j - 1]));
            } else if i == p {
                assert(!T::below(rest[j - 1], x));
                assert(rest.contains(rest[j - 1]));
                T::lemma_total(rest[j - 1], x);
            } else {
                assert(T::below(rest[i - 1], rest[j - 1]));
            }
        }
        assert(s.to_set() =~= set) by {
            assert forall|v: T::V| s.contains(v) <==> set.contains(v) by {
                if s.contains(v) {
                    let k = choose|k: int| 0 <= k < s.len() && s[k] == v;
                    if k < p {
                        assert(rest.contains(rest[k]));
                        assert(rest.to_set().contains(v));
                    } else if k > p {
                        assert(rest.contains(rest[k - 1]));
                        assert(rest.to_set().contains(v));
                    }
                }
                if set.contains(v) {
                    if v == x {
                        assert(s[p] == v);
                    } else {
                        assert(set.remove(x).contains(v));
                        assert(rest.contains(v));
                        let k = choose|k: int| 0 <= k < rest.len() && rest[k] == v;
                        if k < p {
                            assert(s[k] == v);
                        } else {
                            assert(s[k + 1] == v);
                        }
                    }
                }
            }
        }
        s
    }
}

/// A finite set of `T`, held in ascending order with no item twice.
#[derive(Clone, Debug, PartialEq, Eq)]
pub struct SortedSet<T: Ordered> {
    items: Vec<T>,
}

impl<T: Ordered> View for SortedSet<T> {
    type V = Seq<T::V>;

    closed spec fn view(&self) -> Seq<T::V> {
        views(self.items@)
    }
}

impl<T: Ordered> SortedSet<T> {
    /// The items are in strictly ascending order.
    pub open spec fn wf(&self) -> bool {
        ascending::<T>(self@)
    }

    /// The empty set.
    pub fn new() -> (r: Self)
        ensures
            r@ == Seq::<T::V>::empty(),
            r.wf(),
    {
        let r = SortedSet { items: Vec::new() };
        assert(r@ =~= Seq::<T::V>::empty());
        r
    }

    /// The set of the items of `v`, which are in ascending order.
    pub fn from_ascending(v: Vec<T>) -> (r: Self)
        requires
            ascending::<T>(views(v@)),
        ensures
            r@ == views(v@),
            r.wf(),
    {
        SortedSet { items: v }
    }

    /// The set of the items of `v`, in whatever order they come.
    pub fn from_vec(v: Vec<T>) -> (r: Self)
        ensures
            r.wf(),
            r@.to_set() == views(v@).to_set(),
    {
        let ghost all = views(v@);
        let mut rest = v;
        let mut set: SortedSet<T> = SortedSet::new();
        assert(set@.to_set().union(all.to_set()) =~= all.to_set());
        while rest.len() > 0
            invariant
                set.wf(),
                set@.to_set().union(views(rest@).to_set()) == all.to_set(),
            decreases rest.len(),
        {
            let ghost before = views(rest@);
            let ghost held = set@.to_set();
            match rest.pop() {
                Some(x) => {
                    let ghost xv = x@;
                    set.insert(x);
                    proof {
                        let after = views(rest@);
                        assert(before =~= after.push(xv));
                        after.lemma_push_to_set_commute(xv);
                        assert(set@.to_set().union(after.to_set()) =~= held.union(before.to_set()));
                    }
                },
                None => {},
            }
        }
        assert(views(rest@).to_set() =~= Set::<T::V>::empty());
        assert(set@.to_set().union(Set::<T::V>::empty()) =~= set@.to_set());
        set
    }

    /// The number of items.
    pub fn len(&self) -> (n: usize)
        ensures
            n == self@.len(),
    {
        self.items.len()
    }

    /// Whether the set holds no item.
    pub fn is_empty(&self) -> (r: bool)
        ensures
            r == (self@.len() == 0),
    {
        self.items.len() == 0
    }

    /// The item at position `i` of the ascending order.
    pub fn get(&self, i: usize) -> (r: &T)
        requires
            i < self@.len(),
        ensures
            r@ == self@[i as int],
    {
        &self.items[i]
    }

    /// The number of items that come strictly before `x`.
    pub fn rank(&self, x: &T) -> (p: usize)
        requires
            self.wf(),
        ensures
            p <= self@.len(),
            forall|k: int| 0 <= k < p ==> T::below(#[trigger] self@[k], x@),
            forall|k: int| p <= k < self@.len() ==> !T::below(#[trigger] self@[k], x@),
    {
        let mut lo: usize = 0;
        let mut hi: usize = self.items.len();
        while lo < hi
            invariant
                lo <= hi <= self.items.len(),
                self.wf(),
                forall|k: int| 0 <= k < lo ==> T::below(#[trigger] self@[k], x@),
                forall|k: int| hi <= k < self@.len() ==> !T::below(#[trigger] self@[k], x@),
            decreases hi - lo,
        {
            let mid = lo + (hi - lo) / 2;
            if self.items[mid].before(x) {
                proof {
                    assert forall|k: int| 0 <= k < mid + 1 implies T::below(
                        #[trigger] self@[k],
                        x@,
                    ) by {
                        if k < mid {
                            assert(T::below(self@[k], self@[mid as int]));
                            T::lemma_transitive(self@[k], self@[mid as int], x@);
                        }
                    }
                }
                lo = mid + 1;
            } else {
                proof {
                    assert forall|k: int| mid <= k < self@.len() implies !T::below(
                        #[trigger] self@[k],
                        x@,
                    ) by {
                        if k > mid && T::below(self@[k], x@) {
                            assert(T::below(self@[mid as int], self@[k]));
                            T::lemma_transitive(self@[mid as int], self@[k], x@);
                        }
                    }
                }
                hi = mid;
            }
        }
        lo
    }

    /// Whether `x` is in the set.
    pub fn contains(&self, x: &T) -> (r: bool)
        requires
            self.wf(),
        ensures
            r == self@.contains(x@),
    {
        let p = self.rank(x);
        let found = p < self.items.len() && !x.before(&self.items[p]);
        proof {
            if found {
                T::lemma_total(self@[p as int], x@);
            } else if self@.contains(x@) {
                let k = choose|k: int| 0 <= k < self@.len() && self@[k] == x@;
                T::lemma_irreflexive(x@);
                if k > p {
                    assert(T::below(self@[p as int], self@[k]));
                }
            }
        }
        found
    }

    /// Adds `x` unless it is there already; says whether it was added.
    pub fn insert(&mut self, x: T) -> (added: bool)
        requires
            old(self).wf(),
        ensures
            final(self).wf(),
            added == !old(self)@.contains(x@),
            final(self)@.to_set() == old(self)@.to_set().insert(x@),
            !added ==> final(self)@ == old(self)@,
            added ==> final(self)@.len() == old(self)@.len() + 1,
    {
        let p = self.rank(&x);
        let ghost before = self@;
        let ghost xv = x@;
        if p < self.items.len() && !x.before(&self.items[p]) {
            proof {
                T::lemma_total(before[p as int], xv);
                assert(before.contains(xv));
                assert(before.to_set().insert(xv) =~= before.to_set());
            }
            return false;
        }
        self.items.insert(p, x);
        proof {
            let after = self@;
            assert(after =~= before.insert(p as int, xv));
            assert forall|i: int, j: int| 0 <= i < j < after.len() implies #[trigger] T::below(
                after[i],
                after[j],
            ) by {
                if j < p {
                    assert(T::below(before[i], before[j]));
                } else if j == p {
                } else if i < p {
                    assert(T::below(before[i], before[j - 1]));
                } else if i == p {
                    if j - 1 > p {
                        assert(T::below(before[p as int], before[j - 1]));
                        T::lemma_transitive(xv, before[p as int], before[j - 1]);
                    }
                } else {
                    assert(T::below(before[i - 1], before[j - 1]));
                }
            }
            assert(!before.contains(xv)) by {
                if before.contains(xv) {
                    let k = choose|k: int| 0 <= k < before.len() && before[k] == xv;
                    T::lemma_irreflexive(xv);
                    if k > p {
                        assert(T::below(before[p as int], before[k]));
                        lemma_asymmetric::<T>(before[p as int], before[k]);
                    }
                }
            }
            assert(after.to_set() =~= before.to_set().insert(xv)) by {
                assert forall|v: T::V| after.contains(v) <==> (v == xv || before.contains(v)) by {
                    if after.contains(v) {
                        let k = choose|k: int| 0 <= k < after.len() && after[k] == v;
                        if k < p {
                            assert(before[k] == v);
                        } else if k > p {
                            assert(before[k - 1] == v);
                        }
                    }
                    if v == xv {
                        assert(after[p as int] == v);
                    } else if before.contains(v) {
                        let k = choose|k: int| 0 <= k < before.len() && before[k] == v;
                        if k < p {
                            assert(after[k] == v);
                        } else {
                            assert(after[k + 1] == v);
                        }
                    }
                }
            }
        }
        true
    }

    /// Takes `x` out if it is there; says whether it was.
    pub fn remove(&mut self, x: &T) -> (removed: bool)
        requires
            old(self).wf(),
        ensures
            final(self).wf(),
            removed == old(self)@.contains(x@),
            final(self)@.to_set() == old(self)@.to_set().remove(x@),
            !removed ==> final(self)@ == old(self)@,
            removed ==> final(self)@.len() + 1 == old(self)@.len(),
    {
        let p = self.rank(x);
        let ghost before = self@;
        let ghost xv = x@;
        if !(p < self.items.len() && !x.before(&self.items[p])) {
            proof {
                assert(!before.contains(xv)) by {
                    if before.contains(xv) {
                        let k = choose|k: int| 0 <= k < before.len() && before[k] == xv;
                        T::lemma_irreflexive(xv);
                        if k > p {
                            assert(T::below(before[p as int], before[k]));
                        }
                    }
                }
                assert(before.to_set().remove(xv) =~= before.to_set());
            }
            return false;
        }
        proof {
            T::lemma_total(before[p as int], xv);
        }
        self.items.remove(p);
        proof {
            let after = self@;
            assert(after =~= before.remove(p as int));
            assert forall|i: int, j: int| 0 <= i < j < after.len() implies #[trigger] T::below(
                after[i],
                after[j],
            ) by {
                let i0 = if i < p { i } else { i + 1 };
                let j0 = if j < p { j } else { j + 1 };
                assert(T::below(before[i0], before[j0]));
            }
            lemma_ascending_no_duplicates::<T>(before);
            assert(after.to_set() =~= before.to_set().remove(xv)) by {
                assert forall|v: T::V| after.contains(v) <==> (v != xv && before.contains(v)) by {
                    if after.contains(v) {
                        let k = choose|k: int| 0 <= k < after.len() && after[k] == v;
                        let k0 = if k < p { k } else { k + 1 };
                        assert(before[k0] == v);
                    }
                    if v != xv && before.contains(v) {
                        let k = choose|k: int| 0 <= k < before.len() && before[k] == v;
                        if k < p {
                            assert(after[k] == v);
                        } else {
                            assert(after[k - 1] == v);
                        }
                    }
                }
            }
        }
        true
    }

    /// The items as a vector, in ascending order.
    pub fn into_vec(self) -> (v: Vec<T>)
        ensures
            views(v@) == self@,
    {
        self.items
    }
}

} // verus!
