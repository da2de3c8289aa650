//! Stable sorting, stated as insertion sort: the order that a stable sort
//! (`slice::sort_by`) produces for a comparison that is a total preorder.

use vstd::prelude::*;

verus! {

/// `x` placed into `s` right after the last element that may come before it.
pub open spec fn insert_sorted<T>(s: Seq<T>, x: T, le: spec_fn(T, T) -> bool) -> Seq<T>
    decreases s.len(),
{
    if s.len() == 0 {
        seq![x]
    } else if le(s.last(), x) {
        s.push(x)
    } else {
        insert_sorted(s.drop_last(), x, le).push(s.last())
    }
}

/// The stable sort of `s` by `le`.
pub open spec fn stable_sort<T>(s: Seq<T>, le: spec_fn(T, T) -> bool) -> Seq<T>
    decreases s.len(),
{
    if s.len() == 0 {
        s
    } else {
        insert_sorted(stable_sort(s.drop_last(), le), s.last(), le)
    }
}

/// `le` is total and transitive.
pub open spec fn total_preorder<T>(le: spec_fn(T, T) -> bool) -> bool {
    &&& forall|a: T, b: T| #[trigger] le(a, b) || le(b, a)
    &&& forall|a: T, b: T, c: T| #[trigger] le(a, b) && #[trigger] le(b, c) ==> le(a, c)
}

/// Every element may come before every later one.
pub open spec fn sorted_by<T>(s: Seq<T>, le: spec_fn(T, T) -> bool) -> bool {
    forall|i: int, j: int| 0 <= i < j < s.len() ==> le(#[trigger] s[i], #[trigger] s[j])
}

/// Where a scan from the end stops, inserting there is `insert_sorted`.
pub proof fn lemma_insert_at<T>(s: Seq<T>, x: T, le: spec_fn(T, T) -> bool, j: int)
    requires
        0 <= j <= s.len(),
        j == 0 || le(s[j - 1], x),
        forall|k: int| j <= k < s.len() ==> !le(#[trigger] s[k], x),
    ensures
        insert_sorted(s, x, le) == s.take(j).push(x) + s.skip(j),
    decreases s.len() - j,
{
    if j == s.len() {
        assert(s.take(j) =~= s);
        assert(s.take(j).push(x) + s.skip(j) =~= s.push(x));
    } else {
        assert(!le(s[s.len() - 1], x));
        lemma_insert_at(s.drop_last(), x, le, j);
        assert(s.drop_last().take(j) =~= s.take(j));
        assert((s.take(j).push(x) + s.drop_last().skip(j)).push(s.last()) =~= s.take(j).push(x)
            + s.skip(j));
    }
}

proof fn lemma_insert_multiset<T>(s: Seq<T>, x: T, le: spec_fn(T, T) -> bool)
    ensures
        insert_sorted(s, x, le).to_multiset() == s.to_multiset().insert(x),
    decreases s.len(),
{
    broadcast use vstd::seq_lib::group_to_multiset_ensures;

    if s.len() == 0 {
        assert(seq![x] =~= Seq::<T>::empty().push(x));
    } else if le(s.last(), x) {
    } else {
        lemma_insert_multiset(s.drop_last(), x, le);
        assert(s =~= s.drop_last().push(s.last()));
        assert(s.drop_last().to_multiset().insert(x).insert(s.last()) =~= s.drop_last().to_multiset().insert(
            s.last(),
        ).insert(x));
    }
}

/// A stable sort keeps every element, each as often as it occurs.
pub proof fn lemma_stable_sort_permutes<T>(s: Seq<T>, le: spec_fn(T, T) -> bool)
    ensures
        stable_sort(s, le).to_multiset() == s.to_multiset(),
    decreases s.len(),
{
    broadcast use vstd::seq_lib::group_to_multiset_ensures;

    if s.len() > 0 {
        lemma_stable_sort_permutes(s.drop_last(), le);
        lemma_insert_multiset(stable_sort(s.drop_last(), le), s.last(), le);
        assert(s =~= s.drop_last().push(s.last()));
    }
}

proof fn lemma_insert_len<T>(s: Seq<T>, x: T, le: spec_fn(T, T) -> bool)
    ensures
        insert_sorted(s, x, le).len() == s.len() + 1,
    decreases s.len(),
{
    if s.len() > 0 && !le(s.last(), x) {
        lemma_insert_len(s.drop_last(), x, le);
    }
}

/// A stable sort keeps the length.
pub proof fn lemma_stable_sort_len<T>(s: Seq<T>, le: spec_fn(T, T) -> bool)
    ensures
        stable_sort(s, le).len() == s.len(),
    decreases s.len(),
{
    if s.len() > 0 {
        lemma_stable_sort_len(s.drop_last(), le);
        lemma_insert_len(stable_sort(s.drop_last(), le), s.last(), le);
    }
}

proof fn lemma_insert_sorted<T>(s: Seq<T>, x: T, le: spec_fn(T, T) -> bool)
    requires
        total_preorder(le),
        sorted_by(s, le),
    ensures
        sorted_by(insert_sorted(s, x, le), le),
        forall|k: int|
            0 <= k < insert_sorted(s, x, le).len() ==> #[trigger] insert_sorted(s, x, le)[k] == x
                || s.contains(insert_sorted(s, x, le)[k]),
    decreases s.len(),
{
    let r = insert_sorted(s, x, le);
    if s.len() == 0 {
    } else if le(s.last(), x) {
        assert forall|i: int, j: int| 0 <= i < j < r.len() implies le(#[trigger] r[i], #[trigger] r[j]) by {
            if j == s.len() {
                if i < s.len() - 1 {
                    assert(le(s[i], s[s.len() - 1]));
                }
            }
        }
        assert forall|k: int| 0 <= k < r.len() implies #[trigger] r[k] == x || s.contains(r[k]) by {
            if k < s.len() {
                assert(s[k] == r[k]);
            }
        }
    } else {
        let t = s.drop_last();
        let rt = insert_sorted(t, x, le);
        lemma_insert_sorted(t, x, le);
        lemma_insert_len(t, x, le);
        assert(le(x, s.last()));
        assert forall|i: int, j: int| 0 <= i < j < r.len() implies le(#[trigger] r[i], #[trigger] r[j]) by {
            if j == r.len() - 1 {
                assert(r[j] == s.last());
                if rt[i] == x {
                } else {
                    assert(t.contains(rt[i]));
                    let m = choose|m: int| 0 <= m < t.len() && t[m] == rt[i];
                    assert(le(s[m], s[s.len() - 1]));
                }
            } else {
                assert(r[i] == rt[i] && r[j] == rt[j]);
            }
        }
        assert forall|k: int| 0 <= k < r.len() implies #[trigger] r[k] == x || s.contains(r[k]) by {
            if k == r.len() - 1 {
                assert(s[s.len() - 1] == r[k]);
            } else {
                assert(r[k] == rt[k]);
                if rt[k] != x {
                    let m = choose|m: int| 0 <= m < t.len() && t[m] == rt[k];
                    assert(s[m] == rt[k]);
                }
            }
        }
    }
}

/// For a total preorder, the stable sort is in order.
pub proof fn lemma_stable_sort_sorted<T>(s: Seq<T>, le: spec_fn(T, T) -> bool)
    requires
        total_preorder(le),
    ensures
        sorted_by(stable_sort(s, le), le),
    decreases s.len(),
{
    if s.len() > 0 {
        lemma_stable_sort_sorted(s.drop_last(), le);
        lemma_insert_sorted(stable_sort(s.drop_last(), le), s.last(), le);
    }
}


/// `a` and `b` may come in either order.
pub open spec fn equivalent<T>(le: spec_fn(T, T) -> bool, a: T, b: T) -> bool {
    le(a, b) && le(b, a)
}

proof fn lemma_insert_filter<T>(s: Seq<T>, x: T, le: spec_fn(T, T) -> bool, z: T)
    requires
        total_preorder(le),
    ensures
        ({
            let p = |y: T| equivalent(le, y, z);
            insert_sorted(s, x, le).filter(p) == if p(x) {
                s.filter(p).push(x)
            } else {
                s.filter(p)
            }
        }),
    decreases s.len(),
{
    reveal_with_fuel(Seq::filter, 2);
    let p = |y: T| equivalent(le, y, z);
    if s.len() == 0 {
        assert(seq![x].drop_last() =~= Seq::<T>::empty());
    } else if le(s.last(), x) {
        assert(s.push(x).drop_last() =~= s);
    } else {
        let t = s.drop_last();
        lemma_insert_filter(t, x, le, z);
        let r = insert_sorted(t, x, le).push(s.last());
        assert(r.drop_last() =~= insert_sorted(t, x, le));
        if p(x) && p(s.last()) {
            assert(le(s.last(), z) && le(z, x));
            assert(le(s.last(), x));
        }
    }
}

/// A stable sort keeps the order of equivalent elements: those equivalent to
/// any `z` come out in the order they came in.
pub proof fn lemma_stable_sort_stable<T>(s: Seq<T>, le: spec_fn(T, T) -> bool, z: T)
    requires
        total_preorder(le),
    ensures
        stable_sort(s, le).filter(|y: T| equivalent(le, y, z)) == s.filter(|y: T| equivalent(le, y, z)),
    decreases s.len(),
{
    reveal_with_fuel(Seq::filter, 2);
    if s.len() > 0 {
        lemma_stable_sort_stable(s.drop_last(), le, z);
        lemma_insert_filter(stable_sort(s.drop_last(), le), s.last(), le, z);
    }
}

} // verus!
