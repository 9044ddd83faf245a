//! Searching and stable insertion sorting, stated over sequences.
use vstd::prelude::*;

verus! {

/// The index of the first element of `s` that satisfies `pred`, or `s.len()`
/// when none does.
pub open spec fn first_index<T>(s: Seq<T>, pred: spec_fn(T) -> bool) -> int
    decreases s.len(),
{
    if s.len() == 0 {
        0
    } else if pred(s[0]) {
        0
    } else {
        1 + first_index(s.drop_first(), pred)
    }
}

pub proof fn lemma_first_index_props<T>(s: Seq<T>, pred: spec_fn(T) -> bool)
    ensures
        0 <= first_index(s, pred) <= s.len(),
        forall|k: int| 0 <= k < first_index(s, pred) ==> !pred(#[trigger] s[k]),
        first_index(s, pred) < s.len() ==> pred(s[first_index(s, pred)]),
    decreases s.len(),
{
    if s.len() > 0 && !pred(s[0]) {
        lemma_first_index_props(s.drop_first(), pred);
        assert forall|k: int| 0 <= k < first_index(s, pred) implies !pred(#[trigger] s[k]) by {
            if k > 0 {
                assert(s[k] == s.drop_first()[k - 1]);
            }
        }
    }
}

pub proof fn lemma_first_index_is<T>(s: Seq<T>, pred: spec_fn(T) -> bool, j: int)
    requires
        0 <= j <= s.len(),
        forall|k: int| 0 <= k < j ==> !pred(#[trigger] s[k]),
        j < s.len() ==> pred(s[j]),
    ensures
        first_index(s, pred) == j,
    decreases s.len(),
{
    if s.len() > 0 && j > 0 {
        assert(!pred(s[0]));
        assert forall|k: int| 0 <= k < j - 1 implies !pred(#[trigger] s.drop_first()[k]) by {
            assert(s.drop_first()[k] == s[k + 1]);
        }
        lemma_first_index_is(s.drop_first(), pred, j - 1);
    }
}

/// `s` with `x` inserted just before the first element that `x` comes strictly
/// before; elements that `x` does not come before keep their place ahead of it.
pub open spec fn sorted_insert<T>(s: Seq<T>, x: T, before: spec_fn(T, T) -> bool) -> Seq<T> {
    s.insert(first_index(s, |e: T| before(x, e)), x)
}

/// The stable sort of `s` by the strict order `before`: elements are inserted one
/// by one, each after every earlier element it does not come strictly before.
pub open spec fn stable_sort<T>(s: Seq<T>, before: spec_fn(T, T) -> bool) -> Seq<T>
    decreases s.len(),
{
    if s.len() == 0 {
        s
    } else {
        sorted_insert(stable_sort(s.drop_last(), before), s.last(), before)
    }
}

pub proof fn lemma_stable_sort_step<T>(s: Seq<T>, i: int, before: spec_fn(T, T) -> bool)
    requires
        0 <= i < s.len(),
    ensures
        stable_sort(s.take(i + 1), before) == sorted_insert(
            stable_sort(s.take(i), before),
            s[i],
            before,
        ),
{
    assert(s.take(i + 1).drop_last() == s.take(i));
}

pub proof fn lemma_stable_sort_len<T>(s: Seq<T>, before: spec_fn(T, T) -> bool)
    ensures
        stable_sort(s, before).len() == s.len(),
    decreases s.len(),
{
    if s.len() > 0 {
        lemma_stable_sort_len(s.drop_last(), before);
        lemma_first_index_props(stable_sort(s.drop_last(), before), |e: T| before(s.last(), e));
    }
}


/// `before` is a strict order: irreflexive and transitive.
pub open spec fn is_strict_order<T>(before: spec_fn(T, T) -> bool) -> bool {
    &&& forall|a: T| !#[trigger] before(a, a)
    &&& forall|a: T, b: T, c: T| #[trigger] before(a, b) && #[trigger] before(b, c) ==> before(a, c)
}

/// No element of `s` comes strictly before an element ahead of it.
pub open spec fn is_sorted_by<T>(s: Seq<T>, before: spec_fn(T, T) -> bool) -> bool {
    forall|i: int, j: int| 0 <= i < j < s.len() ==> !before(#[trigger] s[j], #[trigger] s[i])
}

/// The stable sort by a strict order is sorted, and holds exactly the elements it
/// was given.
pub proof fn lemma_stable_sort_sorted<T>(s: Seq<T>, before: spec_fn(T, T) -> bool)
    requires
        is_strict_order(before),
    ensures
        is_sorted_by(stable_sort(s, before), before),
        stable_sort(s, before).to_multiset() =~= s.to_multiset(),
    decreases s.len(),
{
    broadcast use vstd::seq_lib::group_to_multiset_ensures;

    if s.len() > 0 {
        let prev = stable_sort(s.drop_last(), before);
        lemma_stable_sort_sorted(s.drop_last(), before);
        let x = s.last();
        let pred = |e: T| before(x, e);
        lemma_first_index_props(prev, pred);
        let j = first_index(prev, pred);
        let r = prev.insert(j, x);
        assert(r == stable_sort(s, before));
        assert forall|a: int, b: int| 0 <= a < b < r.len() implies !before(#[trigger] r[b], #[trigger] r[a]) by {
            if b < j {
                assert(r[a] == prev[a] && r[b] == prev[b]);
            } else if b == j {
                assert(r[b] == x);
                assert(r[a] == prev[a]);
                assert(!pred(prev[a]));
            } else if a == j {
                assert(r[a] == x);
                assert(r[b] == prev[b - 1]);
                assert(pred(prev[j]));
                if before(prev[b - 1], x) {
                    assert(before(prev[b - 1], prev[j]));
                    if b - 1 > j {
                        assert(!before(prev[b - 1], prev[j]));
                    }
                }
            } else if a < j {
                assert(r[a] == prev[a] && r[b] == prev[b - 1]);
            } else {
                assert(r[a] == prev[a - 1] && r[b] == prev[b - 1]);
            }
        }
        assert(r.remove(j) =~= prev);
        assert(r[j] == x);
        assert(r.to_multiset().remove(x) =~= prev.to_multiset());
        assert(r.to_multiset().count(x) > 0) by {
            assert(r.contains(x));
        }
        assert(r.to_multiset() =~= prev.to_multiset().insert(x));
        assert(s.drop_last().push(x) == s);
    }
}

/// Sorting keeps any property that held of every two distinct positions.
pub proof fn lemma_stable_sort_pairwise<T>(
    s: Seq<T>,
    before: spec_fn(T, T) -> bool,
    apart: spec_fn(T, T) -> bool,
)
    requires
        forall|i: int, j: int| 0 <= i < s.len() && 0 <= j < s.len() && i != j ==> #[trigger] apart(s[i], #[trigger] s[j]),
    ensures
        ({
            let r = stable_sort(s, before);
            forall|i: int, j: int| 0 <= i < r.len() && 0 <= j < r.len() && i != j ==> #[trigger] apart(r[i], #[trigger] r[j])
        }),
    decreases s.len(),
{
    broadcast use vstd::seq_lib::group_to_multiset_ensures;

    if s.len() > 0 {
        let p = s.drop_last();
        assert forall|i: int, j: int| 0 <= i < p.len() && 0 <= j < p.len() && i != j implies #[trigger] apart(p[i], #[trigger] p[j]) by {
            assert(p[i] == s[i] && p[j] == s[j]);
        }
        lemma_stable_sort_pairwise(p, before, apart);
        lemma_stable_sort_len(p, before);
        let prev = stable_sort(p, before);
        let x = s.last();
        lemma_first_index_props(prev, |e: T| before(x, e));
        let at = first_index(prev, |e: T| before(x, e));
        let r = prev.insert(at, x);
        assert(r == stable_sort(s, before));
        lemma_stable_sort_multiset(p, before);
        assert forall|m: int| 0 <= m < prev.len() implies apart(x, #[trigger] prev[m]) && apart(prev[m], x) by {
            assert(prev.contains(prev[m]));
            assert(prev.to_multiset().count(prev[m]) > 0);
            assert(p.to_multiset().count(prev[m]) > 0);
            assert(p.contains(prev[m]));
            let w = choose|w: int| 0 <= w < p.len() && p[w] == prev[m];
            assert(s[w] == p[w]);
            assert(s[s.len() - 1] == x);
        }
        assert forall|i: int, j: int| 0 <= i < r.len() && 0 <= j < r.len() && i != j implies #[trigger] apart(r[i], #[trigger] r[j]) by {
            if i == at {
                if j < at {
                    assert(r[j] == prev[j]);
                } else {
                    assert(r[j] == prev[j - 1]);
                }
            } else if j == at {
                if i < at {
                    assert(r[i] == prev[i]);
                } else {
                    assert(r[i] == prev[i - 1]);
                }
            } else {
                let pi = if i < at { i } else { i - 1 };
                let pj = if j < at { j } else { j - 1 };
                assert(r[i] == prev[pi] && r[j] == prev[pj]);
            }
        }
    }
}

/// Sorting keeps the elements.
pub proof fn lemma_stable_sort_multiset<T>(s: Seq<T>, before: spec_fn(T, T) -> bool)
    ensures
        stable_sort(s, before).to_multiset() =~= s.to_multiset(),
    decreases s.len(),
{
    broadcast use vstd::seq_lib::group_to_multiset_ensures;

    if s.len() > 0 {
        lemma_stable_sort_multiset(s.drop_last(), before);
        let prev = stable_sort(s.drop_last(), before);
        let x = s.last();
        lemma_first_index_props(prev, |e: T| before(x, e));
        let j = first_index(prev, |e: T| before(x, e));
        let r = prev.insert(j, x);
        assert(r.remove(j) =~= prev);
        assert(r.to_multiset().remove(x) =~= prev.to_multiset());
        assert(r.to_multiset().count(x) > 0) by {
            assert(r.contains(x));
        }
        assert(r.to_multiset() =~= prev.to_multiset().insert(x));
        assert(s.drop_last().push(x) == s);
    }
}

} // verus!
