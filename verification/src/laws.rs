//! What holds of the purchase list across its operations.
use vstd::prelude::*;
use crate::db::{
    Purchase, contains_folded, distinct_folded, history_of, max_id, newer, newer_rel,
    overview_of, product_names_of, recent_first, store_names, in_unit, group_by_store,
    at_store_group, has_key,
};
use crate::db::{Overview, by_product, overview_fn, summaries_of, Day, day_before, at_store};
use crate::order::{
    first_index, is_strict_order, lemma_first_index_props, lemma_stable_sort_multiset,
    lemma_stable_sort_pairwise, lemma_stable_sort_sorted, stable_sort,
};
use crate::text::{folded, key_of, lex_less, lemma_lex_less_strict, normalized, lemma_normalized_idempotent};

verus! {

broadcast use vstd::seq_lib::group_to_multiset_ensures;

/// Newest-first is a strict order.
pub proof fn lemma_newer_is_strict<Q>()
    ensures
        is_strict_order(newer_rel::<Q>()),
{
    assert forall|a: Purchase<Q>, b: Purchase<Q>, c: Purchase<Q>|
        #[trigger] newer_rel::<Q>()(a, b) && #[trigger] newer_rel::<Q>()(b, c) implies newer_rel::<
        Q,
    >()(a, c) by {
        assert(newer(a, b) && newer(b, c));
    }
}

/// Every purchase, newest first: the list holds exactly the stored purchases, and
/// none of them is newer than one listed ahead of it.
pub proof fn lemma_recent_first_sorted<Q>(ps: Seq<Purchase<Q>>)
    ensures
        forall|i: int, j: int|
            0 <= i < j < recent_first(ps).len() ==> !newer(
                #[trigger] recent_first(ps)[j],
                #[trigger] recent_first(ps)[i],
            ),
        recent_first(ps).to_multiset() == ps.to_multiset(),
{
    lemma_newer_is_strict::<Q>();
    lemma_stable_sort_sorted(ps, newer_rel::<Q>());
    let r = recent_first(ps);
    assert forall|i: int, j: int| 0 <= i < j < r.len() implies !newer(#[trigger] r[j], #[trigger] r[i]) by {
        assert(!newer_rel::<Q>()(r[j], r[i]));
    }
}

/// Names deduplicated by fold key: no two fold alike, every input name folds like
/// one of them, and each is the first input name of its fold class.
pub proof fn lemma_distinct_folded(s: Seq<Seq<char>>)
    ensures
        ({
            let d = distinct_folded(s);
            &&& forall|i: int, j: int|
                0 <= i < j < d.len() ==> folded(#[trigger] d[i]) != folded(#[trigger] d[j])
            &&& forall|k: int| 0 <= k < s.len() ==> contains_folded(d, #[trigger] s[k])
            &&& forall|i: int|
                0 <= i < d.len() ==> exists|k: int|
                    0 <= k < s.len() && #[trigger] s[k] == #[trigger] d[i] && forall|m: int|
                        0 <= m < k ==> folded(#[trigger] s[m]) != folded(d[i])
        }),
    decreases s.len(),
{
    if s.len() > 0 {
        let p = s.drop_last();
        lemma_distinct_folded(p);
        let dp = distinct_folded(p);
        let x = s.last();
        let d = distinct_folded(s);
        assert forall|k: int| 0 <= k < s.len() implies contains_folded(d, #[trigger] s[k]) by {
            if k < p.len() {
                assert(s[k] == p[k]);
                assert(contains_folded(dp, p[k]));
                let w = choose|w: int| 0 <= w < dp.len() && #[trigger] folded(dp[w]) == folded(p[k]);
                assert(d[w] == dp[w]);
            } else if !contains_folded(dp, x) {
                assert(d[dp.len() as int] == x);
            }
        }
        if !contains_folded(dp, x) {
            assert forall|i: int| 0 <= i < d.len() implies exists|k: int|
                0 <= k < s.len() && #[trigger] s[k] == #[trigger] d[i] && forall|m: int|
                    0 <= m < k ==> folded(#[trigger] s[m]) != folded(d[i]) by {
                if i < dp.len() {
                    assert(d[i] == dp[i]);
                    let k = choose|k: int|
                        0 <= k < p.len() && #[trigger] p[k] == #[trigger] dp[i] && forall|m: int|
                            0 <= m < k ==> folded(#[trigger] p[m]) != folded(dp[i]);
                    assert(s[k] == p[k]);
                    assert forall|m: int| 0 <= m < k implies folded(#[trigger] s[m]) != folded(d[i]) by {
                        assert(s[m] == p[m]);
                    }
                } else {
                    let k = s.len() - 1;
                    assert(s[k] == d[i]);
                    assert forall|m: int| 0 <= m < k implies folded(#[trigger] s[m]) != folded(d[i]) by {
                        assert(s[m] == p[m]);
                        assert(contains_folded(dp, p[m]));
                        let w = choose|w: int| 0 <= w < dp.len() && #[trigger] folded(dp[w]) == folded(p[m]);
                        if folded(s[m]) == folded(d[i]) {
                            assert(folded(dp[w]) == folded(x));
                        }
                    }
                }
            }
            assert forall|i: int, j: int| 0 <= i < j < d.len() implies folded(#[trigger] d[i]) != folded(#[trigger] d[j]) by {
                if j < dp.len() {
                    assert(d[i] == dp[i] && d[j] == dp[j]);
                } else {
                    assert(d[i] == dp[i]);
                    assert(d[j] == x);
                }
            }
        } else {
            assert forall|i: int| 0 <= i < d.len() implies exists|k: int|
                0 <= k < s.len() && #[trigger] s[k] == #[trigger] d[i] && forall|m: int|
                    0 <= m < k ==> folded(#[trigger] s[m]) != folded(d[i]) by {
                let k = choose|k: int|
                    0 <= k < p.len() && #[trigger] p[k] == #[trigger] dp[i] && forall|m: int|
                        0 <= m < k ==> folded(#[trigger] p[m]) != folded(dp[i]);
                assert(s[k] == p[k]);
                assert forall|m: int| 0 <= m < k implies folded(#[trigger] s[m]) != folded(d[i]) by {
                    assert(s[m] == p[m]);
                }
            }
        }
    }
}

/// The store suggestions: no two fold alike, every purchase's store folds like one
/// of them, and each is spelled as the newest purchase at that store.
pub proof fn lemma_store_names<Q>(ps: Seq<Purchase<Q>>)
    ensures
        ({
            let names = store_names(ps);
            let recent = recent_first(ps);
            &&& forall|i: int, j: int|
                0 <= i < j < names.len() ==> folded(#[trigger] names[i]) != folded(
                    #[trigger] names[j],
                )
            &&& forall|p: Purchase<Q>| ps.contains(p) ==> contains_folded(names, #[trigger] p.store@)
            &&& forall|i: int|
                0 <= i < names.len() ==> exists|k: int|
                    0 <= k < recent.len() && #[trigger] recent[k].store@ == #[trigger] names[i]
                        && forall|m: int|
                        0 <= m < k ==> folded(#[trigger] recent[m].store@) != folded(names[i])
        }),
{
    let recent = recent_first(ps);
    let s = recent.map_values(|p: Purchase<Q>| p.store@);
    lemma_distinct_folded(s);
    lemma_recent_first_sorted(ps);
    let names = store_names(ps);
    assert forall|p: Purchase<Q>| ps.contains(p) implies contains_folded(names, #[trigger] p.store@) by {
        assert(ps.to_multiset().count(p) > 0);
        assert(recent.to_multiset().count(p) > 0);
        assert(recent.contains(p));
        let k = choose|k: int| 0 <= k < recent.len() && recent[k] == p;
        assert(s[k] == p.store@);
    }
    assert forall|i: int| 0 <= i < names.len() implies exists|k: int|
        0 <= k < recent.len() && #[trigger] recent[k].store@ == #[trigger] names[i] && forall|m: int|
            0 <= m < k ==> folded(#[trigger] recent[m].store@) != folded(names[i]) by {
        let k = choose|k: int|
            0 <= k < s.len() && #[trigger] s[k] == #[trigger] names[i] && forall|m: int|
                0 <= m < k ==> folded(#[trigger] s[m]) != folded(names[i]);
        assert(recent[k].store@ == s[k]);
        assert forall|m: int| 0 <= m < k implies folded(#[trigger] recent[m].store@) != folded(names[i]) by {
            assert(s[m] == recent[m].store@);
        }
    }
}

/// The product suggestions: no two fold alike, every purchase's product folds like
/// one of them, and each is spelled as the newest purchase of that product.
pub proof fn lemma_product_names<Q>(ps: Seq<Purchase<Q>>)
    ensures
        ({
            let names = product_names_of(ps);
            let recent = recent_first(ps);
            &&& forall|i: int, j: int|
                0 <= i < j < names.len() ==> folded(#[trigger] names[i]) != folded(
                    #[trigger] names[j],
                )
            &&& forall|p: Purchase<Q>| ps.contains(p) ==> contains_folded(names, #[trigger] p.product@)
            &&& forall|i: int|
                0 <= i < names.len() ==> exists|k: int|
                    0 <= k < recent.len() && #[trigger] recent[k].product@ == #[trigger] names[i]
                        && forall|m: int|
                        0 <= m < k ==> folded(#[trigger] recent[m].product@) != folded(names[i])
        }),
{
    let recent = recent_first(ps);
    let s = recent.map_values(|p: Purchase<Q>| p.product@);
    lemma_distinct_folded(s);
    lemma_recent_first_sorted(ps);
    let names = product_names_of(ps);
    assert forall|p: Purchase<Q>| ps.contains(p) implies contains_folded(names, #[trigger] p.product@) by {
        assert(ps.to_multiset().count(p) > 0);
        assert(recent.to_multiset().count(p) > 0);
        assert(recent.contains(p));
        let k = choose|k: int| 0 <= k < recent.len() && recent[k] == p;
        assert(s[k] == p.product@);
    }
    assert forall|i: int| 0 <= i < names.len() implies exists|k: int|
        0 <= k < recent.len() && #[trigger] recent[k].product@ == #[trigger] names[i] && forall|
            m: int,
        | 0 <= m < k ==> folded(#[trigger] recent[m].product@) != folded(names[i]) by {
        let k = choose|k: int|
            0 <= k < s.len() && #[trigger] s[k] == #[trigger] names[i] && forall|m: int|
                0 <= m < k ==> folded(#[trigger] s[m]) != folded(names[i]);
        assert(recent[k].product@ == s[k]);
        assert forall|m: int| 0 <= m < k implies folded(#[trigger] recent[m].product@) != folded(names[i]) by {
            assert(s[m] == recent[m].product@);
        }
    }
}

/// No two purchases share an id.
pub open spec fn ids_unique<Q>(ps: Seq<Purchase<Q>>) -> bool {
    forall|i: int, j: int| 0 <= i < j < ps.len() ==> #[trigger] ps[i].id != #[trigger] ps[j].id
}

proof fn lemma_max_id_bounds<Q>(ps: Seq<Purchase<Q>>)
    ensures
        forall|i: int| 0 <= i < ps.len() ==> #[trigger] ps[i].id <= max_id(ps),
    decreases ps.len(),
{
    if ps.len() > 0 {
        lemma_max_id_bounds(ps.drop_last());
        assert forall|i: int| 0 <= i < ps.len() implies #[trigger] ps[i].id <= max_id(ps) by {
            if i < ps.len() - 1 {
                assert(ps[i] == ps.drop_last()[i]);
            }
        }
    }
}

/// Ids stay unique among the rows that exist: a purchase stored under
/// `next_id` shares its id with none of them.
pub proof fn lemma_next_id_is_fresh<Q>(ps: Seq<Purchase<Q>>, p: Purchase<Q>)
    requires
        ids_unique(ps),
        p.id == max_id(ps) + 1,
    ensures
        ids_unique(ps.push(p)),
{
    lemma_max_id_bounds(ps);
    let q = ps.push(p);
    assert forall|i: int, j: int| 0 <= i < j < q.len() implies #[trigger] q[i].id != #[trigger] q[j].id by {
        assert(q[i] == ps[i]);
        if j < ps.len() {
            assert(q[j] == ps[j]);
        }
    }
}

/// Removing an id leaves no purchase with it, and keeps every other purchase.
pub proof fn lemma_remove_only_that_id<Q>(ps: Seq<Purchase<Q>>, id: u64)
    ensures
        ({
            let r = ps.filter(|p: Purchase<Q>| p.id != id);
            &&& forall|k: int| 0 <= k < r.len() ==> (#[trigger] r[k]).id != id
            &&& forall|p: Purchase<Q>| ps.contains(p) && p.id != id ==> #[trigger] r.contains(p)
        }),
{
    let pred = |p: Purchase<Q>| p.id != id;
    let r = ps.filter(pred);
    assert forall|k: int| 0 <= k < r.len() implies (#[trigger] r[k]).id != id by {
        ps.lemma_filter_pred(pred, k);
    }
    assert forall|p: Purchase<Q>| ps.contains(p) && p.id != id implies #[trigger] r.contains(p) by {
        let k = choose|k: int| 0 <= k < ps.len() && ps[k] == p;
        ps.lemma_filter_contains(pred, k);
    }
}

/// Store groups as [`group_by_store`] forms them: each is non-empty, holds
/// purchases of its first purchase's store only, drawn from the input; no two
/// groups are for the same store; and every input purchase is in one of them.
pub proof fn lemma_store_groups<Q>(c: Seq<Purchase<Q>>)
    ensures
        ({
            let g = group_by_store(c);
            &&& forall|i: int| 0 <= i < g.len() ==> (#[trigger] g[i]).len() > 0
            &&& forall|i: int, j: int|
                0 <= i < g.len() && 0 <= j < g[i].len() ==> folded((#[trigger] g[i][j]).store@)
                    == folded(g[i][0].store@) && c.contains(g[i][j])
            &&& forall|i: int, j: int|
                0 <= i < j < g.len() ==> folded((#[trigger] g[i])[0].store@) != folded(
                    (#[trigger] g[j])[0].store@,
                )
            &&& forall|k: int|
                0 <= k < c.len() ==> exists|i: int, j: int|
                    0 <= i < g.len() && 0 <= j < g[i].len() && #[trigger] g[i][j] == #[trigger] c[k]
        }),
    decreases c.len(),
{
    if c.len() > 0 {
        let p = c.drop_last();
        lemma_store_groups(p);
        let gp = group_by_store(p);
        let x = c.last();
        let key = folded(x.store@);
        lemma_first_index_props(gp, at_store_group(key));
        let at = first_index(gp, at_store_group(key));
        let g = group_by_store(c);
        assert forall|i: int, j: int|
            0 <= i < g.len() && 0 <= j < g[i].len() implies folded((#[trigger] g[i][j]).store@)
            == folded(g[i][0].store@) && c.contains(g[i][j]) by {
            if i < gp.len() && !(i == at) {
                assert(g[i] == gp[i]);
                assert(p.contains(gp[i][j]));
                let w = choose|w: int| 0 <= w < p.len() && p[w] == gp[i][j];
                assert(c[w] == p[w]);
            } else if i == at && at < gp.len() {
                assert(g[i] == gp[i].push(x));
                if j < gp[i].len() {
                    assert(g[i][j] == gp[i][j]);
                    assert(p.contains(gp[i][j]));
                    let w = choose|w: int| 0 <= w < p.len() && p[w] == gp[i][j];
                    assert(c[w] == p[w]);
                } else {
                    assert(g[i][j] == x);
                    assert(c[c.len() - 1] == x);
                }
                assert(g[i][0] == gp[i][0]);
            } else {
                assert(g[i] == seq![x]);
                assert(c[c.len() - 1] == x);
            }
        }
        assert forall|i: int, j: int| 0 <= i < j < g.len() implies folded((#[trigger] g[i])[0].store@)
            != folded((#[trigger] g[j])[0].store@) by {
            if at < gp.len() {
                assert(g[i][0] == gp[i][0]);
                assert(g[j][0] == gp[j][0]);
            } else if j < gp.len() {
                assert(g[i] == gp[i] && g[j] == gp[j]);
            } else {
                assert(g[i] == gp[i]);
                assert(g[j] == seq![x]);
                assert(!at_store_group(key)(gp[i]));
            }
        }
        assert forall|i: int| 0 <= i < g.len() implies (#[trigger] g[i]).len() > 0 by {
            if i < gp.len() && i != at {
                assert(g[i] == gp[i]);
            }
        }
        assert forall|k: int| 0 <= k < c.len() implies exists|i: int, j: int|
            0 <= i < g.len() && 0 <= j < g[i].len() && #[trigger] g[i][j] == #[trigger] c[k] by {
            if k < p.len() {
                assert(c[k] == p[k]);
                let (i, j) = choose|i: int, j: int|
                    0 <= i < gp.len() && 0 <= j < gp[i].len() && #[trigger] gp[i][j] == #[trigger] p[k];
                if i == at {
                    assert(g[i][j] == gp[i][j]);
                } else {
                    assert(g[i] == gp[i]);
                }
            } else if at < gp.len() {
                assert(g[at][gp[at].len() as int] == x);
            } else {
                assert(g[gp.len() as int][0] == x);
            }
        }
    }
}

/// Mixing units never averages kilos with items: every purchase an overview
/// compares is of its product and in the unit of its latest purchase.
pub proof fn lemma_overview_compares_like_with_like<Q>(
    ps: Seq<Purchase<Q>>,
    product: Seq<char>,
    store_filter: Option<Seq<char>>,
)
    ensures
        overview_of(ps, product, store_filter) matches Some(o) ==> forall|i: int, j: int|
            0 <= i < o.stores.len() && 0 <= j < o.stores[i].len() ==> (#[trigger] o.stores[i][j]).unit
                == o.latest.unit && folded(o.stores[i][j].product@) == folded(product),
{
    if let Some(o) = overview_of(ps, product, store_filter) {
        let h = history_of(ps, product);
        let c = h.filter(in_unit(o.latest.unit));
        lemma_store_groups(c);
        assert forall|i: int, j: int|
            0 <= i < o.stores.len() && 0 <= j < o.stores[i].len() implies (
            #[trigger] o.stores[i][j]).unit == o.latest.unit && folded(o.stores[i][j].product@)
            == folded(product) by {
            let x = o.stores[i][j];
            assert(c.contains(x));
            let k = choose|k: int| 0 <= k < c.len() && c[k] == x;
            h.lemma_filter_pred(in_unit(o.latest.unit), k);
            let r = recent_first(ps);
            let pred = |p: Purchase<Q>| folded(p.product@) == folded(product);
            h.lemma_filter_contains_rev(in_unit(o.latest.unit), x);
            assert(h.contains(x));
            let m = choose|m: int| 0 <= m < h.len() && h[m] == x;
            r.lemma_filter_pred(pred, m);
        }
    }
}

/// The store filter narrows the rows, not the comparison: when the latest purchase
/// seen through the filter is in the same unit as the overall latest, both
/// overviews compare the same store groups, over the same history.
pub proof fn lemma_filter_keeps_comparison<Q>(
    ps: Seq<Purchase<Q>>,
    product: Seq<char>,
    store_key: Seq<char>,
)
    ensures
        overview_of(ps, product, Some(store_key)) matches Some(f) ==> (overview_of(
            ps,
            product,
            None,
        ) matches Some(o) && (f.latest.unit == o.latest.unit ==> f.stores == o.stores)
            && f.purchase_count == o.purchase_count && f.product == o.product),
{
    if let Some(f) = overview_of(ps, product, Some(store_key)) {
        let h = history_of(ps, product);
        assert(h.filter(crate::db::at_store(store_key)).len() > 0);
        assert(h.len() > 0) by {
            h.lemma_filter_len(crate::db::at_store(store_key));
        }
    }
}

/// An overview is of the product it was asked for: its name, and its latest
/// purchase's, fold like the one asked.
pub proof fn lemma_overview_is_of_product<Q>(
    ps: Seq<Purchase<Q>>,
    product: Seq<char>,
    store_filter: Option<Seq<char>>,
)
    ensures
        overview_of(ps, product, store_filter) matches Some(o) ==> folded(o.latest.product@)
            == folded(product) && folded(o.product) == folded(product),
{
    if let Some(o) = overview_of(ps, product, store_filter) {
        let h = history_of(ps, product);
        let pred = |p: Purchase<Q>| folded(p.product@) == folded(product);
        let r = recent_first(ps);
        match store_filter {
            Some(key) => {
                let v = h.filter(crate::db::at_store(key));
                assert(v.contains(v[0]));
                h.lemma_filter_contains_rev(crate::db::at_store(key), v[0]);
            },
            None => {
                assert(h.contains(h[0]));
            },
        }
        assert(h.contains(o.latest));
        r.lemma_filter_contains_rev(pred, o.latest);
        let m = choose|m: int| 0 <= m < h.len() && h[m] == o.latest;
        r.lemma_filter_pred(pred, m);
        r.lemma_filter_pred(pred, 0);
    }
}

proof fn lemma_rows_apart<Q>(
    ps: Seq<Purchase<Q>>,
    names: Seq<Seq<char>>,
    key: Option<Seq<char>>,
)
    requires
        forall|i: int, j: int|
            0 <= i < j < names.len() ==> folded(#[trigger] names[i]) != folded(#[trigger] names[j]),
    ensures
        ({
            let rows = names.filter_map(overview_fn(ps, key));
            &&& forall|i: int, j: int|
                0 <= i < rows.len() && 0 <= j < rows.len() && i != j ==> folded(
                    (#[trigger] rows[i]).latest.product@,
                ) != folded((#[trigger] rows[j]).latest.product@)
            &&& forall|i: int|
                0 <= i < rows.len() ==> exists|m: int|
                    0 <= m < names.len() && folded((#[trigger] rows[i]).latest.product@) == folded(
                        #[trigger] names[m],
                    )
        }),
    decreases names.len(),
{
    if names.len() > 0 {
        let p = names.drop_last();
        assert forall|i: int, j: int| 0 <= i < j < p.len() implies folded(#[trigger] p[i]) != folded(#[trigger] p[j]) by {
            assert(p[i] == names[i] && p[j] == names[j]);
        }
        lemma_rows_apart(ps, p, key);
        let prev = p.filter_map(overview_fn(ps, key));
        let n = names.last();
        let rows = names.filter_map(overview_fn(ps, key));
        lemma_overview_is_of_product(ps, n, key);
        match overview_fn(ps, key)(n) {
            Some(o) => {
                assert(rows == prev + seq![o]);
                assert forall|i: int| 0 <= i < rows.len() implies exists|m: int|
                    0 <= m < names.len() && folded((#[trigger] rows[i]).latest.product@) == folded(
                        #[trigger] names[m],
                    ) by {
                    if i < prev.len() {
                        assert(rows[i] == prev[i]);
                        let m = choose|m: int|
                            0 <= m < p.len() && folded((#[trigger] prev[i]).latest.product@) == folded(
                                #[trigger] p[m],
                            );
                        assert(names[m] == p[m]);
                    } else {
                        assert(rows[i] == o);
                        assert(names[names.len() - 1] == n);
                    }
                }
                assert forall|i: int, j: int|
                    0 <= i < rows.len() && 0 <= j < rows.len() && i != j implies folded(
                    (#[trigger] rows[i]).latest.product@,
                ) != folded((#[trigger] rows[j]).latest.product@) by {
                    if i < prev.len() && j < prev.len() {
                        assert(rows[i] == prev[i] && rows[j] == prev[j]);
                    } else if i < prev.len() {
                        assert(rows[i] == prev[i] && rows[j] == o);
                        let m = choose|m: int|
                            0 <= m < p.len() && folded((#[trigger] prev[i]).latest.product@) == folded(
                                #[trigger] p[m],
                            );
                        assert(names[m] == p[m]);
                        assert(names[names.len() - 1] == n);
                    } else {
                        assert(rows[j] == prev[j] && rows[i] == o);
                        let m = choose|m: int|
                            0 <= m < p.len() && folded((#[trigger] prev[j]).latest.product@) == folded(
                                #[trigger] p[m],
                            );
                        assert(names[m] == p[m]);
                        assert(names[names.len() - 1] == n);
                    }
                }
            },
            None => {
                assert(rows == prev);
                assert forall|i: int| 0 <= i < rows.len() implies exists|m: int|
                    0 <= m < names.len() && folded((#[trigger] rows[i]).latest.product@) == folded(
                        #[trigger] names[m],
                    ) by {
                    let m = choose|m: int|
                        0 <= m < p.len() && folded((#[trigger] prev[i]).latest.product@) == folded(
                            #[trigger] p[m],
                        );
                    assert(names[m] == p[m]);
                }
            },
        }
    }
}

/// One row per product, product name ascending: no two overviews are of the same
/// product (folded), and each is ordered by its folded name.
pub proof fn lemma_summaries_one_row_per_product<Q>(
    ps: Seq<Purchase<Q>>,
    store_filter: Option<Seq<char>>,
)
    ensures
        ({
            let rows = summaries_of(ps, store_filter);
            &&& forall|i: int, j: int|
                0 <= i < rows.len() && 0 <= j < rows.len() && i != j ==> folded(
                    (#[trigger] rows[i]).latest.product@,
                ) != folded((#[trigger] rows[j]).latest.product@)
            &&& forall|i: int, j: int|
                0 <= i < j < rows.len() ==> !lex_less(
                    folded((#[trigger] rows[j]).latest.product@),
                    folded((#[trigger] rows[i]).latest.product@),
                )
        }),
{
    let key = match store_filter {
        Some(f) => Some(folded(f)),
        None => None,
    };
    let names = product_names_of(ps);
    lemma_product_names(ps);
    lemma_rows_apart(ps, names, key);
    let unsorted = names.filter_map(overview_fn(ps, key));
    let apart = |a: Overview<Q>, b: Overview<Q>| folded(a.latest.product@) != folded(b.latest.product@);
    assert forall|i: int, j: int| 0 <= i < unsorted.len() && 0 <= j < unsorted.len() && i != j implies #[trigger] apart(unsorted[i], #[trigger] unsorted[j]) by {}
    lemma_stable_sort_pairwise(unsorted, by_product::<Q>(), apart);
    lemma_lex_less_strict();
    assert(is_strict_order(by_product::<Q>())) by {
        assert forall|a: Overview<Q>, b: Overview<Q>, c: Overview<Q>|
            #[trigger] by_product::<Q>()(a, b) && #[trigger] by_product::<Q>()(b, c) implies by_product::<
            Q,
        >()(a, c) by {
            assert(lex_less(folded(a.latest.product@), folded(b.latest.product@)));
            assert(lex_less(folded(b.latest.product@), folded(c.latest.product@)));
        }
        assert forall|a: Overview<Q>| !#[trigger] by_product::<Q>()(a, a) by {
            assert(!lex_less(folded(a.latest.product@), folded(a.latest.product@)));
        }
    }
    lemma_stable_sort_sorted(unsorted, by_product::<Q>());
    let rows = summaries_of(ps, store_filter);
    assert forall|i: int, j: int| 0 <= i < j < rows.len() implies !lex_less(
        folded((#[trigger] rows[j]).latest.product@),
        folded((#[trigger] rows[i]).latest.product@),
    ) by {
        assert(!by_product::<Q>()(rows[j], rows[i]));
    }
    assert forall|i: int, j: int| 0 <= i < rows.len() && 0 <= j < rows.len() && i != j implies folded(
        (#[trigger] rows[i]).latest.product@,
    ) != folded((#[trigger] rows[j]).latest.product@) by {
        assert(apart(rows[i], rows[j]));
    }
}

/// A product can be found again by its key: for any product name on record,
/// the lookup by that name's key finds a product name with the same key.
pub proof fn lemma_product_key_finds_a_product<Q>(ps: Seq<Purchase<Q>>, i: int)
    requires
        0 <= i < product_names_of(ps).len(),
    ensures
        ({
            let names = product_names_of(ps);
            let at = first_index(names, has_key(key_of(names[i])));
            at <= i && key_of(names[at]) == key_of(names[i])
        }),
{
    let names = product_names_of(ps);
    lemma_first_index_props(names, has_key(key_of(names[i])));
    if first_index(names, has_key(key_of(names[i]))) > i {
        assert(!has_key(key_of(names[i]))(names[i]));
    }
}

/// A name's key does not depend on how its whitespace was typed.
pub proof fn lemma_product_key_ignores_whitespace(s: Seq<char>)
    ensures
        key_of(normalized(s)) == key_of(s),
{
    lemma_normalized_idempotent(s);
}

/// An element that maps to something is kept, mapped, by `filter_map`.
proof fn lemma_filter_map_has<A, B>(s: Seq<A>, f: spec_fn(A) -> Option<B>, x: A)
    requires
        s.contains(x),
        f(x) is Some,
    ensures
        s.filter_map(f).contains(f(x).unwrap()),
    decreases s.len(),
{
    let rest = s.drop_last();
    if s.last() == x {
        assert(s.filter_map(f) == rest.filter_map(f) + seq![f(x).unwrap()]);
        assert(s.filter_map(f)[s.filter_map(f).len() - 1] == f(x).unwrap());
    } else {
        let k = choose|k: int| 0 <= k < s.len() && s[k] == x;
        assert(rest[k] == x);
        lemma_filter_map_has(rest, f, x);
        let m = choose|m: int| 0 <= m < rest.filter_map(f).len() && rest.filter_map(f)[m] == f(
            x,
        ).unwrap();
        match f(s.last()) {
            Some(y) => {
                assert(s.filter_map(f) == rest.filter_map(f) + seq![y]);
                assert(s.filter_map(f)[m] == rest.filter_map(f)[m]);
            },
            None => {},
        }
    }
}

/// An overview depends on the name asked only through its folded key.
proof fn lemma_overview_by_fold<Q>(
    ps: Seq<Purchase<Q>>,
    a: Seq<char>,
    b: Seq<char>,
    key: Option<Seq<char>>,
)
    requires
        folded(a) == folded(b),
    ensures
        overview_of(ps, a, key) == overview_of(ps, b, key),
{
    let pa = |p: Purchase<Q>| folded(p.product@) == folded(a);
    let pb = |p: Purchase<Q>| folded(p.product@) == folded(b);
    assert(pa =~= pb);
    assert(history_of(ps, a) == history_of(ps, b));
}

/// A row of a product list is the overview of some product name on record.
proof fn lemma_row_source<Q>(ps: Seq<Purchase<Q>>, key: Option<Seq<char>>, o: Overview<Q>)
    requires
        stable_sort(product_names_of(ps).filter_map(overview_fn(ps, key)), by_product()).contains(o),
    ensures
        exists|n: Seq<char>|
            #[trigger] product_names_of(ps).contains(n) && overview_of(ps, n, key) == Some(o),
{
    let u = product_names_of(ps).filter_map(overview_fn(ps, key));
    lemma_stable_sort_multiset(u, by_product());
    assert(stable_sort(u, by_product()).to_multiset().count(o) > 0);
    assert(u.contains(o));
    product_names_of(ps).lemma_filter_map_contains(overview_fn(ps, key), o);
}

/// The store filter narrows the rows, not the comparison. Every row seen through
/// the filter also has a row without it, under the same name; and a filtered row
/// and an unfiltered one of the same product (folded) share their name and
/// purchase count, and, when their latest purchases share a unit, their store
/// groups.
pub proof fn lemma_filter_keeps_rows<Q>(ps: Seq<Purchase<Q>>, store_filter: Seq<char>)
    ensures
        ({
            let a = summaries_of(ps, Some(store_filter));
            let b = summaries_of(ps, None);
            &&& forall|i: int|
                0 <= i < a.len() ==> exists|j: int|
                    0 <= j < b.len() && (#[trigger] b[j]).product == (#[trigger] a[i]).product
                        && b[j].purchase_count == a[i].purchase_count && (a[i].latest.unit
                        == b[j].latest.unit ==> a[i].stores == b[j].stores)
            &&& forall|i: int, j: int|
                0 <= i < a.len() && 0 <= j < b.len() && folded((#[trigger] a[i]).product) == folded(
                    (#[trigger] b[j]).product,
                ) ==> a[i].product == b[j].product && a[i].purchase_count == b[j].purchase_count
                    && (a[i].latest.unit == b[j].latest.unit ==> a[i].stores == b[j].stores)
        }),
{
    let key = folded(store_filter);
    let a = summaries_of(ps, Some(store_filter));
    let b = summaries_of(ps, None);
    let names = product_names_of(ps);
    let ub = names.filter_map(overview_fn(ps, None));
    lemma_stable_sort_multiset(ub, by_product());
    assert forall|i: int| 0 <= i < a.len() implies exists|j: int|
        0 <= j < b.len() && (#[trigger] b[j]).product == (#[trigger] a[i]).product
            && b[j].purchase_count == a[i].purchase_count && (a[i].latest.unit == b[j].latest.unit
            ==> a[i].stores == b[j].stores) by {
        assert(a.contains(a[i]));
        lemma_row_source(ps, Some(key), a[i]);
        let n = choose|n: Seq<char>|
            #[trigger] names.contains(n) && overview_of(ps, n, Some(key)) == Some(a[i]);
        lemma_filter_keeps_comparison(ps, n, key);
        let o = overview_of(ps, n, None).unwrap();
        lemma_filter_map_has(names, overview_fn(ps, None), n);
        assert(ub.contains(o));
        assert(b.to_multiset().count(o) > 0);
        assert(b.contains(o));
        let j = choose|j: int| 0 <= j < b.len() && b[j] == o;
        assert(b[j] == o);
    }
    assert forall|i: int, j: int|
        0 <= i < a.len() && 0 <= j < b.len() && folded((#[trigger] a[i]).product) == folded(
            (#[trigger] b[j]).product,
        ) implies a[i].product == b[j].product && a[i].purchase_count == b[j].purchase_count && (
    a[i].latest.unit == b[j].latest.unit ==> a[i].stores == b[j].stores) by {
        assert(a.contains(a[i]));
        assert(b.contains(b[j]));
        lemma_row_source(ps, Some(key), a[i]);
        lemma_row_source(ps, None, b[j]);
        let n1 = choose|n: Seq<char>|
            #[trigger] names.contains(n) && overview_of(ps, n, Some(key)) == Some(a[i]);
        let n2 = choose|n: Seq<char>|
            #[trigger] names.contains(n) && overview_of(ps, n, None) == Some(b[j]);
        lemma_overview_is_of_product(ps, n1, Some(key));
        lemma_overview_is_of_product(ps, n2, None);
        lemma_overview_by_fold(ps, n1, n2, None);
        lemma_filter_keeps_comparison(ps, n1, key);
    }
}

/// Days are in calendar order: a later year is later whatever the month and day,
/// a later month of the same year is later whatever the day, and a later day of
/// the same month is later. The order is strict, and two days neither of which is
/// before the other are the same day.
pub proof fn lemma_days_in_calendar_order(a: Day, b: Day)
    ensures
        a.year < b.year ==> day_before(a, b),
        a.year == b.year && a.month < b.month ==> day_before(a, b),
        a.year == b.year && a.month == b.month && a.day < b.day ==> day_before(a, b),
        day_before(a, b) ==> !day_before(b, a),
        !day_before(a, b) && !day_before(b, a) ==> a == b,
{
}

/// The purchases of a product seen through an optional (folded) store filter,
/// newest first.
pub open spec fn visible_purchases<Q>(
    ps: Seq<Purchase<Q>>,
    product: Seq<char>,
    store_filter: Option<Seq<char>>,
) -> Seq<Purchase<Q>> {
    match store_filter {
        Some(key) => history_of(ps, product).filter(at_store(key)),
        None => history_of(ps, product),
    }
}

/// A price per kilo is never compared with a price per item: an overview's latest
/// purchase is the newest one seen, and its previous purchase, when there is one,
/// is the next purchase seen in the same unit, every purchase seen in between being
/// in another unit. There is none exactly when no older purchase seen is in that
/// unit.
pub proof fn lemma_previous_is_next_in_same_unit<Q>(
    ps: Seq<Purchase<Q>>,
    product: Seq<char>,
    store_filter: Option<Seq<char>>,
)
    ensures
        overview_of(ps, product, store_filter) matches Some(o) ==> {
            let v = visible_purchases(ps, product, store_filter);
            &&& v.len() > 0
            &&& o.latest == v[0]
            &&& match o.previous {
                Some(q) => q.unit == o.latest.unit && exists|k: int|
                    1 <= k < v.len() && #[trigger] v[k] == q && forall|m: int|
                        1 <= m < k ==> (#[trigger] v[m]).unit != o.latest.unit,
                None => forall|m: int| 1 <= m < v.len() ==> (#[trigger] v[m]).unit != o.latest.unit,
            }
        },
{
    if let Some(o) = overview_of(ps, product, store_filter) {
        let v = visible_purchases(ps, product, store_filter);
        let rest = v.drop_first();
        let pred = in_unit::<Q>(o.latest.unit);
        lemma_first_index_props(rest, pred);
        let j = first_index(rest, pred);
        assert forall|m: int| 1 <= m < j + 1 implies (#[trigger] v[m]).unit != o.latest.unit by {
            assert(rest[m - 1] == v[m]);
            assert(!pred(rest[m - 1]));
        }
        if j < rest.len() {
            assert(v[j + 1] == rest[j]);
            assert(pred(rest[j]));
        }
    }
}

} // verus!
