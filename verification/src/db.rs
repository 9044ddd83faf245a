//! The whole domain: one flat list of purchases, and the comparisons derived from it.
//!
//! There is deliberately no separate product or store table. A product exists because
//! it was bought at least once, which keeps data entry to a single form and makes a
//! typo fixable by deleting one line instead of reconciling two tables.
//!
//! A purchase's quantity is carried as the caller's own number type `Q` and never
//! read here: everything below is decided by names, dates, ids and units.
use vstd::prelude::*;
use crate::order::{first_index, lemma_first_index_is, lemma_stable_sort_step, stable_sort};
use crate::text::{chars_less, chars_of, folded, fold_key, key_of, lex_less, product_key};
use crate::units::Unit;

verus! {

/// A calendar day, held as the year, month and day it reads as.
#[derive(Clone, Copy, Debug, PartialEq, Eq, Structural)]
pub struct Day {
    pub year: i32,
    pub month: u32,
    pub day: u32,
}

/// `a` is an earlier day than `b`.
pub open spec fn day_before(a: Day, b: Day) -> bool {
    ||| a.year < b.year
    ||| a.year == b.year && a.month < b.month
    ||| a.year == b.year && a.month == b.month && a.day < b.day
}

impl Day {
    pub fn is_before(&self, other: &Day) -> (r: bool)
        ensures
            r == day_before(*self, *other),
    {
        self.year < other.year || (self.year == other.year && self.month < other.month) || (
        self.year == other.year && self.month == other.month && self.day < other.day)
    }
}

/// One line on one receipt: this product, at this store, on this day, for this price.
#[derive(Clone, Debug, PartialEq)]
pub struct Purchase<Q> {
    pub id: u64,
    pub product: String,
    pub store: String,
    /// Integer cents. Money is never a float: 0.1 + 0.2 is not 0.3 and a drifting
    /// total is worse than useless in an app whose whole point is comparing prices.
    pub price_cents: i64,
    pub quantity: Q,
    pub unit: Unit,
    pub date: Day,
    pub note: Option<String>,
}

impl<Q: Copy> Purchase<Q> {
    /// A field-by-field copy.
    pub fn duplicate(&self) -> (r: Self)
        ensures
            r == *self,
    {
        Purchase {
            id: self.id,
            product: self.product.clone(),
            store: self.store.clone(),
            price_cents: self.price_cents,
            quantity: self.quantity,
            unit: self.unit,
            date: self.date,
            note: match &self.note {
                Some(n) => Some(n.clone()),
                None => None,
            },
        }
    }
}

/// `a` sorts ahead of `b` in the newest-first order: a later day, or the same day
/// and a larger id.
pub open spec fn newer<Q>(a: Purchase<Q>, b: Purchase<Q>) -> bool {
    day_before(b.date, a.date) || (a.date == b.date && a.id > b.id)
}

pub open spec fn newer_rel<Q>() -> spec_fn(Purchase<Q>, Purchase<Q>) -> bool {
    |a: Purchase<Q>, b: Purchase<Q>| newer(a, b)
}

/// Every purchase, newest first, ties broken by id, and equal keys in stored order.
pub open spec fn recent_first<Q>(ps: Seq<Purchase<Q>>) -> Seq<Purchase<Q>> {
    stable_sort(ps, newer_rel())
}

/// The largest id in `ps`, or 0 when there is none.
pub open spec fn max_id<Q>(ps: Seq<Purchase<Q>>) -> nat
    decreases ps.len(),
{
    if ps.len() == 0 {
        0
    } else {
        let m = max_id(ps.drop_last());
        if ps.last().id > m {
            ps.last().id as nat
        } else {
            m
        }
    }
}

/// Everything the app stores.
#[derive(Clone, Debug, PartialEq)]
pub struct Db<Q> {
    pub purchases: Vec<Purchase<Q>>,
}

impl<Q> Default for Db<Q> {
    fn default() -> (db: Db<Q>)
        ensures
            db.purchases@ == Seq::<Purchase<Q>>::empty(),
    {
        Db { purchases: Vec::new() }
    }
}

impl<Q: Copy> Db<Q> {
    /// One more than the largest id in use (1 for an empty history).
    pub fn next_id(&self) -> (id: u64)
        requires
            max_id(self.purchases@) < u64::MAX,
        ensures
            id == max_id(self.purchases@) + 1,
    {
        let mut m: u64 = 0;
        let mut i: usize = 0;
        while i < self.purchases.len()
            invariant
                i <= self.purchases@.len(),
                m == max_id(self.purchases@.take(i as int)),
            decreases self.purchases.len() - i,
        {
            assert(self.purchases@.take(i + 1).drop_last() == self.purchases@.take(i as int));
            if self.purchases[i].id > m {
                m = self.purchases[i].id;
            }
            i += 1;
        }
        assert(self.purchases@.take(i as int) == self.purchases@);
        m + 1
    }

    pub fn insert(&mut self, purchase: Purchase<Q>)
        ensures
            final(self).purchases@ == old(self).purchases@.push(purchase),
    {
        self.purchases.push(purchase);
    }

    /// Deletes every purchase with this id, keeping the others in order.
    pub fn remove(&mut self, id: u64)
        ensures
            final(self).purchases@ == old(self).purchases@.filter(|p: Purchase<Q>| p.id != id),
    {
        let ghost keep = |p: Purchase<Q>| p.id != id;
        let mut kept: Vec<Purchase<Q>> = Vec::new();
        let mut i: usize = 0;
        while i < self.purchases.len()
            invariant
                i <= self.purchases@.len(),
                kept@ == self.purchases@.take(i as int).filter(keep),
                keep == (|p: Purchase<Q>| p.id != id),
            decreases self.purchases.len() - i,
        {
            proof {
                let t = self.purchases@.take(i + 1);
                assert(t == self.purchases@.take(i as int).push(self.purchases@[i as int]));
                self.purchases@.take(i as int).lemma_filter_push(self.purchases@[i as int], keep);
                assert(keep(self.purchases@[i as int]) == (self.purchases@[i as int].id != id));
                assert(t.filter(keep) == (if keep(self.purchases@[i as int]) {
                    self.purchases@.take(i as int).filter(keep).push(self.purchases@[i as int])
                } else {
                    self.purchases@.take(i as int).filter(keep)
                }));
            }
            if self.purchases[i].id != id {
                kept.push(self.purchases[i].duplicate());
            }
            i += 1;
        }
        assert(self.purchases@.take(i as int) == self.purchases@);
        self.purchases = kept;
    }

    /// Every purchase, newest first. Ties broken by id so the order is total and a
    /// same-day correction still lands after the line it corrects.
    pub fn sorted_recent_first(&self) -> (r: Vec<Purchase<Q>>)
        ensures
            r@ == recent_first(self.purchases@),
    {
        let ghost ps = self.purchases@;
        let mut out: Vec<Purchase<Q>> = Vec::new();
        let mut i: usize = 0;
        while i < self.purchases.len()
            invariant
                i <= ps.len(),
                ps == self.purchases@,
                out@ == stable_sort(ps.take(i as int), newer_rel()),
            decreases self.purchases.len() - i,
        {
            let p = &self.purchases[i];
            let mut j: usize = 0;
            while j < out.len() && !newer_before(p, &out[j])
                invariant
                    j <= out@.len(),
                    forall|k: int| 0 <= k < j ==> !newer(*p, #[trigger] out@[k]),
                decreases out.len() - j,
            {
                j += 1;
            }
            proof {
                lemma_first_index_is(out@, |e: Purchase<Q>| newer_rel()(*p, e), j as int);
                lemma_stable_sort_step(ps, i as int, newer_rel());
            }
            out.insert(j, p.duplicate());
            i += 1;
        }
        assert(ps.take(i as int) == ps);
        out
    }
}

/// The characters of each string.
pub open spec fn views(v: Seq<String>) -> Seq<Seq<char>> {
    v.map_values(|s: String| s@)
}

/// Some name in `d` folds to the same key as `x`.
pub open spec fn contains_folded(d: Seq<Seq<char>>, x: Seq<char>) -> bool {
    exists|k: int| 0 <= k < d.len() && #[trigger] folded(d[k]) == folded(x)
}

/// The first name of each fold class, in order of first appearance.
pub open spec fn distinct_folded(s: Seq<Seq<char>>) -> Seq<Seq<char>>
    decreases s.len(),
{
    if s.len() == 0 {
        seq![]
    } else {
        let d = distinct_folded(s.drop_last());
        if contains_folded(d, s.last()) {
            d
        } else {
            d.push(s.last())
        }
    }
}

/// Distinct store names, spelled as in their most recent purchase, most recent first.
pub open spec fn store_names<Q>(ps: Seq<Purchase<Q>>) -> Seq<Seq<char>> {
    distinct_folded(recent_first(ps).map_values(|p: Purchase<Q>| p.store@))
}

/// Distinct product names, spelled as in their most recent purchase, most recent first.
pub open spec fn product_names_of<Q>(ps: Seq<Purchase<Q>>) -> Seq<Seq<char>> {
    distinct_folded(recent_first(ps).map_values(|p: Purchase<Q>| p.product@))
}

/// Every purchase of the product named `product` (in any spelling), newest first.
pub open spec fn history_of<Q>(ps: Seq<Purchase<Q>>, product: Seq<char>) -> Seq<Purchase<Q>> {
    recent_first(ps).filter(|p: Purchase<Q>| folded(p.product@) == folded(product))
}

/// Names whose product key is `key`.
pub open spec fn has_key(key: u64) -> spec_fn(Seq<char>) -> bool {
    |n: Seq<char>| key_of(n) == key
}

/// Keeps the first name of each fold class, in order.
fn distinct_by_key(names: Vec<String>) -> (r: Vec<String>)
    ensures
        views(r@) == distinct_folded(views(names@)),
{
    let mut seen: Vec<String> = Vec::new();
    let mut seen_keys: Vec<String> = Vec::new();
    let mut i: usize = 0;
    while i < names.len()
        invariant
            i <= names@.len(),
            views(seen@) == distinct_folded(views(names@.take(i as int))),
            seen_keys@.len() == seen@.len(),
            forall|j: int| 0 <= j < seen@.len() ==> #[trigger] seen_keys@[j]@ == folded(seen@[j]@),
        decreases names.len() - i,
    {
        let key = fold_key(names[i].as_str());
        let mut found = false;
        let mut j: usize = 0;
        while j < seen_keys.len()
            invariant
                j <= seen_keys@.len(),
                seen_keys@.len() == seen@.len(),
                forall|j: int| 0 <= j < seen@.len() ==> #[trigger] seen_keys@[j]@ == folded(seen@[j]@),
                key@ == folded(names@[i as int]@),
                found == exists|k: int| 0 <= k < j && #[trigger] folded(seen@[k]@) == key@,
            decreases seen_keys.len() - j,
        {
            if seen_keys[j] == key {
                found = true;
            }
            j += 1;
        }
        proof {
            let pre = views(names@.take(i as int));
            let post = views(names@.take(i + 1));
            assert(post.drop_last() == pre);
            assert(post.last() == names@[i as int]@);
            let d = views(seen@);
            if found {
                let k = choose|k: int| 0 <= k < seen_keys@.len() && #[trigger] folded(seen@[k]@) == key@;
                assert(d[k] == seen@[k]@);
                assert(contains_folded(d, post.last()));
            } else {
                assert forall|k: int| 0 <= k < d.len() implies #[trigger] folded(d[k]) != folded(post.last()) by {
                    assert(d[k] == seen@[k]@);
                }
            }
        }
        if !found {
            let ghost before = seen@;
            seen.push(names[i].clone());
            seen_keys.push(key);
            proof {
                assert(views(seen@) == views(before).push(names@[i as int]@)) by {
                    assert(seen@ == before.push(names@[i as int]));
                }
            }
        }
        i += 1;
    }
    assert(names@.take(i as int) == names@);
    seen
}

impl<Q: Copy> Db<Q> {
    /// Distinct store names, most recently used first — that ordering puts the store
    /// you are standing in at the top of the form's suggestion list.
    pub fn stores(&self) -> (r: Vec<String>)
        ensures
            views(r@) == store_names(self.purchases@),
    {
        let recent = self.sorted_recent_first();
        let mut names: Vec<String> = Vec::new();
        let mut i: usize = 0;
        while i < recent.len()
            invariant
                i <= recent@.len(),
                views(names@) == recent@.take(i as int).map_values(|p: Purchase<Q>| p.store@),
            decreases recent.len() - i,
        {
            let ghost before = names@;
            names.push(recent[i].store.clone());
            proof {
                assert(recent@.take(i + 1) == recent@.take(i as int).push(recent@[i as int]));
                assert(views(names@) == views(before).push(recent@[i as int].store@)) by {
                    assert(names@ == before.push(recent@[i as int].store));
                }
            }
            i += 1;
        }
        assert(recent@.take(i as int) == recent@);
        distinct_by_key(names)
    }

    /// Distinct product names, most recently bought first.
    pub fn product_names(&self) -> (r: Vec<String>)
        ensures
            views(r@) == product_names_of(self.purchases@),
    {
        let recent = self.sorted_recent_first();
        let mut names: Vec<String> = Vec::new();
        let mut i: usize = 0;
        while i < recent.len()
            invariant
                i <= recent@.len(),
                views(names@) == recent@.take(i as int).map_values(|p: Purchase<Q>| p.product@),
            decreases recent.len() - i,
        {
            let ghost before = names@;
            names.push(recent[i].product.clone());
            proof {
                assert(recent@.take(i + 1) == recent@.take(i as int).push(recent@[i as int]));
                assert(views(names@) == views(before).push(recent@[i as int].product@)) by {
                    assert(names@ == before.push(recent@[i as int].product));
                }
            }
            i += 1;
        }
        assert(recent@.take(i as int) == recent@);
        distinct_by_key(names)
    }

    /// Full history of one product, newest first, every unit included.
    pub fn history(&self, product: &str) -> (r: Vec<Purchase<Q>>)
        ensures
            r@ == history_of(self.purchases@, product@),
    {
        let key = fold_key(product);
        let recent = self.sorted_recent_first();
        let ghost pred = |p: Purchase<Q>| folded(p.product@) == folded(product@);
        let mut out: Vec<Purchase<Q>> = Vec::new();
        let mut i: usize = 0;
        while i < recent.len()
            invariant
                i <= recent@.len(),
                key@ == folded(product@),
                pred == (|p: Purchase<Q>| folded(p.product@) == folded(product@)),
                out@ == recent@.take(i as int).filter(pred),
            decreases recent.len() - i,
        {
            let k = fold_key(recent[i].product.as_str());
            proof {
                assert(recent@.take(i + 1) == recent@.take(i as int).push(recent@[i as int]));
                recent@.take(i as int).lemma_filter_push(recent@[i as int], pred);
            }
            if k == key {
                out.push(recent[i].duplicate());
            }
            i += 1;
        }
        assert(recent@.take(i as int) == recent@);
        out
    }

    /// Resolves a [`product_key`] back to the product's current display name: the
    /// most recently bought product name with that key.
    pub fn product_by_key(&self, key: u64) -> (r: Option<String>)
        ensures
            ({
                let names = product_names_of(self.purchases@);
                let i = first_index(names, has_key(key));
                match r {
                    Some(name) => i < names.len() && name@ == names[i],
                    None => i == names.len(),
                }
            }),
    {
        let names = self.product_names();
        let ghost vs = views(names@);
        let mut i: usize = 0;
        while i < names.len()
            invariant
                i <= names@.len(),
                vs == views(names@),
                vs == product_names_of(self.purchases@),
                forall|k: int| 0 <= k < i ==> key_of(#[trigger] vs[k]) != key,
            decreases names.len() - i,
        {
            assert(vs[i as int] == names@[i as int]@);
            if product_key(names[i].as_str()) == key {
                proof {
                    assert(vs[i as int] == names@[i as int]@);
                    lemma_first_index_is(vs, has_key(key), i as int);
                    assert(first_index(vs, has_key(key)) == i);
                    assert(vs == product_names_of(self.purchases@));
                    assert(i < vs.len());
                }
                let found = names[i].clone();
                assert(found@ == vs[i as int]);
                return Some(found);
            }
            i += 1;
        }
        proof {
            lemma_first_index_is(vs, has_key(key), i as int);
        }
        None
    }
}

/// The purchases of one product at one store, newest first.
#[derive(Debug)]
pub struct StoreVisits<Q> {
    /// The store's spelling in its most recent purchase.
    pub store: String,
    pub last_date: Day,
    pub purchases: Vec<Purchase<Q>>,
}

/// One product, as shown in a list: its latest purchase, the one it is compared
/// with, and every store that sold it in the same unit.
#[derive(Debug)]
pub struct ProductOverview<Q> {
    /// The product's name as spelled in its most recent purchase, whatever the
    /// store filter: the spelling shown is always the most recent one entered.
    pub product: String,
    /// Unit of the latest purchase. Only purchases sharing it are grouped: a price
    /// per kilo and a price per item are not the same kind of number.
    pub unit: Unit,
    pub latest: Purchase<Q>,
    /// The visible purchase before `latest` in the same unit, if any.
    pub previous: Option<Purchase<Q>>,
    /// Every store selling it in `unit`, in order of its most recent purchase there.
    /// Taken over the whole history even when the rows are filtered to one store,
    /// so the comparison stays honest.
    pub stores: Vec<StoreVisits<Q>>,
    pub purchase_count: usize,
}

/// What a [`ProductOverview`] holds, as plain values: the store groups are their
/// purchase lists.
pub struct Overview<Q> {
    pub product: Seq<char>,
    pub latest: Purchase<Q>,
    pub previous: Option<Purchase<Q>>,
    pub stores: Seq<Seq<Purchase<Q>>>,
    pub purchase_count: nat,
}

impl<Q> StoreVisits<Q> {
    /// The name and date are those of the first (most recent) purchase.
    pub open spec fn well_formed(self) -> bool {
        &&& self.purchases@.len() > 0
        &&& self.store == self.purchases@[0].store
        &&& self.last_date == self.purchases@[0].date
    }
}

impl<Q> ProductOverview<Q> {
    pub open spec fn overview(self) -> Overview<Q> {
        Overview {
            product: self.product@,
            latest: self.latest,
            previous: self.previous,
            stores: self.stores@.map_values(|v: StoreVisits<Q>| v.purchases@),
            purchase_count: self.purchase_count as nat,
        }
    }

    /// The unit is the latest purchase's, and every store group is well formed.
    pub open spec fn well_formed(self) -> bool {
        &&& self.unit == self.latest.unit
        &&& forall|k: int| 0 <= k < self.stores@.len() ==> (#[trigger] self.stores@[k]).well_formed()
    }
}

/// Groups whose first purchase is at a store folding to `key`.
pub open spec fn at_store_group<Q>(key: Seq<char>) -> spec_fn(Seq<Purchase<Q>>) -> bool {
    |g: Seq<Purchase<Q>>| folded(g[0].store@) == key
}

/// Purchases at a store folding to `key`.
pub open spec fn at_store<Q>(key: Seq<char>) -> spec_fn(Purchase<Q>) -> bool {
    |p: Purchase<Q>| folded(p.store@) == key
}

/// Purchases in `unit`.
pub open spec fn in_unit<Q>(unit: Unit) -> spec_fn(Purchase<Q>) -> bool {
    |p: Purchase<Q>| p.unit == unit
}

/// `c` split by store (folded), each group in `c`'s order, groups in order of
/// their first purchase in `c`.
pub open spec fn group_by_store<Q>(c: Seq<Purchase<Q>>) -> Seq<Seq<Purchase<Q>>>
    decreases c.len(),
{
    if c.len() == 0 {
        seq![]
    } else {
        let g = group_by_store(c.drop_last());
        let x = c.last();
        let i = first_index(g, at_store_group(folded(x.store@)));
        if i < g.len() {
            g.update(i, g[i].push(x))
        } else {
            g.push(seq![x])
        }
    }
}

/// The overview of the product named `product`: `None` when no purchase of it
/// is visible through the (already folded) store filter. Its name is spelled as
/// the product's newest purchase overall; its latest purchase is the newest one
/// visible through the filter.
pub open spec fn overview_of<Q>(
    ps: Seq<Purchase<Q>>,
    product: Seq<char>,
    store_filter: Option<Seq<char>>,
) -> Option<Overview<Q>> {
    let h = history_of(ps, product);
    let visible = match store_filter {
        Some(key) => h.filter(at_store(key)),
        None => h,
    };
    if visible.len() == 0 {
        None
    } else {
        let latest = visible[0];
        let rest = visible.drop_first();
        let j = first_index(rest, in_unit(latest.unit));
        Some(
            Overview {
                product: h[0].product@,
                latest,
                previous: if j < rest.len() {
                    Some(rest[j])
                } else {
                    None
                },
                stores: group_by_store(h.filter(in_unit(latest.unit))),
                purchase_count: h.len(),
            },
        )
    }
}

/// The purchases of `s` at the store folding to `store_key` when one is given,
/// otherwise those in `unit`; in `s`'s order.
fn select<Q: Copy>(s: &Vec<Purchase<Q>>, store_key: Option<&String>, unit: Unit) -> (r: Vec<Purchase<Q>>)
    ensures
        r@ == match store_key {
            Some(k) => s@.filter(at_store(k@)),
            None => s@.filter(in_unit(unit)),
        },
{
    let ghost pred = match store_key {
        Some(k) => at_store::<Q>(k@),
        None => in_unit::<Q>(unit),
    };
    let mut out: Vec<Purchase<Q>> = Vec::new();
    let mut i: usize = 0;
    while i < s.len()
        invariant
            i <= s@.len(),
            pred == match store_key {
                Some(k) => at_store::<Q>(k@),
                None => in_unit::<Q>(unit),
            },
            out@ == s@.take(i as int).filter(pred),
        decreases s.len() - i,
    {
        proof {
            assert(s@.take(i + 1) == s@.take(i as int).push(s@[i as int]));
            s@.take(i as int).lemma_filter_push(s@[i as int], pred);
        }
        let keep = match store_key {
            Some(k) => fold_key(s[i].store.as_str()) == *k,
            None => s[i].unit == unit,
        };
        if keep {
            out.push(s[i].duplicate());
        }
        i += 1;
    }
    assert(s@.take(i as int) == s@);
    out
}

/// The purchase lists of store groups.
pub open spec fn visit_lists<Q>(v: Seq<StoreVisits<Q>>) -> Seq<Seq<Purchase<Q>>> {
    v.map_values(|g: StoreVisits<Q>| g.purchases@)
}

/// Splits `c` by store, as [`group_by_store`] does.
fn group_stores<Q: Copy>(c: &Vec<Purchase<Q>>) -> (r: Vec<StoreVisits<Q>>)
    ensures
        visit_lists(r@) == group_by_store(c@),
        forall|k: int| 0 <= k < r@.len() ==> (#[trigger] r@[k]).well_formed(),
{
    let mut groups: Vec<StoreVisits<Q>> = Vec::new();
    let mut keys: Vec<String> = Vec::new();
    let mut i: usize = 0;
    while i < c.len()
        invariant
            i <= c@.len(),
            visit_lists(groups@) == group_by_store(c@.take(i as int)),
            keys@.len() == groups@.len(),
            forall|k: int| 0 <= k < groups@.len() ==> (#[trigger] groups@[k]).well_formed(),
            forall|k: int| 0 <= k < groups@.len() ==> #[trigger] keys@[k]@ == folded(groups@[k].store@),
        decreases c.len() - i,
    {
        let x = &c[i];
        let key = fold_key(x.store.as_str());
        let ghost g = visit_lists(groups@);
        let mut j: usize = 0;
        while j < keys.len() && !(keys[j] == key)
            invariant
                j <= keys@.len(),
                keys@.len() == groups@.len(),
                forall|k: int| 0 <= k < j ==> #[trigger] keys@[k]@ != key@,
            decreases keys.len() - j,
        {
            j += 1;
        }
        proof {
            assert(c@.take(i + 1).drop_last() == c@.take(i as int));
            assert(c@.take(i + 1).last() == *x);
            assert forall|k: int| 0 <= k < j implies !at_store_group(folded(x.store@))(#[trigger] g[k]) by {
                assert(g[k] == groups@[k].purchases@);
                assert(groups@[k].well_formed());
                assert(keys@[k]@ == folded(groups@[k].store@));
            }
            if j < g.len() {
                assert(g[j as int] == groups@[j as int].purchases@);
                assert(groups@[j as int].well_formed());
                assert(keys@[j as int]@ == folded(groups@[j as int].store@));
            }
            lemma_first_index_is(g, at_store_group(folded(x.store@)), j as int);
        }
        if j < keys.len() {
            let ghost before = groups@;
            let mut v = groups.remove(j);
            let ghost old_v = v;
            v.purchases.push(x.duplicate());
            groups.insert(j, v);
            proof {
                assert(groups@ == before.update(j as int, v));
                assert(visit_lists(groups@) == g.update(j as int, g[j as int].push(*x)));
                assert forall|k: int| 0 <= k < groups@.len() implies (#[trigger] groups@[k]).well_formed() by {
                    if k == j {
                        assert(old_v == before[j as int]);
                        assert(old_v.well_formed());
                        assert(v.purchases@[0] == old_v.purchases@[0]);
                    } else {
                        assert(groups@[k] == before[k]);
                    }
                }
                assert forall|k: int| 0 <= k < groups@.len() implies #[trigger] keys@[k]@ == folded(groups@[k].store@) by {
                    if k != j {
                        assert(groups@[k] == before[k]);
                    } else {
                        assert(old_v == before[j as int]);
                    }
                }
            }
        } else {
            let ghost before = groups@;
            let mut first: Vec<Purchase<Q>> = Vec::new();
            first.push(x.duplicate());
            groups.push(StoreVisits { store: x.store.clone(), last_date: x.date, purchases: first });
            keys.push(key);
            proof {
                assert(groups@ == before.push(groups@.last()));
                assert(visit_lists(groups@) == g.push(seq![*x]));
                assert forall|k: int| 0 <= k < groups@.len() implies (#[trigger] groups@[k]).well_formed() by {
                    if k < before.len() {
                        assert(groups@[k] == before[k]);
                    }
                }
            }
        }
        i += 1;
    }
    assert(c@.take(i as int) == c@);
    groups
}

/// An element-by-element copy.
fn duplicate_all<Q: Copy>(s: &Vec<Purchase<Q>>) -> (r: Vec<Purchase<Q>>)
    ensures
        r@ == s@,
{
    let mut out: Vec<Purchase<Q>> = Vec::new();
    let mut i: usize = 0;
    while i < s.len()
        invariant
            i <= s@.len(),
            out@ == s@.take(i as int),
        decreases s.len() - i,
    {
        out.push(s[i].duplicate());
        assert(s@.take(i + 1) == s@.take(i as int).push(s@[i as int]));
        i += 1;
    }
    assert(s@.take(i as int) == s@);
    out
}

/// The folded store filter as plain characters.
pub open spec fn filter_view(store_filter: Option<&String>) -> Option<Seq<char>> {
    match store_filter {
        Some(k) => Some(k@),
        None => None,
    }
}

impl<Q: Copy> Db<Q> {
    /// The overview of one product; `store_filter` is an already folded store key.
    fn summarize(&self, product: &str, store_filter: Option<&String>) -> (r: Option<
        ProductOverview<Q>,
    >)
        ensures
            match r {
                Some(o) => o.well_formed() && overview_of(
                    self.purchases@,
                    product@,
                    filter_view(store_filter),
                ) == Some(o.overview()),
                None => overview_of(self.purchases@, product@, filter_view(store_filter)) is None,
            },
    {
        let history = self.history(product);
        let visible = match store_filter {
            Some(k) => select(&history, Some(k), Unit::Piece),
            None => duplicate_all(&history),
        };
        if visible.len() == 0 {
            return None;
        }
        proof {
            if let Some(k) = store_filter {
                history@.lemma_filter_len(at_store(k@));
            }
        }
        let name = history[0].product.clone();
        let latest = visible[0].duplicate();
        let comparable = select(&history, None, latest.unit);
        let mut j: usize = 1;
        while j < visible.len() && visible[j].unit != latest.unit
            invariant
                1 <= j <= visible@.len(),
                forall|k: int| 1 <= k < j ==> (#[trigger] visible@[k]).unit != latest.unit,
            decreases visible.len() - j,
        {
            j += 1;
        }
        proof {
            let rest = visible@.drop_first();
            assert forall|k: int| 0 <= k < j - 1 implies !in_unit(latest.unit)(#[trigger] rest[k]) by {
                assert(rest[k] == visible@[k + 1]);
            }
            lemma_first_index_is(rest, in_unit(latest.unit), j - 1);
        }
        let previous = if j < visible.len() {
            Some(visible[j].duplicate())
        } else {
            None
        };
        let stores = group_stores(&comparable);
        let o = ProductOverview {
            product: name,
            unit: latest.unit,
            latest,
            previous,
            stores,
            purchase_count: history.len(),
        };
        proof {
            assert(o.overview().stores == visit_lists(o.stores@));
        }
        Some(o)
    }
}

/// Overviews ordered by their product's folded name.
pub open spec fn by_product<Q>() -> spec_fn(Overview<Q>, Overview<Q>) -> bool {
    |a: Overview<Q>, b: Overview<Q>| lex_less(folded(a.latest.product@), folded(b.latest.product@))
}

pub open spec fn overview_fn<Q>(ps: Seq<Purchase<Q>>, store_key: Option<Seq<char>>) -> spec_fn(
    Seq<char>,
) -> Option<Overview<Q>> {
    |n: Seq<char>| overview_of(ps, n, store_key)
}

/// One overview per product visible through the store filter, product name
/// ascending (folded), equal names in most-recent-first order.
pub open spec fn summaries_of<Q>(ps: Seq<Purchase<Q>>, store_filter: Option<Seq<char>>) -> Seq<
    Overview<Q>,
> {
    let key = match store_filter {
        Some(f) => Some(folded(f)),
        None => None,
    };
    stable_sort(product_names_of(ps).filter_map(overview_fn(ps, key)), by_product())
}

pub open spec fn overviews<Q>(s: Seq<ProductOverview<Q>>) -> Seq<Overview<Q>> {
    s.map_values(|o: ProductOverview<Q>| o.overview())
}

pub open spec fn str_view(s: Option<&str>) -> Option<Seq<char>> {
    match s {
        Some(t) => Some(t@),
        None => None,
    }
}

impl<Q: Copy> Db<Q> {
    /// One overview per product, product name ascending.
    ///
    /// `store_filter` narrows *which products appear and which purchase counts as the
    /// latest one*, not the price comparison: filtering to Lidl answers "what have I
    /// bought at Lidl and for how much", while still showing whether Aldi is cheaper.
    pub fn summaries(&self, store_filter: Option<&str>) -> (r: Vec<ProductOverview<Q>>)
        ensures
            overviews(r@) == summaries_of(self.purchases@, str_view(store_filter)),
            forall|k: int| 0 <= k < r@.len() ==> (#[trigger] r@[k]).well_formed(),
    {
        let key: Option<String> = match store_filter {
            Some(f) => Some(fold_key(f)),
            None => None,
        };
        let ghost fkey = match store_filter {
            Some(f) => Some(folded(f@)),
            None => None,
        };
        let ghost f = overview_fn(self.purchases@, fkey);
        let names = self.product_names();
        let ghost nv = views(names@);
        let mut found: Vec<ProductOverview<Q>> = Vec::new();
        let mut i: usize = 0;
        while i < names.len()
            invariant
                i <= names@.len(),
                nv == views(names@),
                nv == product_names_of(self.purchases@),
                match key {
                    Some(k) => fkey == Some(k@),
                    None => fkey is None,
                },
                f == overview_fn(self.purchases@, fkey),
                overviews(found@) == nv.take(i as int).filter_map(f),
                forall|k: int| 0 <= k < found@.len() ==> (#[trigger] found@[k]).well_formed(),
            decreases names.len() - i,
        {
            let ghost before = found@;
            proof {
                assert(nv.take(i + 1).drop_last() == nv.take(i as int));
                assert(nv.take(i + 1).last() == names@[i as int]@);
            }
            match self.summarize(names[i].as_str(), key.as_ref()) {
                Some(o) => {
                    found.push(o);
                    proof {
                        assert(found@ == before.push(o));
                        assert(overviews(found@) == overviews(before) + seq![o.overview()]);
                    }
                },
                None => {},
            }
            i += 1;
        }
        assert(nv.take(i as int) == nv);
        let ghost all = overviews(found@);
        let total = found.len();
        assert(all.len() == total);
        let mut out: Vec<ProductOverview<Q>> = Vec::new();
        let mut out_keys: Vec<Vec<char>> = Vec::new();
        let mut done: usize = 0;
        while found.len() > 0
            invariant
                done + found@.len() == all.len(),
                all.len() == total,
                overviews(found@) == all.skip(done as int),
                overviews(out@) == stable_sort(all.take(done as int), by_product()),
                out_keys@.len() == out@.len(),
                forall|k: int| 0 <= k < found@.len() ==> (#[trigger] found@[k]).well_formed(),
                forall|k: int| 0 <= k < out@.len() ==> (#[trigger] out@[k]).well_formed(),
                forall|k: int| 0 <= k < out@.len() ==> #[trigger] out_keys@[k]@ == folded(out@[k].latest.product@),
            decreases found@.len(),
        {
            let ghost rest = found@;
            let x = found.remove(0);
            proof {
                assert(rest[0] == x);
                assert(found@ == rest.drop_first());
                assert(overviews(found@) == overviews(rest).drop_first());
                assert(all.skip(done as int)[0] == x.overview());
                assert(all.skip(done + 1) == all.skip(done as int).drop_first());
                assert(all[done as int] == x.overview());
                assert(x.well_formed());
                assert forall|k: int| 0 <= k < found@.len() implies (#[trigger] found@[k]).well_formed() by {
                    assert(found@[k] == rest[k + 1]);
                }
            }
            let xkey = chars_of(fold_key(x.latest.product.as_str()).as_str());
            let ghost sorted = overviews(out@);
            let mut j: usize = 0;
            while j < out_keys.len() && !chars_less(&xkey, &out_keys[j])
                invariant
                    j <= out_keys@.len(),
                    out_keys@.len() == out@.len(),
                    sorted == overviews(out@),
                    xkey@ == folded(x.latest.product@),
                    forall|k: int| 0 <= k < out@.len() ==> #[trigger] out_keys@[k]@ == folded(out@[k].latest.product@),
                    forall|k: int| 0 <= k < j ==> !by_product()(x.overview(), #[trigger] sorted[k]),
                decreases out_keys.len() - j,
            {
                assert(sorted[j as int] == out@[j as int].overview());
                j += 1;
            }
            proof {
                if j < out_keys.len() {
                    assert(sorted[j as int] == out@[j as int].overview());
                }
                lemma_first_index_is(sorted, |e: Overview<Q>| by_product()(x.overview(), e), j as int);
                lemma_stable_sort_step(all, done as int, by_product());
            }
            let ghost before_out = out@;
            out.insert(j, x);
            out_keys.insert(j, xkey);
            proof {
                assert(overviews(out@) == sorted.insert(j as int, x.overview()));
                assert forall|k: int| 0 <= k < out@.len() implies (#[trigger] out@[k]).well_formed() by {
                    if k < j {
                        assert(out@[k] == before_out[k]);
                    } else if k > j {
                        assert(out@[k] == before_out[k - 1]);
                    }
                }
            }
            done += 1;
        }
        assert(all.take(done as int) == all);
        out
    }
}

fn newer_before<Q>(a: &Purchase<Q>, b: &Purchase<Q>) -> (r: bool)
    ensures
        r == newer(*a, *b),
{
    b.date.is_before(&a.date) || (a.date == b.date && a.id > b.id)
}

} // verus!
