//! The shopping plan's grouping: every product filed under the store that sells
//! it cheapest. Which store is cheapest is decided by the caller from unit prices;
//! this module files the products.
use vstd::prelude::*;
use crate::order::{first_index, lemma_first_index_is, lemma_first_index_props};
use crate::text::{fold_key, folded};

verus! {

/// Plan groups whose store folds to `key`.
pub open spec fn named<T>(key: Seq<char>) -> spec_fn((Seq<char>, T)) -> bool {
    |e: (Seq<char>, T)| folded(e.0) == key
}

/// The store names as plain characters.
pub open spec fn best_views(best: Seq<Option<String>>) -> Seq<Option<Seq<char>>> {
    best.map_values(
        |o: Option<String>|
            match o {
                Some(s) => Some(s@),
                None => None,
            },
    )
}

/// Groups the positions of `best` by store: position `i` whose entry names a
/// store joins that store's group (compared folded); groups appear in the order
/// of their first position and keep the spelling of that first entry; positions
/// with no store are left out.
pub open spec fn plan_groups_of(best: Seq<Option<Seq<char>>>) -> Seq<(Seq<char>, Seq<usize>)>
    decreases best.len(),
{
    if best.len() == 0 {
        seq![]
    } else {
        let g = plan_groups_of(best.drop_last());
        let i = (best.len() - 1) as usize;
        match best.last() {
            None => g,
            Some(name) => {
                let j = first_index(g, named(folded(name)));
                if j < g.len() {
                    g.update(j, (g[j].0, g[j].1.push(i)))
                } else {
                    g.push((name, seq![i]))
                }
            },
        }
    }
}

pub open spec fn plan_view(r: Seq<(String, Vec<usize>)>) -> Seq<(Seq<char>, Seq<usize>)> {
    r.map_values(|e: (String, Vec<usize>)| (e.0@, e.1@))
}

/// Files each product position under its cheapest store, `best_stores[i]` being
/// the cheapest store of product `i` (`None` when it has none).
pub fn plan_groups(best_stores: &Vec<Option<String>>) -> (r: Vec<(String, Vec<usize>)>)
    ensures
        plan_view(r@) == plan_groups_of(best_views(best_stores@)),
{
    let ghost bv = best_views(best_stores@);
    let mut groups: Vec<(String, Vec<usize>)> = Vec::new();
    let mut keys: Vec<String> = Vec::new();
    let mut i: usize = 0;
    while i < best_stores.len()
        invariant
            i <= best_stores@.len(),
            bv == best_views(best_stores@),
            plan_view(groups@) == plan_groups_of(bv.take(i as int)),
            keys@.len() == groups@.len(),
            forall|k: int| 0 <= k < groups@.len() ==> #[trigger] keys@[k]@ == folded(groups@[k].0@),
        decreases best_stores.len() - i,
    {
        let ghost g = plan_view(groups@);
        proof {
            assert(bv.take(i + 1).drop_last() == bv.take(i as int));
            assert(bv.take(i + 1).last() == bv[i as int]);
            assert((bv.take(i + 1).len() - 1) as usize == i);
        }
        match &best_stores[i] {
            None => {},
            Some(name) => {
                let key = fold_key(name.as_str());
                let mut j: usize = 0;
                while j < keys.len() && !(keys[j] == key)
                    invariant
                        j <= keys@.len(),
                        keys@.len() == groups@.len(),
                        forall|k: int| 0 <= k < j ==> #[trigger] keys@[k]@ != key@,
                    decreases keys.len() - j,
                {
                    j += 1;
                }
                proof {
                    assert(bv[i as int] == Some(name@));
                    assert forall|k: int| 0 <= k < j implies !named::<Seq<usize>>(folded(name@))(#[trigger] g[k]) by {
                        assert(g[k].0 == groups@[k].0@);
                        assert(keys@[k]@ == folded(groups@[k].0@));
                        assert(key@ == folded(name@));
                        assert(named::<Seq<usize>>(folded(name@))(g[k]) == (folded(g[k].0) == folded(name@)));
                    }
                    if j < g.len() {
                        assert(g[j as int].0 == groups@[j as int].0@);
                    }
                    lemma_first_index_is(g, named::<Seq<usize>>(folded(name@)), j as int);
                }
                if j < keys.len() {
                    let ghost before = groups@;
                    let (store, mut members) = groups.remove(j);
                    members.push(i);
                    groups.insert(j, (store, members));
                    proof {
                        assert(groups@ == before.update(j as int, groups@[j as int]));
                        assert(plan_view(groups@) == g.update(j as int, (g[j as int].0, g[j as int].1.push(i))));
                        assert forall|k: int| 0 <= k < groups@.len() implies #[trigger] keys@[k]@ == folded(groups@[k].0@) by {
                            if k != j {
                                assert(groups@[k] == before[k]);
                            }
                        }
                    }
                } else {
                    let ghost before = groups@;
                    let mut members: Vec<usize> = Vec::new();
                    members.push(i);
                    groups.push((name.clone(), members));
                    keys.push(key);
                    proof {
                        assert(plan_view(groups@) == g.push((name@, seq![i])));
                        assert forall|k: int| 0 <= k < groups@.len() implies #[trigger] keys@[k]@ == folded(groups@[k].0@) by {
                            if k < before.len() {
                                assert(groups@[k] == before[k]);
                            }
                        }
                    }
                }
            },
        }
        i += 1;
    }
    assert(bv.take(i as int) == bv);
    groups
}


/// Every product is filed once, under its own cheapest store: each position in a
/// group names a store that folds like the group's; no two groups are for the same
/// store; and every position that names a store is in some group.
pub proof fn lemma_plan_files_each_product(best: Seq<Option<Seq<char>>>)
    requires
        best.len() <= usize::MAX,
    ensures
        ({
            let g = plan_groups_of(best);
            &&& forall|a: int, b: int|
                0 <= a < g.len() && 0 <= b < g[a].1.len() ==> {
                    let i = (#[trigger] g[a].1[b]) as int;
                    &&& 0 <= i < best.len()
                    &&& best[i] matches Some(n) && folded(n) == folded(g[a].0)
                }
            &&& forall|a: int, b: int|
                0 <= a < b < g.len() ==> folded((#[trigger] g[a]).0) != folded((#[trigger] g[b]).0)
            &&& forall|i: int|
                0 <= i < best.len() && (#[trigger] best[i]) is Some ==> exists|a: int, b: int|
                    0 <= a < g.len() && 0 <= b < g[a].1.len() && g[a].1[b] == i
        }),
    decreases best.len(),
{
    if best.len() > 0 {
        let p = best.drop_last();
        lemma_plan_files_each_product(p);
        let gp = plan_groups_of(p);
        let g = plan_groups_of(best);
        let last = (best.len() - 1) as usize;
        assert forall|i: int| 0 <= i < p.len() implies p[i] == #[trigger] best[i] by {}
        match best.last() {
            None => {
                assert(g == gp);
                assert forall|i: int|
                    0 <= i < best.len() && (#[trigger] best[i]) is Some implies exists|a: int, b: int|
                    0 <= a < g.len() && 0 <= b < g[a].1.len() && g[a].1[b] == i by {
                    assert(i < p.len());
                    assert(p[i] is Some);
                }
            },
            Some(name) => {
                let key = folded(name);
                lemma_first_index_props(gp, named::<Seq<usize>>(key));
                let at = first_index(gp, named::<Seq<usize>>(key));
                assert forall|a: int, b: int| 0 <= a < g.len() && 0 <= b < g[a].1.len() implies {
                    let i = (#[trigger] g[a].1[b]) as int;
                    &&& 0 <= i < best.len()
                    &&& best[i] matches Some(n) && folded(n) == folded(g[a].0)
                } by {
                    if at < gp.len() && a == at {
                        assert(g[a] == (gp[a].0, gp[a].1.push(last)));
                        if b < gp[a].1.len() {
                            assert(g[a].1[b] == gp[a].1[b]);
                            let i = gp[a].1[b] as int;
                            assert(0 <= i < p.len());
                            assert(best[i] == p[i]);
                        } else {
                            assert(g[a].1[b] == last);
                            assert(named::<Seq<usize>>(key)(gp[at]));
                        }
                    } else if a < gp.len() {
                        assert(g[a] == gp[a]);
                        let i = gp[a].1[b] as int;
                        assert(0 <= i < p.len());
                        assert(best[i] == p[i]);
                    } else {
                        assert(g[a] == (name, seq![last]));
                        assert(g[a].1[b] == last);
                        assert(best[last as int] == Some(name));
                    }
                }
                assert forall|a: int, b: int| 0 <= a < b < g.len() implies folded((#[trigger] g[a]).0)
                    != folded((#[trigger] g[b]).0) by {
                    if at < gp.len() {
                        assert(g[a].0 == gp[a].0 && g[b].0 == gp[b].0);
                    } else if b < gp.len() {
                        assert(g[a] == gp[a] && g[b] == gp[b]);
                    } else {
                        assert(g[a] == gp[a]);
                        assert(!named::<Seq<usize>>(key)(gp[a]));
                    }
                }
                assert forall|i: int|
                    0 <= i < best.len() && (#[trigger] best[i]) is Some implies exists|a: int, b: int|
                    0 <= a < g.len() && 0 <= b < g[a].1.len() && g[a].1[b] == i by {
                    if i < p.len() {
                        assert(p[i] == best[i]);
                        assert(p[i] is Some);
                        let (a, b) = choose|a: int, b: int|
                            0 <= a < gp.len() && 0 <= b < gp[a].1.len() && gp[a].1[b] == i;
                        if a == at && at < gp.len() {
                            assert(g[a] == (gp[a].0, gp[a].1.push(last)));
                            assert(g[a].1[b] == gp[a].1[b]);
                        } else {
                            assert(g[a] == gp[a]);
                        }
                        assert(0 <= a < g.len() && 0 <= b < g[a].1.len() && g[a].1[b] == i);
                    } else if at < gp.len() {
                        assert(g[at].1[gp[at].1.len() as int] == last);
                    } else {
                        assert(g[gp.len() as int].1[0] == last);
                    }
                }
            },
        }
    }
}

/// Within a group, positions are listed in increasing order, so none is listed
/// twice; every position is below the number of products.
proof fn lemma_plan_positions_increase(best: Seq<Option<Seq<char>>>)
    requires
        best.len() <= usize::MAX,
    ensures
        ({
            let g = plan_groups_of(best);
            &&& forall|a: int, b: int|
                0 <= a < g.len() && 0 <= b < g[a].1.len() ==> (#[trigger] g[a].1[b]) < best.len()
            &&& forall|a: int, b: int, c: int|
                0 <= a < g.len() && 0 <= b < c < g[a].1.len() ==> (#[trigger] g[a].1[b]) < (
                #[trigger] g[a].1[c])
        }),
    decreases best.len(),
{
    if best.len() > 0 {
        let p = best.drop_last();
        lemma_plan_positions_increase(p);
        let gp = plan_groups_of(p);
        let g = plan_groups_of(best);
        let last = (best.len() - 1) as usize;
        match best.last() {
            None => {
                assert(g == gp);
            },
            Some(name) => {
                let key = folded(name);
                let at = first_index(gp, named::<Seq<usize>>(key));
                lemma_first_index_props(gp, named::<Seq<usize>>(key));
                if at < gp.len() {
                    assert(g == gp.update(at, (gp[at].0, gp[at].1.push(last))));
                    assert forall|a: int, b: int|
                        0 <= a < g.len() && 0 <= b < g[a].1.len() implies (#[trigger] g[a].1[b])
                        < best.len() by {
                        if a == at && b == gp[a].1.len() {
                            assert(g[a].1[b] == last);
                        } else if a == at {
                            assert(g[a].1[b] == gp[a].1[b]);
                        } else {
                            assert(g[a] == gp[a]);
                        }
                    }
                    assert forall|a: int, b: int, c: int|
                        0 <= a < g.len() && 0 <= b < c < g[a].1.len() implies (#[trigger] g[a].1[b])
                        < (#[trigger] g[a].1[c]) by {
                        if a == at {
                            assert(g[a].1[b] == gp[a].1[b]);
                            if c == gp[a].1.len() {
                                assert(g[a].1[c] == last);
                            } else {
                                assert(g[a].1[c] == gp[a].1[c]);
                            }
                        } else {
                            assert(g[a] == gp[a]);
                        }
                    }
                } else {
                    assert(g == gp.push((name, seq![last])));
                    assert forall|a: int, b: int|
                        0 <= a < g.len() && 0 <= b < g[a].1.len() implies (#[trigger] g[a].1[b])
                        < best.len() by {
                        if a < gp.len() {
                            assert(g[a] == gp[a]);
                        }
                    }
                    assert forall|a: int, b: int, c: int|
                        0 <= a < g.len() && 0 <= b < c < g[a].1.len() implies (#[trigger] g[a].1[b])
                        < (#[trigger] g[a].1[c]) by {
                        if a < gp.len() {
                            assert(g[a] == gp[a]);
                        }
                    }
                }
            },
        }
    }
}

/// No product is filed twice: each position occurs at most once across all the
/// plan's groups, so the groups split the positions that name a store between
/// them.
pub proof fn lemma_plan_files_each_product_once(best: Seq<Option<Seq<char>>>)
    requires
        best.len() <= usize::MAX,
    ensures
        ({
            let g = plan_groups_of(best);
            forall|a: int, b: int, c: int, d: int|
                0 <= a < g.len() && 0 <= b < g[a].1.len() && 0 <= c < g.len() && 0 <= d
                    < g[c].1.len() && (#[trigger] g[a].1[b]) == (#[trigger] g[c].1[d]) ==> a == c
                    && b == d
        }),
{
    let g = plan_groups_of(best);
    lemma_plan_files_each_product(best);
    lemma_plan_positions_increase(best);
    assert forall|a: int, b: int, c: int, d: int|
        0 <= a < g.len() && 0 <= b < g[a].1.len() && 0 <= c < g.len() && 0 <= d < g[c].1.len()
            && (#[trigger] g[a].1[b]) == (#[trigger] g[c].1[d]) implies a == c && b == d by {
        let i = g[a].1[b] as int;
        assert(best[i] matches Some(n) && folded(n) == folded(g[a].0));
        assert(best[i] matches Some(n) && folded(n) == folded(g[c].0));
        if a < c {
            assert(folded(g[a].0) != folded(g[c].0));
        } else if c < a {
            assert(folded(g[c].0) != folded(g[a].0));
        }
        if b < d {
            assert(g[a].1[b] < g[a].1[d]);
        } else if d < b {
            assert(g[a].1[d] < g[a].1[b]);
        }
    }
}

} // verus!
