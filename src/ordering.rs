//! The priority order of a set's services.
use vstd::prelude::*;
use crate::model::{SCNetworkService, SCNetworkSet};
use crate::store::{PreferencesView, SCPreferences};

verus! {

/// The first index at or after `i` at which `order` names `id`.
pub open spec fn position_from(order: Seq<u64>, id: u64, i: int) -> Option<int>
    decreases order.len() - i,
{
    if i < 0 || i >= order.len() {
        None
    } else if order[i] == id {
        Some(i)
    } else {
        position_from(order, id, i + 1)
    }
}

/// The priority of a service: the first index at which the order names it, if any.
pub open spec fn position(order: Seq<u64>, id: u64) -> Option<int> {
    position_from(order, id, 0)
}

/// Holds of the ids whose priority is `p`.
pub open spec fn at_position(order: Seq<u64>, p: int) -> spec_fn(u64) -> bool {
    |x: u64| position(order, x) == Some(p)
}

/// Holds of the ids the order does not name.
pub open spec fn unpositioned(order: Seq<u64>) -> spec_fn(u64) -> bool {
    |x: u64| position(order, x).is_none()
}

/// The ids of priority below `n`, by ascending priority; ids of equal priority keep their
/// relative order.
pub open spec fn ordered_below(ids: Seq<u64>, order: Seq<u64>, n: int) -> Seq<u64>
    decreases n,
{
    if n <= 0 {
        Seq::empty()
    } else {
        ordered_below(ids, order, n - 1) + ids.filter(at_position(order, n - 1))
    }
}

/// `ids` sorted stably by priority: the ids the order names by ascending position, then the
/// others in their input order.
pub open spec fn priority_ordered(ids: Seq<u64>, order: Seq<u64>) -> Seq<u64> {
    ordered_below(ids, order, order.len() as int) + ids.filter(unpositioned(order))
}

proof fn lemma_position_from(order: Seq<u64>, id: u64, i: int)
    requires
        0 <= i <= order.len(),
    ensures
        position_from(order, id, i).is_some() ==> i <= position_from(order, id, i).unwrap() < order.len(),
    decreases order.len() - i,
{
    if i < order.len() {
        lemma_position_from(order, id, i + 1);
    }
}

/// Filtering a sequence with one more element at its end.
proof fn lemma_filter_push(s: Seq<u64>, f: spec_fn(u64) -> bool, x: u64)
    ensures
        s.push(x).filter(f) == (if f(x) { s.filter(f).push(x) } else { s.filter(f) }),
{
    reveal(Seq::filter);
    assert(s.push(x).drop_last() =~= s);
}

proof fn lemma_ordered_below_push(ids: Seq<u64>, order: Seq<u64>, n: int, x: u64)
    ensures
        ordered_below(ids.push(x), order, n).len() == ordered_below(ids, order, n).len() + (if position(
            order,
            x,
        ) is Some && 0 <= position(order, x).unwrap() < n { 1int } else { 0int }),
    decreases n,
{
    if n > 0 {
        lemma_ordered_below_push(ids, order, n - 1, x);
        lemma_filter_push(ids, at_position(order, n - 1), x);
        assert(at_position(order, n - 1)(x) == (position(order, x) == Some(n - 1)));
        assert(ordered_below(ids.push(x), order, n).len() == ordered_below(ids.push(x), order, n - 1).len()
            + ids.push(x).filter(at_position(order, n - 1)).len());
        assert(ordered_below(ids, order, n).len() == ordered_below(ids, order, n - 1).len() + ids.filter(
            at_position(order, n - 1),
        ).len());
    }
}

proof fn lemma_ordered_below_empty(ids: Seq<u64>, order: Seq<u64>, n: int)
    requires
        ids.len() == 0,
    ensures
        ordered_below(ids, order, n).len() == 0,
    decreases n,
{
    reveal(Seq::filter);
    if n > 0 {
        lemma_ordered_below_empty(ids, order, n - 1);
    }
}

/// The stable priority sort is a rearrangement: it has as many ids as it sorts.
pub proof fn lemma_priority_ordered_len(ids: Seq<u64>, order: Seq<u64>)
    ensures
        priority_ordered(ids, order).len() == ids.len(),
    decreases ids.len(),
{
    if ids.len() == 0 {
        lemma_ordered_below_empty(ids, order, order.len() as int);
        reveal(Seq::filter);
    } else {
        let s = ids.drop_last();
        let x = ids.last();
        assert(s.push(x) =~= ids);
        lemma_priority_ordered_len(s, order);
        lemma_ordered_below_push(s, order, order.len() as int, x);
        lemma_filter_push(s, unpositioned(order), x);
        lemma_position_from(order, x, 0);
        assert(unpositioned(order)(x) == position(order, x).is_none());
        assert(priority_ordered(ids, order).len() == ordered_below(ids, order, order.len() as int).len()
            + ids.filter(unpositioned(order)).len());
        assert(priority_ordered(s, order).len() == ordered_below(s, order, order.len() as int).len() + s.filter(
            unpositioned(order),
        ).len());
    }
}

/// The priority of `id` in `order`.
fn find_position(order: &Vec<u64>, id: u64) -> (r: Option<usize>)
    ensures
        r.is_none() == position(order@, id).is_none(),
        r.is_some() ==> position(order@, id) == Some(r.unwrap() as int),
{
    let mut i: usize = 0;
    while i < order.len()
        invariant
            i <= order@.len(),
            position(order@, id) == position_from(order@, id, i as int),
        decreases order@.len() - i,
    {
        if order[i] == id {
            return Some(i);
        }
        i = i + 1;
    }
    None
}

/// Filtering a prefix one element longer.
pub proof fn lemma_filter_step<A>(s: Seq<A>, f: spec_fn(A) -> bool, j: int)
    requires
        0 <= j < s.len(),
    ensures
        s.take(j + 1).filter(f) == (if f(s[j]) { s.take(j).filter(f).push(s[j]) } else { s.take(j).filter(f) }),
{
    reveal(Seq::filter);
    assert(s.take(j + 1).drop_last() =~= s.take(j));
    assert(s.take(j + 1).last() == s[j]);
}

/// `ids` sorted stably by their priority in `order`.
pub fn priority_ordered_ids(ids: &Vec<u64>, order: &Vec<u64>) -> (r: Vec<u64>)
    ensures
        r@ == priority_ordered(ids@, order@),
{
    let mut positions: Vec<Option<usize>> = Vec::new();
    let mut j: usize = 0;
    while j < ids.len()
        invariant
            j <= ids@.len(),
            positions@.len() == j,
            forall|k: int| 0 <= k < j ==> (#[trigger] positions@[k]).is_none() == position(order@, ids@[k]).is_none(),
            forall|k: int| 0 <= k < j && (#[trigger] positions@[k]).is_some() ==> position(order@, ids@[k]) == Some(
                positions@[k].unwrap() as int,
            ),
        decreases ids@.len() - j,
    {
        positions.push(find_position(order, ids[j]));
        j = j + 1;
    }
    let mut r: Vec<u64> = Vec::new();
    let mut p: usize = 0;
    while p < order.len()
        invariant
            p <= order@.len(),
            positions@.len() == ids@.len(),
            forall|k: int| 0 <= k < ids@.len() ==> (#[trigger] positions@[k]).is_none() == position(order@, ids@[k]).is_none(),
            forall|k: int| 0 <= k < ids@.len() && (#[trigger] positions@[k]).is_some() ==> position(order@, ids@[k]) == Some(
                positions@[k].unwrap() as int,
            ),
            r@ == ordered_below(ids@, order@, p as int),
        decreases order@.len() - p,
    {
        let ghost base = r@;
        let mut j: usize = 0;
        while j < ids.len()
            invariant
                p < order@.len(),
                j <= ids@.len(),
                positions@.len() == ids@.len(),
                forall|k: int| 0 <= k < ids@.len() ==> (#[trigger] positions@[k]).is_none() == position(order@, ids@[k]).is_none(),
                forall|k: int| 0 <= k < ids@.len() && (#[trigger] positions@[k]).is_some() ==> position(order@, ids@[k]) == Some(
                    positions@[k].unwrap() as int,
                ),
                base == ordered_below(ids@, order@, p as int),
                r@ == base + ids@.take(j as int).filter(at_position(order@, p as int)),
            decreases ids@.len() - j,
        {
            proof {
                lemma_filter_step(ids@, at_position(order@, p as int), j as int);
            }
            if positions[j] == Some(p) {
                r.push(ids[j]);
            }
            proof {
                assert(r@ =~= base + ids@.take(j + 1).filter(at_position(order@, p as int)));
            }
            j = j + 1;
        }
        proof {
            assert(ids@.take(ids@.len() as int) =~= ids@);
        }
        p = p + 1;
    }
    let ghost base = r@;
    let mut j: usize = 0;
    while j < ids.len()
        invariant
            j <= ids@.len(),
            positions@.len() == ids@.len(),
            forall|k: int| 0 <= k < ids@.len() ==> (#[trigger] positions@[k]).is_none() == position(order@, ids@[k]).is_none(),
            base == ordered_below(ids@, order@, order@.len() as int),
            r@ == base + ids@.take(j as int).filter(unpositioned(order@)),
        decreases ids@.len() - j,
    {
        proof {
            lemma_filter_step(ids@, unpositioned(order@), j as int);
        }
        if positions[j].is_none() {
            r.push(ids[j]);
        }
        proof {
            assert(r@ =~= base + ids@.take(j + 1).filter(unpositioned(order@)));
        }
        j = j + 1;
    }
    proof {
        assert(ids@.take(ids@.len() as int) =~= ids@);
    }
    r
}

/// The members of a set that exist in the store, in membership order.
pub open spec fn existing_members(p: PreferencesView, set_id: u64) -> Seq<u64> {
    p.sets[set_id].services.filter(|id: u64| p.services.contains_key(id))
}

/// Fresh handles on the existing members of a set, sorted stably by their priority in the
/// set's order.
pub fn get_priority_ordered_services(prefs: &SCPreferences, set: &SCNetworkSet) -> (r: Vec<SCNetworkService>)
    requires
        prefs.wf(),
        prefs@.sets.contains_key(set.id),
        set@ == prefs@.sets[set.id],
    ensures
        r@.len() == priority_ordered(existing_members(prefs@, set.id), set@.service_order).len(),
        forall|i: int| 0 <= i < r@.len() ==> {
            let id = #[trigger] priority_ordered(existing_members(prefs@, set.id), set@.service_order)[i];
            &&& r@[i].id == id
            &&& prefs@.services.contains_key(id)
            &&& r@[i]@ == prefs@.services[id]
        },
{
    let ghost exists_in = |id: u64| prefs@.services.contains_key(id);
    let mut members: Vec<u64> = Vec::new();
    let mut j: usize = 0;
    while j < set.services.len()
        invariant
            j <= set.services@.len(),
            prefs.wf(),
            exists_in == (|id: u64| prefs@.services.contains_key(id)),
            members@ == set.services@.take(j as int).filter(exists_in),
        decreases set.services@.len() - j,
    {
        proof {
            lemma_filter_step(set.services@, exists_in, j as int);
        }
        if prefs.find_service(set.services[j]).is_some() {
            members.push(set.services[j]);
        }
        j = j + 1;
    }
    proof {
        assert(set.services@.take(set.services@.len() as int) =~= set.services@);
        assert(members@ == existing_members(prefs@, set.id));
    }
    let ordered = priority_ordered_ids(&members, &set.service_order);
    let ghost ids = ordered@;
    proof {
        assert forall|i: int| 0 <= i < ids.len() implies prefs@.services.contains_key(#[trigger] ids[i]) by {
            lemma_priority_ordered_members(members@, set@.service_order, i);
            let k = choose|k: int| 0 <= k < members@.len() && members@[k] == ids[i];
            set.services@.lemma_filter_pred(exists_in, k);
        }
    }
    let mut r: Vec<SCNetworkService> = Vec::new();
    let mut i: usize = 0;
    while i < ordered.len()
        invariant
            i <= ordered@.len(),
            prefs.wf(),
            ids == ordered@,
            r@.len() == i,
            forall|k: int| 0 <= k < ids.len() ==> prefs@.services.contains_key(#[trigger] ids[k]),
            forall|k: int| 0 <= k < i ==> (#[trigger] r@[k]).id == ids[k] && r@[k]@ == prefs@.services[ids[k]],
        decreases ordered@.len() - i,
    {
        match prefs.find_service(ordered[i]) {
            Some(s) => r.push(s),
            None => {
                assert(false);
            },
        }
        i = i + 1;
    }
    r
}

/// Every element of a filtered sequence comes from the sequence.
pub proof fn lemma_filter_subset(s: Seq<u64>, f: spec_fn(u64) -> bool, i: int)
    requires
        0 <= i < s.filter(f).len(),
    ensures
        s.contains(s.filter(f)[i]),
    decreases s.len(),
{
    reveal(Seq::filter);
    if s.len() > 0 {
        let prev = s.drop_last().filter(f);
        if i < prev.len() {
            assert(s.filter(f)[i] == prev[i]);
            lemma_filter_subset(s.drop_last(), f, i);
            let k = choose|k: int| 0 <= k < s.drop_last().len() && s.drop_last()[k] == prev[i];
            assert(s[k] == prev[i]);
        } else {
            assert(s.filter(f)[i] == s.last());
            assert(s[s.len() - 1] == s.last());
        }
    }
}

/// Every id of the stable priority sort comes from the sorted list.
pub proof fn lemma_priority_ordered_members(ids: Seq<u64>, order: Seq<u64>, i: int)
    requires
        0 <= i < priority_ordered(ids, order).len(),
    ensures
        ids.contains(priority_ordered(ids, order)[i]),
{
    lemma_ordered_below_members(ids, order, order.len() as int);
    let a = ordered_below(ids, order, order.len() as int);
    let b = ids.filter(unpositioned(order));
    if i < a.len() {
        assert(priority_ordered(ids, order)[i] == a[i]);
    } else {
        assert(priority_ordered(ids, order)[i] == b[i - a.len()]);
        lemma_filter_subset(ids, unpositioned(order), i - a.len());
    }
}

proof fn lemma_ordered_below_members(ids: Seq<u64>, order: Seq<u64>, n: int)
    ensures
        forall|i: int| 0 <= i < ordered_below(ids, order, n).len() ==> ids.contains(#[trigger] ordered_below(ids, order, n)[i]),
    decreases n,
{
    if n > 0 {
        lemma_ordered_below_members(ids, order, n - 1);
        let a = ordered_below(ids, order, n - 1);
        let b = ids.filter(at_position(order, n - 1));
        assert forall|i: int| 0 <= i < ordered_below(ids, order, n).len() implies ids.contains(
            #[trigger] ordered_below(ids, order, n)[i],
        ) by {
            if i < a.len() {
                assert(ordered_below(ids, order, n)[i] == a[i]);
            } else {
                assert(ordered_below(ids, order, n)[i] == b[i - a.len()]);
                lemma_filter_subset(ids, at_position(order, n - 1), i - a.len());
            }
        }
    }
}


proof fn lemma_ordered_below_sorted(ids: Seq<u64>, order: Seq<u64>, n: int)
    ensures
        forall|i: int| 0 <= i < ordered_below(ids, order, n).len() ==> {
            let p = position(order, #[trigger] ordered_below(ids, order, n)[i]);
            p is Some && 0 <= p.unwrap() < n
        },
        forall|i: int, j: int| 0 <= i < j < ordered_below(ids, order, n).len() ==> position(
            order,
            #[trigger] ordered_below(ids, order, n)[i],
        ).unwrap() <= position(order, #[trigger] ordered_below(ids, order, n)[j]).unwrap(),
    decreases n,
{
    if n > 0 {
        lemma_ordered_below_sorted(ids, order, n - 1);
        let a = ordered_below(ids, order, n - 1);
        let b = ids.filter(at_position(order, n - 1));
        let r = ordered_below(ids, order, n);
        assert(r == a + b);
        assert forall|i: int| 0 <= i < b.len() implies position(order, #[trigger] b[i]) == Some(n - 1) by {
            ids.lemma_filter_pred(at_position(order, n - 1), i);
        }
        assert forall|i: int| 0 <= i < r.len() implies {
            let p = position(order, #[trigger] r[i]);
            p is Some && 0 <= p.unwrap() < n
        } by {
            if i < a.len() {
                assert(r[i] == a[i]);
            } else {
                assert(r[i] == b[i - a.len()]);
            }
        }
        assert forall|i: int, j: int| 0 <= i < j < r.len() implies position(order, #[trigger] r[i]).unwrap()
            <= position(order, #[trigger] r[j]).unwrap() by {
            if j < a.len() {
                assert(r[i] == a[i] && r[j] == a[j]);
            } else if i < a.len() {
                assert(r[i] == a[i] && r[j] == b[j - a.len()]);
            } else {
                assert(r[i] == b[i - a.len()] && r[j] == b[j - a.len()]);
            }
        }
    }
}

/// The stable priority sort is sorted: ids the order names come first, by ascending position,
/// and ids it does not name come last.
pub proof fn lemma_priority_ordered_sorted(ids: Seq<u64>, order: Seq<u64>)
    ensures
        forall|i: int, j: int| 0 <= i < j < priority_ordered(ids, order).len() ==> !(position(
            order,
            #[trigger] priority_ordered(ids, order)[i],
        ).is_none() && position(order, #[trigger] priority_ordered(ids, order)[j]).is_some()),
        forall|i: int, j: int| 0 <= i < j < priority_ordered(ids, order).len() && position(
            order,
            #[trigger] priority_ordered(ids, order)[i],
        ).is_some() && position(order, #[trigger] priority_ordered(ids, order)[j]).is_some() ==> position(
            order,
            priority_ordered(ids, order)[i],
        ).unwrap() <= position(order, priority_ordered(ids, order)[j]).unwrap(),
{
    let n = order.len() as int;
    lemma_ordered_below_sorted(ids, order, n);
    let a = ordered_below(ids, order, n);
    let b = ids.filter(unpositioned(order));
    let r = priority_ordered(ids, order);
    assert forall|i: int| 0 <= i < b.len() implies position(order, #[trigger] b[i]).is_none() by {
        ids.lemma_filter_pred(unpositioned(order), i);
    }
    assert forall|i: int, j: int| 0 <= i < j < r.len() implies !(position(order, #[trigger] r[i]).is_none()
        && position(order, #[trigger] r[j]).is_some()) by {
        if i < a.len() {
            assert(r[i] == a[i]);
        } else {
            assert(r[i] == b[i - a.len()] && r[j] == b[j - a.len()]);
        }
    }
    assert forall|i: int, j: int| 0 <= i < j < r.len() && position(order, #[trigger] r[i]).is_some() && position(
        order,
        #[trigger] r[j],
    ).is_some() implies position(order, r[i]).unwrap() <= position(order, r[j]).unwrap() by {
        if j < a.len() {
            assert(r[i] == a[i] && r[j] == a[j]);
        } else if i < a.len() {
            assert(r[j] == b[j - a.len()]);
        } else {
            assert(r[i] == b[i - a.len()]);
        }
    }
}


/// Filtering keeps the relative order of the elements that pass.
proof fn lemma_filter_keeps_order(s: Seq<u64>, f: spec_fn(u64) -> bool, a: int, b: int) -> (ij: (int, int))
    requires
        0 <= a < b < s.len(),
        f(s[a]),
        f(s[b]),
    ensures
        0 <= ij.0 < ij.1 < s.filter(f).len(),
        s.filter(f)[ij.0] == s[a],
        s.filter(f)[ij.1] == s[b],
    decreases s.len(),
{
    reveal(Seq::filter);
    let d = s.drop_last();
    if b < s.len() - 1 {
        assert(d[a] == s[a] && d[b] == s[b]);
        let (i, j) = lemma_filter_keeps_order(d, f, a, b);
        assert(s.filter(f)[i] == d.filter(f)[i]);
        assert(s.filter(f)[j] == d.filter(f)[j]);
        (i, j)
    } else {
        assert(d[a] == s[a]);
        d.lemma_filter_contains(f, a);
        let i = choose|i: int| 0 <= i < d.filter(f).len() && d.filter(f)[i] == s[a];
        assert(s.last() == s[b]);
        assert(s.filter(f) == d.filter(f).push(s[b]));
        (i, d.filter(f).len() as int)
    }
}

proof fn lemma_ordered_below_prefix(ids: Seq<u64>, order: Seq<u64>, m: int, n: int)
    requires
        0 <= m <= n,
    ensures
        ordered_below(ids, order, m).len() <= ordered_below(ids, order, n).len(),
        forall|k: int| 0 <= k < ordered_below(ids, order, m).len() ==> #[trigger] ordered_below(ids, order, n)[k]
            == ordered_below(ids, order, m)[k],
    decreases n - m,
{
    if m < n {
        lemma_ordered_below_prefix(ids, order, m, n - 1);
        let a = ordered_below(ids, order, n - 1);
        assert(ordered_below(ids, order, n) == a + ids.filter(at_position(order, n - 1)));
        assert forall|k: int| 0 <= k < ordered_below(ids, order, m).len() implies #[trigger] ordered_below(
            ids,
            order,
            n,
        )[k] == ordered_below(ids, order, m)[k] by {
            assert(ordered_below(ids, order, n)[k] == a[k]);
        }
    }
}

/// The stable priority sort is stable: two ids of equal priority (both at the same position,
/// or both unnamed by the order) keep their relative input order.
pub proof fn lemma_priority_ordered_stable(ids: Seq<u64>, order: Seq<u64>, a: int, b: int) -> (ij: (int, int))
    requires
        0 <= a < b < ids.len(),
        position(order, ids[a]) == position(order, ids[b]),
    ensures
        0 <= ij.0 < ij.1 < priority_ordered(ids, order).len(),
        priority_ordered(ids, order)[ij.0] == ids[a],
        priority_ordered(ids, order)[ij.1] == ids[b],
{
    let n = order.len() as int;
    let r = priority_ordered(ids, order);
    let below = ordered_below(ids, order, n);
    lemma_position_from(order, ids[a], 0);
    match position(order, ids[a]) {
        None => {
            let f = unpositioned(order);
            let (i, j) = lemma_filter_keeps_order(ids, f, a, b);
            assert(r[below.len() + i] == ids.filter(f)[i]);
            assert(r[below.len() + j] == ids.filter(f)[j]);
            (below.len() + i, below.len() + j)
        },
        Some(p) => {
            let f = at_position(order, p);
            let (i, j) = lemma_filter_keeps_order(ids, f, a, b);
            lemma_ordered_below_prefix(ids, order, p + 1, n);
            let prev = ordered_below(ids, order, p);
            let upto = ordered_below(ids, order, p + 1);
            assert(upto == prev + ids.filter(f));
            assert(upto[prev.len() + i] == ids[a]);
            assert(upto[prev.len() + j] == ids[b]);
            assert(r[prev.len() + i] == below[prev.len() + i]);
            assert(r[prev.len() + j] == below[prev.len() + j]);
            (prev.len() + i, prev.len() + j)
        },
    }
}

} // verus!
