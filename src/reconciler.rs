//! Normalization of the services a set holds: bridge services leave, services that need IPv6
//! or enabling are replaced by modified clones, and the membership and priority order are
//! rebuilt.
use vstd::prelude::*;
use crate::catalog::{
    add_service_to_set, default_protocol, lemma_protocol_index_from, protocol_index, protocol_index_from,
    remove_service_from_set, set_service_order,
};
use crate::cloner::{cloned_service, shallow_clone_network_service, store_failure};
use crate::decisions::{
    ProtocolModifications, ServiceModifications, apply_modifications, ipv6_id, modified, on_bridge,
    protocol_plan, service_plan,
};
use crate::error::{EngineError, StoreOperation};
use crate::model::{ProtocolView, SCNetworkSet, ServiceView};
use crate::ordering::{existing_members, get_priority_ordered_services, priority_ordered};
use crate::store::{PreferencesView, SCPreferences};

verus! {

/// Appending an entry of a type the list lacks makes that entry the first of its type.
proof fn lemma_protocol_index_push(ps: Seq<ProtocolView>, t: Seq<char>, x: ProtocolView)
    requires
        protocol_index(ps, t).is_none(),
        x.type_id == t,
    ensures
        protocol_index(ps.push(x), t) == Some(ps.len() as int),
{
    lemma_protocol_index_from(ps, t, 0);
    let qs = ps.push(x);
    assert forall|j: int| 0 <= j < ps.len() implies (#[trigger] qs[j]).type_id != t by {
        assert(qs[j] == ps[j]);
    }
    lemma_protocol_index_from(qs, t, 0);
    if protocol_index(qs, t).is_none() {
        assert(qs[ps.len() as int].type_id == t);
    } else {
        let k = protocol_index(qs, t).unwrap();
        if k < ps.len() {
            assert(qs[k] == ps[k]);
        }
        assert(qs[ps.len() as int] == x);
    }
}

/// Changing an entry but not its type leaves the first index of each type as it was.
proof fn lemma_protocol_index_update(ps: Seq<ProtocolView>, t: Seq<char>, k: int, x: ProtocolView)
    requires
        0 <= k < ps.len(),
        x.type_id == ps[k].type_id,
    ensures
        protocol_index(ps.update(k, x), t) == protocol_index(ps, t),
{
    let qs = ps.update(k, x);
    assert forall|j: int| 0 <= j <= ps.len() implies protocol_index_from(qs, t, j) == protocol_index_from(ps, t, j) by {
        lemma_index_from_same_types(ps, qs, t, j);
    }
}

proof fn lemma_index_from_same_types(ps: Seq<ProtocolView>, qs: Seq<ProtocolView>, t: Seq<char>, j: int)
    requires
        ps.len() == qs.len(),
        forall|i: int| 0 <= i < ps.len() ==> (#[trigger] ps[i]).type_id == qs[i].type_id,
    ensures
        protocol_index_from(qs, t, j) == protocol_index_from(ps, t, j),
    decreases ps.len() - j,
{
    if 0 <= j < ps.len() {
        lemma_index_from_same_types(ps, qs, t, j + 1);
    }
}

/// A service that the reconciler leaves in a set is left alone by a second run: carrying out
/// a `Modify` decision on a clone yields a service for which the decision is to leave it, and
/// which is not over a bridge.
pub proof fn lemma_reconciled_is_stable(s: ServiceView)
    requires
        service_plan(s) matches Some(ServiceModifications::Modify { .. }),
    ensures
        ({
            let (enable, protocol) = match service_plan(s) {
                Some(ServiceModifications::Modify { enable, protocol }) => (enable, protocol),
                _ => (false, None),
            };
            &&& service_plan(modified(cloned_service(s), enable, protocol)).is_none()
            &&& !on_bridge(modified(cloned_service(s), enable, protocol))
        }),
{
    let c = cloned_service(s);
    let plan = protocol_plan(s);
    let enable = !s.enabled;
    let m = modified(c, enable, plan);
    let s1 = if enable { ServiceView { enabled: true, ..c } } else { c };
    match plan {
        None => {},
        Some(ProtocolModifications::AddIPv6) => {
            lemma_protocol_index_push(s1.protocols, ipv6_id(), default_protocol(ipv6_id()));
        },
        Some(ProtocolModifications::ModifyIPv6 { enable: e }) => {
            let k = protocol_index(s1.protocols, ipv6_id()).unwrap();
            lemma_protocol_index_from(s1.protocols, ipv6_id(), 0);
            lemma_protocol_index_update(
                s1.protocols,
                ipv6_id(),
                k,
                ProtocolView { enabled: true, ..s1.protocols[k] },
            );
        },
    }
}

/// A service normalized by the reconciler is enabled and has an enabled IPv6 protocol entry:
/// carrying out a `Modify` decision on a clone yields exactly that.
pub proof fn lemma_normalized_has_ipv6(s: ServiceView)
    requires
        service_plan(s) matches Some(ServiceModifications::Modify { .. }),
    ensures
        ({
            let (enable, protocol) = match service_plan(s) {
                Some(ServiceModifications::Modify { enable, protocol }) => (enable, protocol),
                _ => (false, None),
            };
            let m = modified(cloned_service(s), enable, protocol);
            &&& m.enabled
            &&& protocol_index(m.protocols, ipv6_id()) is Some
            &&& m.protocols[protocol_index(m.protocols, ipv6_id()).unwrap()].enabled
        }),
{
    lemma_reconciled_is_stable(s);
    let enable = !s.enabled;
    let m = modified(cloned_service(s), enable, protocol_plan(s));
    lemma_protocol_index_from(m.protocols, ipv6_id(), 0);
}

/// A service the decision leaves alone is not over a bridge.
pub proof fn lemma_left_alone_not_bridge(s: ServiceView)
    requires
        service_plan(s).is_none(),
    ensures
        !on_bridge(s),
{
}


/// An element is in a prefix one longer exactly when it is in the shorter prefix or is the
/// element added.
pub proof fn lemma_take_contains(s: Seq<u64>, k: int, x: u64)
    requires
        0 <= k < s.len(),
    ensures
        s.take(k + 1).contains(x) == (s.take(k).contains(x) || s[k] == x),
{
    if s.take(k).contains(x) {
        let j = choose|j: int| 0 <= j < k && #[trigger] s.take(k)[j] == x;
        assert(s.take(k + 1)[j] == x);
    }
    if s[k] == x {
        assert(s.take(k + 1)[k] == x);
    }
    if s.take(k + 1).contains(x) && s[k] != x {
        let j = choose|j: int| 0 <= j < k + 1 && #[trigger] s.take(k + 1)[j] == x;
        assert(s.take(k)[j] == x);
    }
}

/// The decision for `id` is `Modify`, and `m` holds its outcome: the modified clone.
pub open spec fn replaced_by(before: Map<u64, ServiceView>, after: Map<u64, ServiceView>, id: u64, m: u64) -> bool {
    &&& after.contains_key(m)
    &&& !before.contains_key(m)
    &&& match service_plan(before[id]) {
        Some(ServiceModifications::Modify { enable, protocol }) => after[m] == modified(
            cloned_service(before[id]),
            enable,
            protocol,
        ),
        _ => false,
    }
}

/// Where `m`, a member after reconciliation, comes from: a service of `ord` left alone, or
/// the modified clone of one.
pub open spec fn member_origin(before: Map<u64, ServiceView>, after: Map<u64, ServiceView>, ord: Seq<u64>, m: u64) -> bool {
    ||| (before.contains_key(m) && ord.contains(m) && service_plan(before[m]).is_none() && after.contains_key(m)
        && after[m] == before[m])
    ||| exists|j: int| 0 <= j < ord.len() && replaced_by(before, after, #[trigger] ord[j], m)
}

/// What became of the service `id` of the ordered list: left alone, it is a member; deleted,
/// it is not; modified, its modified clone is.
pub open spec fn decided(before: Map<u64, ServiceView>, after: Map<u64, ServiceView>, id: u64, members: Seq<u64>) -> bool {
    match service_plan(before[id]) {
        None => members.contains(id),
        Some(ServiceModifications::Delete) => !members.contains(id),
        Some(ServiceModifications::Modify { .. }) => exists|m: u64| members.contains(m) && replaced_by(before, after, id, m),
    }
}

/// The outcome of reconciling the services `ord` (in priority order) into `members`.
pub open spec fn reconciled_members(
    before: Map<u64, ServiceView>,
    after: Map<u64, ServiceView>,
    ord: Seq<u64>,
    members: Seq<u64>,
) -> bool {
    &&& members.no_duplicates()
    &&& forall|id: u64| #[trigger] before.contains_key(id) ==> after.contains_key(id) && after[id] == before[id]
    &&& forall|k: int| 0 <= k < members.len() ==> member_origin(before, after, ord, #[trigger] members[k])
    &&& forall|j: int| 0 <= j < ord.len() ==> decided(before, after, #[trigger] ord[j], members)
    &&& forall|k: int| 0 <= k < members.len() ==> after.contains_key(#[trigger] members[k]) && service_plan(
        after[members[k]],
    ).is_none() && !on_bridge(after[members[k]])
}

/// The number of services of `ord` whose decision is `Modify`.
pub open spec fn modify_count(before: Map<u64, ServiceView>, ord: Seq<u64>) -> int
    decreases ord.len(),
{
    if ord.len() == 0 {
        0
    } else {
        modify_count(before, ord.drop_last()) + if service_plan(before[ord.last()]) matches Some(
            ServiceModifications::Modify { .. },
        ) {
            1int
        } else {
            0int
        }
    }
}

/// At most every service of a list is modified.
pub proof fn lemma_modify_count_bounds(before: Map<u64, ServiceView>, ord: Seq<u64>)
    ensures
        0 <= modify_count(before, ord) <= ord.len(),
    decreases ord.len(),
{
    if ord.len() > 0 {
        lemma_modify_count_bounds(before, ord.drop_last());
    }
}

/// The rebuilt member list for the services `ord`, taken in order: a service left alone stays
/// (once, where it is first met), a deleted one is dropped, and a modified one is replaced by
/// its clone, the clones taking consecutive ids from `base` on.
pub open spec fn reconciled_list(before: Map<u64, ServiceView>, ord: Seq<u64>, base: u64) -> Seq<u64>
    decreases ord.len(),
{
    if ord.len() == 0 {
        Seq::empty()
    } else {
        let prev = reconciled_list(before, ord.drop_last(), base);
        let id = ord.last();
        match service_plan(before[id]) {
            None => if prev.contains(id) {
                prev
            } else {
                prev.push(id)
            },
            Some(ServiceModifications::Delete) => prev,
            Some(ServiceModifications::Modify { .. }) => prev.push(
                (base + modify_count(before, ord.drop_last())) as u64,
            ),
        }
    }
}

/// Decides each service of `ordered`, in order, clones and modifies those to modify, and
/// returns the ids of the services to keep, in the same order.
fn reconcile_services(prefs: &mut SCPreferences, ordered: &Vec<crate::model::SCNetworkService>) -> (r: Result<
    Vec<u64>,
    EngineError,
>)
    requires
        old(prefs).wf(),
        forall|j: int| 0 <= j < ordered@.len() ==> old(prefs)@.services.contains_key((#[trigger] ordered@[j]).id)
            && ordered@[j]@ == old(prefs)@.services[ordered@[j].id],
    ensures
        final(prefs).wf(),
        final(prefs)@ == (PreferencesView {
            services: final(prefs)@.services,
            next_id: final(prefs)@.next_id,
            last_error: final(prefs)@.last_error,
            ..old(prefs)@
        }),
        forall|id: u64| #[trigger] old(prefs)@.services.contains_key(id) ==> final(prefs)@.services.contains_key(id)
            && final(prefs)@.services[id] == old(prefs)@.services[id],
        old(prefs)@.next_id + ordered@.len() < u64::MAX ==> r.is_ok(),
        r.is_err() ==> (r matches Err(EngineError::StoreCallFailed { operation: op, .. }) && op
            == StoreOperation::CreateUniqueChild),
        r.is_ok() ==> reconciled_members(
            old(prefs)@.services,
            final(prefs)@.services,
            ordered@.map_values(|s: crate::model::SCNetworkService| s.id),
            r.unwrap()@,
        ),
        r.is_ok() ==> r.unwrap()@ == reconciled_list(
            old(prefs)@.services,
            ordered@.map_values(|s: crate::model::SCNetworkService| s.id),
            old(prefs)@.next_id,
        ),
        r.is_ok() ==> final(prefs)@.next_id == old(prefs)@.next_id + modify_count(
            old(prefs)@.services,
            ordered@.map_values(|s: crate::model::SCNetworkService| s.id),
        ),
        forall|id: u64| #[trigger] final(prefs)@.services.contains_key(id) && !old(prefs)@.services.contains_key(id)
            ==> old(prefs)@.next_id <= id,
{
    let ghost before = old(prefs)@.services;
    let ghost ord = ordered@.map_values(|s: crate::model::SCNetworkService| s.id);
    let mut members: Vec<u64> = Vec::new();
    let ghost mut origin: Seq<int> = Seq::empty();
    let ghost mut witness: Seq<int> = Seq::empty();
    let mut i: usize = 0;
    while i < ordered.len()
        invariant
            prefs.wf(),
            i <= ordered@.len(),
            before == old(prefs)@.services,
            ord == ordered@.map_values(|s: crate::model::SCNetworkService| s.id),
            prefs@.next_id == old(prefs)@.next_id + modify_count(before, ord.take(i as int)),
            forall|id: u64| #[trigger] prefs@.services.contains_key(id) && !before.contains_key(id) ==> old(
                prefs,
            )@.next_id <= id,
            members@ == reconciled_list(before, ord.take(i as int), old(prefs)@.next_id),
            forall|j: int| 0 <= j < ordered@.len() ==> old(prefs)@.services.contains_key((#[trigger] ordered@[j]).id)
                && ordered@[j]@ == old(prefs)@.services[ordered@[j].id],
            prefs@ == (PreferencesView {
                services: prefs@.services,
                next_id: prefs@.next_id,
                last_error: prefs@.last_error,
                ..old(prefs)@
            }),
            forall|id: u64| #[trigger] before.contains_key(id) ==> prefs@.services.contains_key(id)
                && prefs@.services[id] == before[id],
            old(prefs)@.next_id <= prefs@.next_id <= old(prefs)@.next_id + i,
            members@.no_duplicates(),
            origin.len() == members@.len(),
            witness.len() == i,
            forall|k: int| 0 <= k < members@.len() ==> {
                &&& prefs@.services.contains_key(#[trigger] members@[k])
                &&& 0 <= origin[k] < i
                &&& if before.contains_key(members@[k]) {
                    members@[k] == ord[origin[k]] && service_plan(before[members@[k]]).is_none()
                } else {
                    replaced_by(before, prefs@.services, ord[origin[k]], members@[k])
                }
            },
            forall|j: int| 0 <= j < i ==> match service_plan(before[#[trigger] ord[j]]) {
                None => members@.contains(ord[j]),
                Some(ServiceModifications::Delete) => true,
                Some(ServiceModifications::Modify { .. }) => 0 <= witness[j] < members@.len()
                    && replaced_by(before, prefs@.services, ord[j], members@[witness[j]]),
            },
        decreases ordered@.len() - i,
    {
        let ghost p0 = prefs@.services;
        let ghost m0 = members@;
        let s = &ordered[i];
        assert(ord[i as int] == s.id);
        assert(ord.take(i + 1).drop_last() =~= ord.take(i as int));
        assert(ord.take(i + 1).last() == ord[i as int]);
        match ServiceModifications::gather(s) {
            None => {
                let mut present = false;
                let mut k: usize = 0;
                while k < members.len()
                    invariant
                        k <= members@.len(),
                        present == members@.take(k as int).contains(s.id),
                    decreases members@.len() - k,
                {
                    proof {
                        lemma_take_contains(members@, k as int, s.id);
                    }
                    if members[k] == s.id {
                        present = true;
                    }
                    k = k + 1;
                }
                proof {
                    assert(members@.take(members@.len() as int) =~= members@);
                }
                if !present {
                    members.push(s.id);
                    proof {
                        origin = origin.push(i as int);
                        assert(members@.last() == s.id);
                        assert forall|a: int, b: int| 0 <= a < b < members@.len() implies members@[a] != members@[b] by {
                            if b == members@.len() - 1 {
                                assert(m0[a] == members@[a]);
                            } else {
                                assert(m0[a] == members@[a] && m0[b] == members@[b]);
                            }
                        }
                    }
                }
                proof {
                    witness = witness.push(0);
                    assert(members@.contains(s.id));
                }
            },
            Some(ServiceModifications::Delete) => {
                proof {
                    witness = witness.push(0);
                }
            },
            Some(ServiceModifications::Modify { enable, protocol }) => {
                let ghost sv = s@;
                let mut clone = match shallow_clone_network_service(prefs, s) {
                    Ok(c) => c,
                    Err(e) => return Err(e),
                };
                proof {
                    crate::catalog::lemma_protocol_index(sv.protocols, ipv6_id());
                }
                match apply_modifications(prefs, &mut clone, enable, protocol) {
                    Ok(()) => {},
                    Err(e) => {
                        assert(false);
                        return Err(e);
                    },
                }
                let ghost c = clone.id;
                members.push(clone.id);
                proof {
                    origin = origin.push(i as int);
                    witness = witness.push(members@.len() - 1);
                    assert(!p0.contains_key(c));
                    assert(members@.last() == c);
                    assert forall|a: int, b: int| 0 <= a < b < members@.len() implies members@[a] != members@[b] by {
                        if b == members@.len() - 1 {
                            assert(m0[a] == members@[a]);
                            assert(p0.contains_key(m0[a]));
                        } else {
                            assert(m0[a] == members@[a] && m0[b] == members@[b]);
                        }
                    }
                }
            },
        }
        proof {
            assert forall|k: int| 0 <= k < members@.len() implies {
                &&& prefs@.services.contains_key(#[trigger] members@[k])
                &&& 0 <= origin[k] < i + 1
                &&& if before.contains_key(members@[k]) {
                    members@[k] == ord[origin[k]] && service_plan(before[members@[k]]).is_none()
                } else {
                    replaced_by(before, prefs@.services, ord[origin[k]], members@[k])
                }
            } by {
                if k < m0.len() {
                    assert(members@[k] == m0[k]);
                }
            }
            assert forall|j: int| 0 <= j < i + 1 implies match service_plan(before[#[trigger] ord[j]]) {
                None => members@.contains(ord[j]),
                Some(ServiceModifications::Delete) => true,
                Some(ServiceModifications::Modify { .. }) => 0 <= witness[j] < members@.len()
                    && replaced_by(before, prefs@.services, ord[j], members@[witness[j]]),
            } by {
                if j < i {
                    match service_plan(before[ord[j]]) {
                        None => {
                            let k = choose|k: int| 0 <= k < m0.len() && m0[k] == ord[j];
                            assert(members@[k] == ord[j]);
                        },
                        Some(ServiceModifications::Delete) => {},
                        Some(ServiceModifications::Modify { .. }) => {
                            assert(members@[witness[j]] == m0[witness[j]]);
                        },
                    }
                }
            }
        }
        i = i + 1;
    }
    proof {
        assert(ord.take(ord.len() as int) =~= ord);
        let after = prefs@.services;
        let ms = members@;
        assert forall|k: int| 0 <= k < ms.len() implies member_origin(before, after, ord, #[trigger] ms[k]) by {
            if before.contains_key(ms[k]) {
                assert(ord[origin[k]] == ms[k]);
            } else {
                assert(replaced_by(before, after, ord[origin[k]], ms[k]));
            }
        }
        assert forall|j: int| 0 <= j < ord.len() implies decided(before, after, #[trigger] ord[j], ms) by {
            match service_plan(before[ord[j]]) {
                None => {},
                Some(ServiceModifications::Delete) => {
                    if ms.contains(ord[j]) {
                        let k = choose|k: int| 0 <= k < ms.len() && ms[k] == ord[j];
                        assert(before.contains_key(ms[k]));
                    }
                },
                Some(ServiceModifications::Modify { .. }) => {
                    assert(ms.contains(ms[witness[j]]));
                },
            }
        }
        assert forall|k: int| 0 <= k < ms.len() implies after.contains_key(#[trigger] ms[k]) && service_plan(
            after[ms[k]],
        ).is_none() && !on_bridge(after[ms[k]]) by {
            if before.contains_key(ms[k]) {
                lemma_left_alone_not_bridge(before[ms[k]]);
            } else {
                lemma_reconciled_is_stable(before[ord[origin[k]]]);
            }
        }
    }
    Ok(members)
}


/// Filtering out an element that fails the predicate shortens the sequence.
proof fn lemma_filter_shorter(s: Seq<u64>, f: spec_fn(u64) -> bool, i: int)
    requires
        0 <= i < s.len(),
        !f(s[i]),
    ensures
        s.filter(f).len() < s.len(),
    decreases s.len(),
{
    reveal(Seq::filter);
    s.drop_last().lemma_filter_len(f);
    if i < s.len() - 1 {
        assert(s.drop_last()[i] == s[i]);
        lemma_filter_shorter(s.drop_last(), f, i);
    }
}

/// Replaces the members of a set by `members` and its priority order by the same list: every
/// current member is removed, then each of `members` is added in order, then the order is
/// written.
fn rebuild_membership(prefs: &mut SCPreferences, set_id: u64, members: &Vec<u64>) -> (r: Result<(), EngineError>)
    requires
        old(prefs).wf(),
        old(prefs)@.sets.contains_key(set_id),
        members@.no_duplicates(),
        forall|k: int| 0 <= k < members@.len() ==> old(prefs)@.services.contains_key(#[trigger] members@[k]),
    ensures
        final(prefs).wf(),
        r.is_ok(),
        final(prefs)@ == (PreferencesView {
            sets: old(prefs)@.sets.insert(
                set_id,
                crate::model::SetView {
                    services: members@,
                    service_order: members@,
                    ..old(prefs)@.sets[set_id]
                },
            ),
            last_error: final(prefs)@.last_error,
            ..old(prefs)@
        }),
{
    let ghost attrs = old(prefs)@.sets[set_id].attributes;
    let ghost order0 = old(prefs)@.sets[set_id].service_order;
    let mut current = match prefs.find_set(set_id) {
        Some(s) => s,
        None => return Err(EngineError::NotFound),
    };
    proof {
        assert(old(prefs)@.sets.insert(set_id, current@) =~= old(prefs)@.sets);
    }
    while current.services.len() > 0
        invariant
            prefs.wf(),
            current.id == set_id,
            prefs@.sets.contains_key(set_id),
            current@ == prefs@.sets[set_id],
            current@.attributes == attrs,
            current@.service_order == order0,
            prefs@ == (PreferencesView {
                sets: old(prefs)@.sets.insert(set_id, current@),
                last_error: prefs@.last_error,
                ..old(prefs)@
            }),
        decreases current.services@.len(),
    {
        let first = current.services[0];
        let ghost before = current.services@;
        proof {
            assert(before.contains(first));
        }
        if !remove_service_from_set(prefs, set_id, first) {
            return Err(store_failure(prefs, StoreOperation::RemoveService));
        }
        proof {
            lemma_filter_shorter(before, |x: u64| x != first, 0);
        }
        current = match prefs.find_set(set_id) {
            Some(s) => s,
            None => return Err(EngineError::NotFound),
        };
        proof {
            assert(prefs@.sets =~= old(prefs)@.sets.insert(set_id, current@));
        }
    }
    proof {
        assert(current@.services =~= members@.take(0));
    }
    let mut k: usize = 0;
    while k < members.len()
        invariant
            prefs.wf(),
            k <= members@.len(),
            members@.no_duplicates(),
            forall|j: int| 0 <= j < members@.len() ==> old(prefs)@.services.contains_key(#[trigger] members@[j]),
            prefs@.sets.contains_key(set_id),
            prefs@ == (PreferencesView {
                sets: old(prefs)@.sets.insert(
                    set_id,
                    crate::model::SetView { services: members@.take(k as int), service_order: order0, attributes: attrs },
                ),
                last_error: prefs@.last_error,
                ..old(prefs)@
            }),
        decreases members@.len() - k,
    {
        proof {
            if members@.take(k as int).contains(members@[k as int]) {
                let j = choose|j: int| 0 <= j < k && #[trigger] members@.take(k as int)[j] == members@[k as int];
                assert(members@[j] == members@[k as int]);
            }
        }
        if !add_service_to_set(prefs, set_id, members[k]) {
            return Err(store_failure(prefs, StoreOperation::AddService));
        }
        proof {
            assert(members@.take(k + 1) =~= members@.take(k as int).push(members@[k as int]));
            assert(prefs@.sets =~= old(prefs)@.sets.insert(
                set_id,
                crate::model::SetView { services: members@.take(k + 1), service_order: order0, attributes: attrs },
            ));
        }
        k = k + 1;
    }
    proof {
        assert(members@.take(members@.len() as int) =~= members@);
    }
    if !set_service_order(prefs, set_id, members) {
        return Err(store_failure(prefs, StoreOperation::SetServiceOrder));
    }
    proof {
        assert(prefs@.sets =~= old(prefs)@.sets.insert(
            set_id,
            crate::model::SetView { services: members@, service_order: members@, ..old(prefs)@.sets[set_id] },
        ));
    }
    Ok(())
}

/// The services of a set in priority order, as the reconciler takes them.
pub open spec fn ordered_members(p: PreferencesView, set_id: u64) -> Seq<u64> {
    priority_ordered(existing_members(p, set_id), p.sets[set_id].service_order)
}

/// Normalizes the services of `set`, in priority order: services over a bridge leave the set;
/// services over an IPv6-capable interface that are disabled or lack an enabled IPv6 protocol
/// are replaced by modified clones; the others stay as they are. The set's members and its
/// priority order are then both rewritten to the resulting list. No service that existed
/// before is changed.
///
/// The only failure is the store running out of ids for the clones.
pub fn modify_existing_services(prefs: &mut SCPreferences, set: &mut SCNetworkSet) -> (r: Result<(), EngineError>)
    requires
        old(prefs).wf(),
        old(prefs)@.sets.contains_key(old(set).id),
        old(set)@ == old(prefs)@.sets[old(set).id],
    ensures
        final(prefs).wf(),
        final(set).id == old(set).id,
        old(prefs)@.next_id + ordered_members(old(prefs)@, old(set).id).len() < u64::MAX ==> r.is_ok(),
        r.is_err() ==> (r matches Err(EngineError::StoreCallFailed { operation: op, .. }) && op
            == StoreOperation::CreateUniqueChild),
        r.is_ok() ==> ({
            let members = final(prefs)@.sets[old(set).id].services;
            &&& final(prefs)@.sets.contains_key(old(set).id)
            &&& final(set)@ == final(prefs)@.sets[old(set).id]
            &&& final(set)@.service_order == members
            &&& final(set)@.attributes == old(set)@.attributes
            &&& final(prefs)@ == (PreferencesView {
                services: final(prefs)@.services,
                sets: old(prefs)@.sets.insert(old(set).id, final(set)@),
                next_id: final(prefs)@.next_id,
                last_error: final(prefs)@.last_error,
                ..old(prefs)@
            })
            &&& reconciled_members(
                old(prefs)@.services,
                final(prefs)@.services,
                ordered_members(old(prefs)@, old(set).id),
                members,
            )
            &&& members == reconciled_list(
                old(prefs)@.services,
                ordered_members(old(prefs)@, old(set).id),
                old(prefs)@.next_id,
            )
            &&& final(prefs)@.next_id == old(prefs)@.next_id + modify_count(
                old(prefs)@.services,
                ordered_members(old(prefs)@, old(set).id),
            )
        }),
        forall|id: u64| #[trigger] final(prefs)@.services.contains_key(id) && !old(prefs)@.services.contains_key(id)
            ==> old(prefs)@.next_id <= id,
        forall|id: u64| #[trigger] old(prefs)@.services.contains_key(id) ==> final(prefs)@.services.contains_key(id)
            && final(prefs)@.services[id] == old(prefs)@.services[id],
{
    let set_id = set.id;
    let ordered = get_priority_ordered_services(prefs, set);
    let ghost ord = ordered_members(old(prefs)@, set_id);
    proof {
        assert forall|j: int| 0 <= j < ordered@.len() implies old(prefs)@.services.contains_key(
            (#[trigger] ordered@[j]).id,
        ) && ordered@[j]@ == old(prefs)@.services[ordered@[j].id] by {
            assert(ordered@[j].id == ord[j]);
        }
        assert(ordered@.map_values(|s: crate::model::SCNetworkService| s.id) =~= ord);
    }
    let members = match reconcile_services(prefs, &ordered) {
        Ok(m) => m,
        Err(e) => return Err(e),
    };
    let ghost mid = prefs@;
    proof {
        assert forall|k: int| 0 <= k < members@.len() implies mid.services.contains_key(#[trigger] members@[k]) by {}
    }
    match rebuild_membership(prefs, set_id, &members) {
        Ok(()) => {},
        Err(e) => return Err(e),
    }
    *set = match prefs.find_set(set_id) {
        Some(s) => s,
        None => return Err(EngineError::NotFound),
    };
    proof {
        assert(prefs@.sets =~= old(prefs)@.sets.insert(set_id, set@));
    }
    Ok(())
}


/// A prefix of `s` filtered, where no element but the one at `q` passes.
proof fn lemma_filter_take_single(s: Seq<u64>, f: spec_fn(u64) -> bool, q: int, j: int)
    requires
        0 <= j <= s.len(),
        0 <= q < s.len(),
        f(s[q]),
        forall|i: int| 0 <= i < s.len() && i != q ==> !f(#[trigger] s[i]),
    ensures
        s.take(j).filter(f) == (if j > q { seq![s[q]] } else { Seq::<u64>::empty() }),
    decreases j,
{
    if j == 0 {
        reveal(Seq::filter);
        assert(s.take(0) =~= Seq::<u64>::empty());
    } else {
        lemma_filter_take_single(s, f, q, j - 1);
        crate::ordering::lemma_filter_step(s, f, j - 1);
        if j - 1 == q {
            assert(Seq::<u64>::empty().push(s[q]) =~= seq![s[q]]);
        }
    }
}

/// A prefix of `s` filtered, where every element passes or none does.
proof fn lemma_filter_take_all(s: Seq<u64>, f: spec_fn(u64) -> bool, all: bool, j: int)
    requires
        0 <= j <= s.len(),
        forall|i: int| 0 <= i < s.len() ==> f(#[trigger] s[i]) == all,
    ensures
        s.take(j).filter(f) == (if all { s.take(j) } else { Seq::<u64>::empty() }),
    decreases j,
{
    if j == 0 {
        reveal(Seq::filter);
        assert(s.take(0) =~= Seq::<u64>::empty());
    } else {
        lemma_filter_take_all(s, f, all, j - 1);
        crate::ordering::lemma_filter_step(s, f, j - 1);
        assert(s.take(j) =~= s.take(j - 1).push(s[j - 1]));
    }
}

proof fn lemma_position_of_distinct(m: Seq<u64>, k: int, j: int)
    requires
        m.no_duplicates(),
        0 <= j <= k < m.len(),
    ensures
        crate::ordering::position_from(m, m[k], j) == Some(k),
    decreases k - j,
{
    if j < k {
        lemma_position_of_distinct(m, k, j + 1);
    }
}

proof fn lemma_ordered_below_self(m: Seq<u64>, n: int)
    requires
        m.no_duplicates(),
        0 <= n <= m.len(),
    ensures
        crate::ordering::ordered_below(m, m, n) == m.take(n),
    decreases n,
{
    if n == 0 {
        assert(m.take(0) =~= Seq::<u64>::empty());
    } else {
        lemma_ordered_below_self(m, n - 1);
        let f = crate::ordering::at_position(m, n - 1);
        assert forall|i: int| 0 <= i < m.len() && i != n - 1 implies !f(#[trigger] m[i]) by {
            lemma_position_of_distinct(m, i, 0);
        }
        lemma_position_of_distinct(m, n - 1, 0);
        lemma_filter_take_single(m, f, n - 1, m.len() as int);
        assert(m.take(m.len() as int) =~= m);
        assert(m.take(n) =~= m.take(n - 1) + seq![m[n - 1]]);
    }
}

/// A list without repeats, sorted by its own order, is itself.
pub proof fn lemma_priority_ordered_self(m: Seq<u64>)
    requires
        m.no_duplicates(),
    ensures
        priority_ordered(m, m) == m,
{
    lemma_ordered_below_self(m, m.len() as int);
    let f = crate::ordering::unpositioned(m);
    assert forall|i: int| 0 <= i < m.len() implies f(#[trigger] m[i]) == false by {
        lemma_position_of_distinct(m, i, 0);
    }
    lemma_filter_take_all(m, f, false, m.len() as int);
    assert(m.take(m.len() as int) =~= m);
    assert(m + Seq::<u64>::empty() =~= m);
}

proof fn lemma_reconciled_list_all_left(before: Map<u64, ServiceView>, m: Seq<u64>, base: u64)
    requires
        m.no_duplicates(),
        forall|k: int| 0 <= k < m.len() ==> service_plan(before[#[trigger] m[k]]).is_none(),
    ensures
        reconciled_list(before, m, base) == m,
        modify_count(before, m) == 0,
    decreases m.len(),
{
    if m.len() > 0 {
        let d = m.drop_last();
        assert forall|a: int, b: int| 0 <= a < b < d.len() implies d[a] != d[b] by {
            assert(d[a] == m[a] && d[b] == m[b]);
        }
        assert forall|k: int| 0 <= k < d.len() implies service_plan(before[#[trigger] d[k]]).is_none() by {
            assert(d[k] == m[k]);
        }
        lemma_reconciled_list_all_left(before, d, base);
        assert(service_plan(before[m[m.len() - 1]]).is_none());
        if d.contains(m.last()) {
            let k = choose|k: int| 0 <= k < d.len() && d[k] == m.last();
            assert(m[k] == m[m.len() - 1]);
        }
        assert(d.push(m.last()) =~= m);
    }
}

/// A second run over a set the reconciler produced changes nothing: when the members, without
/// repeats, are also the priority order and each is a service the decision leaves alone, the
/// reconciled member list is the member list itself, with no clone made.
pub proof fn lemma_second_run_keeps_members(p: PreferencesView, set_id: u64, base: u64)
    requires
        p.sets.contains_key(set_id),
        p.sets[set_id].service_order == p.sets[set_id].services,
        p.sets[set_id].services.no_duplicates(),
        forall|k: int| 0 <= k < p.sets[set_id].services.len() ==> p.services.contains_key(
            #[trigger] p.sets[set_id].services[k],
        ) && service_plan(p.services[p.sets[set_id].services[k]]).is_none(),
    ensures
        ordered_members(p, set_id) == p.sets[set_id].services,
        reconciled_list(p.services, ordered_members(p, set_id), base) == p.sets[set_id].services,
        modify_count(p.services, ordered_members(p, set_id)) == 0,
{
    let m = p.sets[set_id].services;
    let f = |id: u64| p.services.contains_key(id);
    lemma_filter_take_all(m, f, true, m.len() as int);
    assert(m.take(m.len() as int) =~= m);
    assert(existing_members(p, set_id) == m);
    lemma_priority_ordered_self(m);
    lemma_reconciled_list_all_left(p.services, m, base);
}

} // verus!
