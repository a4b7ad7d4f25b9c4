//! The engine's entry point: prune, clone the current set, normalize it, provision it, and
//! make it current, all staged in the session for the caller to commit.
use vstd::prelude::*;
use crate::catalog::{default_protocol, protocol_index_from, with_defaults};
use crate::cloner::{cloned_set, shallow_clone_network_set, store_failure};
use crate::decisions::{ipv6_id, on_bridge, service_plan};
use crate::error::{EngineError, StoreOperation};
use crate::model::{InterfaceView, ProtocolView, SCNetworkSet, same_device};
use crate::ordering::{lemma_priority_ordered_len, priority_ordered};
use crate::provisioner::{add_missing_services, covered, eligible, eligible_among, provisioned};
use crate::pruner::{delete_old_if_exits, pruned_services, stale_service, stale_set};
use crate::reconciler::{
    lemma_modify_count_bounds, modify_existing_services, reconciled_list, reconciled_members,
};
use crate::store::{PreferencesView, SCPreferences};

verus! {

/// Completing a protocol list with defaults keeps the entries it had, in place.
proof fn lemma_with_defaults_prefix(ps: Seq<ProtocolView>, supported: Seq<Seq<char>>)
    ensures
        with_defaults(ps, supported).len() >= ps.len(),
        forall|j: int| 0 <= j < ps.len() ==> #[trigger] with_defaults(ps, supported)[j] == ps[j],
    decreases supported.len(),
{
    if supported.len() > 0 {
        lemma_with_defaults_prefix(ps, supported.drop_last());
        let prev = with_defaults(ps, supported.drop_last());
        assert forall|j: int| 0 <= j < ps.len() implies #[trigger] with_defaults(ps, supported)[j] == ps[j] by {
            assert(prev[j] == ps[j]);
        }
    }
}

/// A provisioned service for an eligible interface is one the reconciler leaves alone.
pub proof fn lemma_provisioned_is_stable(i: InterfaceView, p: crate::store::PreferencesView, set_id: u64)
    requires
        eligible(p, set_id, i),
    ensures
        service_plan(provisioned(i)).is_none(),
        !on_bridge(provisioned(i)),
{
    let ps = provisioned(i).protocols;
    lemma_with_defaults_prefix(seq![default_protocol(ipv6_id())], i.supported_protocol_types);
    assert(ps[0] == default_protocol(ipv6_id()));
    assert(protocol_index_from(ps, ipv6_id(), 0) == Some(0int));
}

/// The services of the current set `c`, as the reconciler takes them after pruning: the members
/// pruning leaves, sorted stably by the set's priority order.
pub open spec fn staged_input(p: PreferencesView, c: u64) -> Seq<u64> {
    priority_ordered(
        p.sets[c].services.filter(|id: u64| pruned_services(p).contains_key(id)),
        p.sets[c].service_order,
    )
}

/// The members the staged set keeps from the current set `c`: the reconciled list, whose
/// clones take ids after the staged set's own.
pub open spec fn kept_members(p: PreferencesView, c: u64) -> Seq<u64> {
    reconciled_list(pruned_services(p), staged_input(p, c), (p.next_id + 1) as u64)
}

/// Whether a run can succeed: a set is current, it is not stale, and the ids left cover the
/// staged set, a clone per member and a service per interface.
pub open spec fn run_can_succeed(p: PreferencesView) -> bool {
    match p.current_set {
        Some(c) => !stale_set(p, c) && p.next_id + p.sets[c].services.len() + p.interfaces.len() + 1 < u64::MAX,
        None => false,
    }
}

/// Stages a reconciled configuration: removes what earlier runs left behind, clones the
/// current set under the name `desired_set_name`, normalizes the clone's services, adds
/// services for the interfaces it does not cover, and makes the clone the current set. The
/// staged set is returned; committing and applying the session is left to the caller.
///
/// Fails with `NotFound` exactly when no set is current once the stale entities are gone;
/// succeeds whenever the store has ids enough.
pub fn reconcile(prefs: &mut SCPreferences, desired_set_name: String) -> (r: Result<SCNetworkSet, EngineError>)
    requires
        old(prefs).wf(),
    ensures
        final(prefs).wf(),
        (match old(prefs)@.current_set {
            None => true,
            Some(c) => stale_set(old(prefs)@, c),
        }) <==> r == Err::<SCNetworkSet, EngineError>(EngineError::NotFound),
        run_can_succeed(old(prefs)@) ==> r.is_ok(),
        r.is_err() ==> (r == Err::<SCNetworkSet, EngineError>(EngineError::NotFound) || (r matches Err(
            EngineError::StoreCallFailed { operation: op, .. },
        ) && (op == StoreOperation::CreateUniqueChild || op == StoreOperation::CreateService || op
            == StoreOperation::AddService))),
        r.is_ok() ==> ({
            let s = r.unwrap();
            let c = old(prefs)@.current_set.unwrap();
            let fin = final(prefs)@;
            let kept = kept_members(old(prefs)@, c);
            let added = s@.services.skip(kept.len() as int);
            let elig = old(prefs)@.interfaces.filter(|i: InterfaceView| eligible_among(fin, kept, i));
            &&& s.id == old(prefs)@.next_id
            &&& !old(prefs)@.sets.contains_key(s.id)
            &&& fin.current_set == Some(s.id)
            &&& fin.sets.contains_key(s.id)
            &&& s@ == fin.sets[s.id]
            &&& s@.attributes == cloned_set(old(prefs)@.sets[c], desired_set_name).attributes
            &&& s@.services == kept + added
            &&& s@.service_order == s@.services
            &&& added.len() == elig.len()
            &&& forall|k: int| 0 <= k < added.len() ==> fin.services.contains_key(#[trigger] added[k])
                && !old(prefs)@.services.contains_key(added[k]) && fin.services[added[k]] == provisioned(elig[k])
            &&& forall|k: int| 0 <= k < s@.services.len() ==> {
                &&& fin.services.contains_key(#[trigger] s@.services[k])
                &&& service_plan(fin.services[s@.services[k]]).is_none()
                &&& !on_bridge(fin.services[s@.services[k]])
            }
            &&& forall|id: u64| #[trigger] old(prefs)@.services.contains_key(id) ==> (fin.services.contains_key(id)
                <==> !stale_service(old(prefs)@, id))
            &&& forall|id: u64| #[trigger] old(prefs)@.services.contains_key(id) && !stale_service(old(prefs)@, id)
                ==> fin.services[id] == old(prefs)@.services[id]
            &&& forall|id: u64| #[trigger] old(prefs)@.sets.contains_key(id) ==> (fin.sets.contains_key(id)
                <==> !stale_set(old(prefs)@, id))
            &&& forall|id: u64| #[trigger] old(prefs)@.sets.contains_key(id) && !stale_set(old(prefs)@, id)
                ==> fin.sets[id] == old(prefs)@.sets[id]
        }),
{
    let ghost p0 = old(prefs)@;
    let ghost name = desired_set_name;
    proof {
        old(prefs).lemma_fresh();
    }
    match delete_old_if_exits(prefs) {
        Ok(()) => {},
        Err(e) => return Err(e),
    }
    let current_id = match prefs.current_set() {
        Some(c) => c,
        None => return Err(EngineError::NotFound),
    };
    let current = match prefs.find_set(current_id) {
        Some(s) => s,
        None => return Err(EngineError::NotFound),
    };
    let ghost c = current_id;
    proof {
        assert(p0.current_set == Some(c) && !stale_set(p0, c));
        assert(current@ == p0.sets[c]);
    }
    let mut staged = match shallow_clone_network_set(prefs, &current, desired_set_name) {
        Ok(s) => s,
        Err(e) => return Err(e),
    };
    let ghost p2 = prefs@;
    let ghost ord = crate::reconciler::ordered_members(p2, staged.id);
    proof {
        assert(p2.services == pruned_services(p0));
        assert(p2.sets[staged.id].services == p0.sets[c].services);
        assert((|id: u64| p2.services.contains_key(id)) =~= (|id: u64| pruned_services(p0).contains_key(id)));
        assert(ord == staged_input(p0, c));
        lemma_priority_ordered_len(
            p0.sets[c].services.filter(|id: u64| pruned_services(p0).contains_key(id)),
            p0.sets[c].service_order,
        );
        p0.sets[c].services.lemma_filter_len(|id: u64| pruned_services(p0).contains_key(id));
        lemma_modify_count_bounds(p2.services, ord);
    }
    match modify_existing_services(prefs, &mut staged) {
        Ok(()) => {},
        Err(e) => return Err(e),
    }
    let ghost p3 = prefs@;
    let ghost kept = staged@.services;
    proof {
        prefs.lemma_fresh();
        assert(kept == kept_members(p0, c));
        assert forall|k: int| 0 <= k < kept.len() implies #[trigger] kept[k] < p3.next_id by {
            assert(p3.services.contains_key(kept[k]));
        }
    }
    let added = match add_missing_services(prefs, &mut staged) {
        Ok(ids) => ids,
        Err(e) => return Err(e),
    };
    let ghost p4 = prefs@;
    if !prefs.set_current(staged.id) {
        return Err(store_failure(prefs, StoreOperation::SetValue));
    }
    proof {
        let fin = prefs@;
        assert(staged@.services.skip(kept.len() as int) =~= added@);
        assert forall|i: InterfaceView| eligible(p3, staged.id, i) == eligible_among(fin, kept, i) by {
            if covered(p3, kept, i) {
                let k = choose|k: int| 0 <= k < kept.len() && p3.services.contains_key(#[trigger] kept[k])
                    && p3.services[kept[k]].interface is Some && same_device(
                    p3.services[kept[k]].interface.unwrap(),
                    i,
                );
                assert(fin.services.contains_key(kept[k]));
            }
            if covered(fin, kept, i) {
                let k = choose|k: int| 0 <= k < kept.len() && fin.services.contains_key(#[trigger] kept[k])
                    && fin.services[kept[k]].interface is Some && same_device(
                    fin.services[kept[k]].interface.unwrap(),
                    i,
                );
                assert(p3.services.contains_key(kept[k]));
            }
        }
        assert((|i: InterfaceView| eligible(p3, staged.id, i)) =~= (|i: InterfaceView| eligible_among(fin, kept, i)));
        assert(reconciled_members(p2.services, p3.services, ord, kept));
        assert forall|k: int| 0 <= k < staged@.services.len() implies {
            &&& fin.services.contains_key(#[trigger] staged@.services[k])
            &&& service_plan(fin.services[staged@.services[k]]).is_none()
            &&& !on_bridge(fin.services[staged@.services[k]])
        } by {
            if k < kept.len() {
                assert(staged@.services[k] == kept[k]);
                assert(p3.services.contains_key(kept[k]));
            } else {
                let a = k - kept.len();
                assert(staged@.services[k] == added@[a]);
                let i = crate::provisioner::eligible_interfaces(p3, staged.id)[a];
                p3.interfaces.lemma_filter_pred(|i: InterfaceView| eligible(p3, staged.id, i), a);
                lemma_provisioned_is_stable(i, p3, staged.id);
            }
        }
        assert forall|id: u64| #[trigger] p0.services.contains_key(id) implies (fin.services.contains_key(id)
            <==> !stale_service(p0, id)) by {
            if fin.services.contains_key(id) && stale_service(p0, id) {
                assert(!p2.services.contains_key(id));
            }
            if !stale_service(p0, id) {
                assert(p2.services.contains_key(id));
            }
        }
        assert forall|id: u64| #[trigger] p0.sets.contains_key(id) implies (fin.sets.contains_key(id) <==> !stale_set(
            p0,
            id,
        )) by {
            assert(id != staged.id);
        }
        assert forall|id: u64| #[trigger] p0.sets.contains_key(id) && !stale_set(p0, id) implies fin.sets[id]
            == p0.sets[id] by {
            assert(id != staged.id);
        }
    }
    Ok(staged)
}

} // verus!
