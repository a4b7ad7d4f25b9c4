//! Provisioning: new services for the interfaces a set does not cover yet.
use vstd::prelude::*;
use crate::catalog::{
    add_network_protocol, add_service_to_set, create_bound_service, default_protocol, establish_default_configuration,
    user_defined_name_key, with_defaults,
};
use crate::cloner::{lemma_keys_distinct, marked_as_owned, owned_key, store_failure};
use crate::decisions::ipv6_id;
use crate::dictionary::Value;
use crate::error::{EngineError, StoreOperation};
use crate::kinds::{SCNetworkInterfaceType, SCNetworkProtocolType};
use crate::model::{
    InterfaceView, SCNetworkInterface, SCNetworkSet, ServiceView, SetView, duplicate_ids, kind_of, same_device,
    supports_ipv6,
};
use crate::ordering::lemma_filter_step;
use crate::store::{PreferencesView, SCPreferences, interface_views};

verus! {

/// Whether some member of `members` is a service over the device `i`.
pub open spec fn covered(p: PreferencesView, members: Seq<u64>, i: InterfaceView) -> bool {
    exists|k: int|
        0 <= k < members.len() && p.services.contains_key(#[trigger] members[k])
            && p.services[members[k]].interface is Some && same_device(p.services[members[k]].interface.unwrap(), i)
}

/// Whether the provisioner gives `i` a new service beside the members `members`: no member
/// covers it, its kind is recognized and is not a bridge, and it supports IPv6.
pub open spec fn eligible_among(p: PreferencesView, members: Seq<u64>, i: InterfaceView) -> bool {
    &&& !covered(p, members, i)
    &&& kind_of(i).is_some()
    &&& kind_of(i) != Some(SCNetworkInterfaceType::Bridge)
    &&& supports_ipv6(i)
}

/// Whether the provisioner gives `i` a new service in the set `set_id`.
pub open spec fn eligible(p: PreferencesView, set_id: u64, i: InterfaceView) -> bool {
    eligible_among(p, p.sets[set_id].services, i)
}

/// The interfaces the provisioner gives a new service, in discovery order.
pub open spec fn eligible_interfaces(p: PreferencesView, set_id: u64) -> Seq<InterfaceView> {
    p.interfaces.filter(|i: InterfaceView| eligible(p, set_id, i))
}

/// A provisioned service: enabled, over its interface, with an IPv6 protocol followed by the
/// defaults for the interface, without a name and with the ownership tag.
pub open spec fn provisioned(i: InterfaceView) -> ServiceView {
    ServiceView {
        enabled: true,
        interface: Some(i),
        protocols: with_defaults(seq![default_protocol(ipv6_id())], i.supported_protocol_types),
        attributes: map![owned_key() => Value::Bool(true)],
    }
}

/// Whether a member of `set` is a service over the device `interface`.
pub fn contains_network_interface(prefs: &SCPreferences, set: &SCNetworkSet, interface: &SCNetworkInterface) -> (r:
    bool)
    requires
        prefs.wf(),
    ensures
        r == covered(prefs@, set@.services, interface@),
{
    let mut k: usize = 0;
    while k < set.services.len()
        invariant
            prefs.wf(),
            k <= set.services@.len(),
            forall|j: int| 0 <= j < k ==> !(prefs@.services.contains_key(#[trigger] set@.services[j])
                && prefs@.services[set@.services[j]].interface is Some && same_device(
                prefs@.services[set@.services[j]].interface.unwrap(),
                interface@,
            )),
        decreases set.services@.len() - k,
    {
        if let Some(service) = prefs.find_service(set.services[k]) {
            if let Some(i) = &service.interface {
                if i.same_device(interface) {
                    return true;
                }
            }
        }
        k = k + 1;
    }
    false
}

/// Whether the provisioner gives `interface` a new service in `set`.
pub fn is_eligible(prefs: &SCPreferences, set: &SCNetworkSet, interface: &SCNetworkInterface) -> (r: bool)
    requires
        prefs.wf(),
        prefs@.sets.contains_key(set.id),
        set@ == prefs@.sets[set.id],
    ensures
        r == eligible(prefs@, set.id, interface@),
{
    if contains_network_interface(prefs, set, interface) {
        return false;
    }
    match interface.interface_type() {
        None => false,
        Some(SCNetworkInterfaceType::Bridge) => false,
        Some(_) => interface.supports_ipv6(),
    }
}

/// Drops the bridge interfaces from a list of interfaces.
pub fn remove_virtual_network_interfaces_bridge(interfaces: &mut Vec<SCNetworkInterface>)
    ensures
        interface_views(final(interfaces)@) == interface_views(old(interfaces)@).filter(
            |i: InterfaceView| kind_of(i) != Some(SCNetworkInterfaceType::Bridge),
        ),
{
    let ghost f = |i: InterfaceView| kind_of(i) != Some(SCNetworkInterfaceType::Bridge);
    let ghost all = interface_views(old(interfaces)@);
    let mut source: Vec<SCNetworkInterface> = Vec::new();
    std::mem::swap(&mut source, interfaces);
    let mut j: usize = 0;
    while j < source.len()
        invariant
            j <= source@.len(),
            all == interface_views(source@),
            f == (|i: InterfaceView| kind_of(i) != Some(SCNetworkInterfaceType::Bridge)),
            interface_views(interfaces@) == all.take(j as int).filter(f),
        decreases source@.len() - j,
    {
        proof {
            lemma_filter_step(all, f, j as int);
            assert(all[j as int] == source@[j as int]@);
        }
        if source[j].interface_type() != Some(SCNetworkInterfaceType::Bridge) {
            let ghost before = interfaces@;
            interfaces.push(source[j].duplicate());
            proof {
                assert(interface_views(interfaces@) =~= interface_views(before).push(all[j as int]));
            }
        }
        j = j + 1;
    }
    proof {
        assert(all.take(all.len() as int) =~= all);
    }
}


/// What a freshly created service of this engine holds: enabled, bound to its interface,
/// without protocols, without a name, and with the ownership tag.
pub open spec fn created_owned(interface: InterfaceView) -> ServiceView {
    ServiceView {
        enabled: true,
        interface: Some(interface),
        protocols: Seq::empty(),
        attributes: map![owned_key() => Value::Bool(true)],
    }
}

/// Creates a service bound to `interface` at a fresh path, removes the name the store gave
/// it, writes the ownership tag, and returns a fresh handle on it. Fails with a failed
/// `CreateService` once the store's ids are exhausted.
pub fn create_service(prefs: &mut SCPreferences, interface: &SCNetworkInterface) -> (r: Result<
    crate::model::SCNetworkService,
    EngineError,
>)
    requires
        old(prefs).wf(),
    ensures
        final(prefs).wf(),
        r.is_ok() == (old(prefs)@.next_id < u64::MAX),
        r.is_ok() ==> ({
            let s = r.unwrap();
            &&& s.id == old(prefs)@.next_id
            &&& !old(prefs)@.services.contains_key(s.id)
            &&& s@ == created_owned(interface@)
            &&& final(prefs)@ == (PreferencesView {
                services: old(prefs)@.services.insert(s.id, s@),
                next_id: (old(prefs)@.next_id + 1) as u64,
                ..old(prefs)@
            })
        }),
        r.is_err() ==> (r matches Err(EngineError::StoreCallFailed { operation: op, last_error: e }) && op
            == StoreOperation::CreateService && e@ == crate::error::STATUS_FAILED),
        r.is_err() ==> final(prefs)@ == (PreferencesView { last_error: crate::error::STATUS_FAILED, ..old(prefs)@ }),
{
    let id = match create_bound_service(prefs, interface) {
        Some(id) => id,
        None => return Err(store_failure(prefs, StoreOperation::CreateService)),
    };
    let mut service = match prefs.find_service(id) {
        Some(s) => s,
        None => return Err(EngineError::InvariantViolated),
    };
    service.attributes.remove(user_defined_name_key());
    marked_as_owned(&mut service.attributes);
    if !prefs.set_service_value(&service) {
        return Err(store_failure(prefs, StoreOperation::SetValue));
    }
    proof {
        lemma_keys_distinct();
        assert(service@.attributes =~= map![owned_key() => Value::Bool(true)]);
        assert(service@.protocols =~= Seq::<crate::model::ProtocolView>::empty());
        assert(prefs@.services =~= old(prefs)@.services.insert(id, service@));
    }
    match prefs.find_service(id) {
        Some(s) => Ok(s),
        None => Err(EngineError::InvariantViolated),
    }
}

/// Creates a new service for each interface that `set` does not cover, whose kind is
/// recognized and not a bridge, and which supports IPv6: the service is bound to the interface,
/// carries no name and the ownership tag, has an IPv6 protocol and then the default protocols of
/// the interface. The new services are appended to the set's members and to its priority
/// order, in discovery order, and their ids are returned. No service that existed before is
/// changed.
///
/// Fails only when the store runs out of ids.
pub fn add_missing_services(prefs: &mut SCPreferences, set: &mut SCNetworkSet) -> (r: Result<Vec<u64>, EngineError>)
    requires
        old(prefs).wf(),
        old(prefs)@.sets.contains_key(old(set).id),
        old(set)@ == old(prefs)@.sets[old(set).id],
    ensures
        final(prefs).wf(),
        final(set).id == old(set).id,
        old(prefs)@.next_id + old(prefs)@.interfaces.len() < u64::MAX ==> r.is_ok(),
        r.is_err() ==> (r matches Err(EngineError::StoreCallFailed { operation: op, .. }) && (op
            == StoreOperation::CreateService || op == StoreOperation::AddService)),
        r.is_ok() ==> ({
            let ids = r.unwrap()@;
            let elig = eligible_interfaces(old(prefs)@, old(set).id);
            &&& ids.len() == elig.len()
            &&& ids.no_duplicates()
            &&& forall|k: int| 0 <= k < ids.len() ==> {
                &&& !old(prefs)@.services.contains_key(#[trigger] ids[k])
                &&& final(prefs)@.services.contains_key(ids[k])
                &&& final(prefs)@.services[ids[k]] == provisioned(elig[k])
                &&& eligible(old(prefs)@, old(set).id, final(prefs)@.services[ids[k]].interface.unwrap())
            }
            &&& forall|id: u64| #[trigger] old(prefs)@.services.contains_key(id) ==> final(prefs)@.services.contains_key(id)
                && final(prefs)@.services[id] == old(prefs)@.services[id]
            &&& final(prefs)@.next_id == old(prefs)@.next_id + ids.len()
            &&& forall|k: int| 0 <= k < ids.len() ==> #[trigger] ids[k] == old(prefs)@.next_id + k
            &&& forall|id: u64| #[trigger] final(prefs)@.services.contains_key(id) && !old(prefs)@.services.contains_key(id)
                ==> old(prefs)@.next_id <= id < old(prefs)@.next_id + ids.len()
            &&& final(set)@ == (SetView {
                services: old(set)@.services + ids,
                service_order: old(set)@.service_order + ids,
                ..old(set)@
            })
            &&& final(prefs)@ == (PreferencesView {
                services: final(prefs)@.services,
                sets: old(prefs)@.sets.insert(old(set).id, final(set)@),
                next_id: final(prefs)@.next_id,
                last_error: final(prefs)@.last_error,
                ..old(prefs)@
            })
        }),
{
    let set_id = set.id;
    let ghost p0 = old(prefs)@;
    proof {
        old(prefs).lemma_fresh();
        assert(crate::store::ids_below(p0.sets[set_id].services, p0.next_id));
    }
    let ghost elig_f = |i: InterfaceView| eligible(p0, set_id, i);
    let interfaces = prefs.interfaces();
    let ghost all = interface_views(interfaces@);
    let mut chosen: Vec<SCNetworkInterface> = Vec::new();
    let mut j: usize = 0;
    while j < interfaces.len()
        invariant
            prefs@ == p0,
            prefs.wf(),
            set.id == set_id,
            p0.sets.contains_key(set_id),
            set@ == p0.sets[set_id],
            j <= interfaces@.len(),
            all == interface_views(interfaces@),
            all == p0.interfaces,
            elig_f == (|i: InterfaceView| eligible(p0, set_id, i)),
            interface_views(chosen@) == all.take(j as int).filter(elig_f),
        decreases interfaces@.len() - j,
    {
        proof {
            lemma_filter_step(all, elig_f, j as int);
            assert(all[j as int] == interfaces@[j as int]@);
        }
        if is_eligible(prefs, set, &interfaces[j]) {
            let ghost before = chosen@;
            chosen.push(interfaces[j].duplicate());
            proof {
                assert(interface_views(chosen@) =~= interface_views(before).push(all[j as int]));
            }
        }
        j = j + 1;
    }
    proof {
        assert(all.take(all.len() as int) =~= all);
        p0.interfaces.lemma_filter_len(elig_f);
        assert(interface_views(chosen@) == eligible_interfaces(p0, set_id));
        assert(interface_views(chosen@).len() == chosen@.len());
    }
    let ghost elig = eligible_interfaces(p0, set_id);
    let mut ids: Vec<u64> = Vec::new();
    let mut k: usize = 0;
    while k < chosen.len()
        invariant
            prefs.wf(),
            k <= chosen@.len(),
            chosen@.len() <= p0.interfaces.len(),
            p0 == old(prefs)@,
            set.id == set_id,
            set@ == p0.sets[set_id],
            interface_views(chosen@) == elig,
            ids@.len() == k,
            prefs@.next_id == p0.next_id + k,
            prefs@ == (PreferencesView {
                services: prefs@.services,
                next_id: prefs@.next_id,
                last_error: prefs@.last_error,
                ..p0
            }),
            forall|id: u64| #[trigger] p0.services.contains_key(id) ==> prefs@.services.contains_key(id)
                && prefs@.services[id] == p0.services[id],
            forall|id: u64| #[trigger] prefs@.services.contains_key(id) && !p0.services.contains_key(id) ==> p0.next_id
                <= id < p0.next_id + k,
            forall|a: int| 0 <= a < k ==> {
                &&& #[trigger] ids@[a] == p0.next_id + a
                &&& !p0.services.contains_key(ids@[a])
                &&& prefs@.services.contains_key(ids@[a])
                &&& prefs@.services[ids@[a]] == provisioned(elig[a])
            },
        decreases chosen@.len() - k,
    {
        let ghost pk = prefs@;
        let service = match create_service(prefs, &chosen[k]) {
            Ok(s) => s,
            Err(e) => return Err(e),
        };
        let id = service.id;
        proof {
            assert(service@.protocols.len() == 0);
            assert(!crate::catalog::has_protocol(service@.protocols, ipv6_id()));
        }
        if !add_network_protocol(prefs, id, SCNetworkProtocolType::IPv6) {
            return Err(store_failure(prefs, StoreOperation::AddProtocol));
        }
        if !establish_default_configuration(prefs, id) {
            return Err(store_failure(prefs, StoreOperation::EstablishDefaults));
        }
        proof {
            lemma_keys_distinct();
            assert(chosen@[k as int]@ == elig[k as int]);
            assert(Seq::<crate::model::ProtocolView>::empty().push(default_protocol(ipv6_id())) =~= seq![
                default_protocol(ipv6_id())]);
            assert(service@.protocols =~= Seq::<crate::model::ProtocolView>::empty());
            let v = prefs@.services[id];
            let w = provisioned(elig[k as int]);
            assert(v.enabled == w.enabled);
            assert(v.interface == w.interface);
            assert(v.attributes == w.attributes);
            assert(v.protocols == w.protocols);
            assert(v == w);
        }
        ids.push(id);
        proof {
            assert forall|a: int| 0 <= a < k + 1 implies {
                &&& #[trigger] ids@[a] == p0.next_id + a
                &&& !p0.services.contains_key(ids@[a])
                &&& prefs@.services.contains_key(ids@[a])
                &&& prefs@.services[ids@[a]] == provisioned(elig[a])
            } by {
                if a < k {
                    assert(pk.services.contains_key(ids@[a]));
                }
            }
        }
        k = k + 1;
    }
    let ghost p1 = prefs@;
    let ghost members0 = set@.services;
    let mut order = duplicate_ids(&set.service_order);
    proof {
        assert(ids@.take(0) =~= Seq::<u64>::empty());
        assert(members0 + ids@.take(0) =~= members0);
        assert(order@ + ids@.take(0) =~= order@);
        assert(p0.sets.insert(set_id, p0.sets[set_id]) =~= p0.sets);
    }
    let mut a: usize = 0;
    while a < ids.len()
        invariant
            prefs.wf(),
            p0 == old(prefs)@,
            p1.sets == p0.sets,
            p1.next_id == p0.next_id + ids@.len(),
            set@ == p0.sets[set_id],
            set.id == set_id,
            p0.sets.contains_key(set_id),
            a <= ids@.len(),
            forall|b: int| 0 <= b < ids@.len() ==> #[trigger] ids@[b] == p0.next_id + b,
            forall|b: int| 0 <= b < ids@.len() ==> p1.services.contains_key(#[trigger] ids@[b]),
            members0 == p0.sets[set_id].services,
            crate::store::ids_below(members0, p0.next_id),
            prefs@.sets[set_id] == (SetView { services: members0 + ids@.take(a as int), ..p0.sets[set_id] }),
            order@ == p0.sets[set_id].service_order + ids@.take(a as int),
            prefs@ == (PreferencesView {
                sets: p0.sets.insert(set_id, prefs@.sets[set_id]),
                last_error: prefs@.last_error,
                ..p1
            }),
        decreases ids@.len() - a,
    {
        proof {
            if forall|b: int| 0 <= b < members0.len() ==> #[trigger] members0[b] < p0.next_id {
                if (members0 + ids@.take(a as int)).contains(ids@[a as int]) {
                    let b = choose|b: int| 0 <= b < (members0 + ids@.take(a as int)).len() && #[trigger] (members0
                        + ids@.take(a as int))[b] == ids@[a as int];
                    if b < members0.len() {
                        assert(members0[b] == ids@[a as int]);
                    } else {
                        assert(ids@.take(a as int)[b - members0.len()] == ids@[b - members0.len()]);
                    }
                }
            }
        }
        if !add_service_to_set(prefs, set_id, ids[a]) {
            return Err(store_failure(prefs, StoreOperation::AddService));
        }
        order.push(ids[a]);
        proof {
            assert(prefs@.sets =~= p0.sets.insert(set_id, prefs@.sets[set_id]));
            assert(ids@.take(a + 1) =~= ids@.take(a as int).push(ids@[a as int]));
            assert(members0 + ids@.take(a + 1) =~= (members0 + ids@.take(a as int)).push(ids@[a as int]));
            assert(p0.sets[set_id].service_order + ids@.take(a + 1) =~= (p0.sets[set_id].service_order + ids@.take(
                a as int,
            )).push(ids@[a as int]));
        }
        a = a + 1;
    }
    proof {
        assert(ids@.take(ids@.len() as int) =~= ids@);
    }
    if !crate::catalog::set_service_order(prefs, set_id, &order) {
        return Err(store_failure(prefs, StoreOperation::SetServiceOrder));
    }
    *set = match prefs.find_set(set_id) {
        Some(s) => s,
        None => return Err(EngineError::NotFound),
    };
    proof {
        assert(prefs@.sets =~= p0.sets.insert(set_id, set@));
    }
    Ok(ids)
}

} // verus!
