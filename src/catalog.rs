//! The entity catalog: operations on services and sets, each one a whole-document rewrite
//! through the store session.
use vstd::prelude::*;
use crate::dictionary::{Dictionary, Value};
use crate::error::{STATUS_FAILED, STATUS_INVALID_ARGUMENT, STATUS_KEY_EXISTS, STATUS_NO_KEY};
use crate::kinds::{SCNetworkProtocolType, protocol_type_id};
use crate::model::{
    InterfaceView, ProtocolView, SCNetworkInterface, SCNetworkProtocol, SCNetworkService,
    ServiceView, SetView, duplicate_ids, duplicate_texts, protocol_views, texts,
};
use crate::store::{Collection, PreferencesView, SCPreferences};

verus! {

/// The key under which an entity's user-visible name is stored.
pub open spec fn name_key() -> Seq<char> {
    "UserDefinedName"@
}

/// The key under which an entity's user-visible name is stored.
pub fn user_defined_name_key() -> (r: &'static str)
    ensures
        r@ == name_key(),
{
    "UserDefinedName"
}

/// The characters of a text value; empty for any other value.
pub open spec fn text_of(v: Value) -> Seq<char> {
    match v {
        Value::Text(s) => s@,
        _ => Seq::empty(),
    }
}

/// A protocol entry as the store adds it: enabled, with an empty configuration.
pub open spec fn default_protocol(type_id: Seq<char>) -> ProtocolView {
    ProtocolView { type_id, enabled: true, configuration: Map::empty() }
}

/// The first index at or after `i` of a protocol entry with type identifier `t`.
pub open spec fn protocol_index_from(ps: Seq<ProtocolView>, t: Seq<char>, i: int) -> Option<int>
    decreases ps.len() - i,
{
    if i < 0 || i >= ps.len() {
        None
    } else if ps[i].type_id == t {
        Some(i)
    } else {
        protocol_index_from(ps, t, i + 1)
    }
}

/// The index of the first protocol entry with type identifier `t`.
pub open spec fn protocol_index(ps: Seq<ProtocolView>, t: Seq<char>) -> Option<int> {
    protocol_index_from(ps, t, 0)
}

/// Whether some protocol entry has type identifier `t`.
pub open spec fn has_protocol(ps: Seq<ProtocolView>, t: Seq<char>) -> bool {
    exists|i: int| 0 <= i < ps.len() && (#[trigger] ps[i]).type_id == t
}

pub proof fn lemma_protocol_index_from(ps: Seq<ProtocolView>, t: Seq<char>, i: int)
    requires
        0 <= i <= ps.len(),
    ensures
        protocol_index_from(ps, t, i).is_none() <==> forall|j: int| i <= j < ps.len() ==> (#[trigger] ps[j]).type_id != t,
        protocol_index_from(ps, t, i).is_some() ==> {
            let k = protocol_index_from(ps, t, i).unwrap();
            &&& i <= k < ps.len()
            &&& ps[k].type_id == t
            &&& forall|j: int| i <= j < k ==> (#[trigger] ps[j]).type_id != t
        },
    decreases ps.len() - i,
{
    if i < ps.len() {
        lemma_protocol_index_from(ps, t, i + 1);
    }
}

/// The first entry with type identifier `t` is found exactly when there is one.
pub proof fn lemma_protocol_index(ps: Seq<ProtocolView>, t: Seq<char>)
    ensures
        protocol_index(ps, t).is_none() <==> !has_protocol(ps, t),
        protocol_index(ps, t).is_some() ==> {
            let k = protocol_index(ps, t).unwrap();
            0 <= k < ps.len() && ps[k].type_id == t
        },
{
    lemma_protocol_index_from(ps, t, 0);
}

/// The index of the first protocol entry of `protocols` with type identifier `t`.
pub fn find_protocol_index(protocols: &Vec<SCNetworkProtocol>, t: &String) -> (r: Option<usize>)
    ensures
        r.is_none() == protocol_index(protocol_views(protocols@), t@).is_none(),
        r.is_some() ==> protocol_index(protocol_views(protocols@), t@) == Some(r.unwrap() as int),
{
    let ghost ps = protocol_views(protocols@);
    let mut i: usize = 0;
    while i < protocols.len()
        invariant
            i <= protocols@.len(),
            ps == protocol_views(protocols@),
            protocol_index(ps, t@) == protocol_index_from(ps, t@, i as int),
        decreases protocols@.len() - i,
    {
        if protocols[i].type_id == *t {
            return Some(i);
        }
        i = i + 1;
    }
    None
}

/// A service's content with its protocol list replaced.
pub open spec fn with_protocols(s: ServiceView, ps: Seq<ProtocolView>) -> ServiceView {
    ServiceView { protocols: ps, ..s }
}

/// The session with one service's content replaced.
pub open spec fn with_service(p: PreferencesView, id: u64, s: ServiceView) -> PreferencesView {
    PreferencesView { services: p.services.insert(id, s), ..p }
}

/// The session with one set's content replaced.
pub open spec fn with_set(p: PreferencesView, id: u64, s: SetView) -> PreferencesView {
    PreferencesView { sets: p.sets.insert(id, s), ..p }
}

/// The session unchanged but for the status of the last failed call.
pub open spec fn failed_with(p: PreferencesView, code: i32) -> PreferencesView {
    PreferencesView { last_error: code, ..p }
}

/// Adds a default-configured protocol of kind `protocol` to a service. Fails when there is no
/// such service or it already has a protocol of that kind.
pub fn add_network_protocol(prefs: &mut SCPreferences, service_id: u64, protocol: SCNetworkProtocolType) -> (r: bool)
    requires
        old(prefs).wf(),
    ensures
        final(prefs).wf(),
        r == (old(prefs)@.services.contains_key(service_id) && !has_protocol(
            old(prefs)@.services[service_id].protocols,
            protocol_type_id(protocol),
        )),
        r ==> final(prefs)@ == with_service(
            old(prefs)@,
            service_id,
            with_protocols(
                old(prefs)@.services[service_id],
                old(prefs)@.services[service_id].protocols.push(default_protocol(protocol_type_id(protocol))),
            ),
        ),
        !r && !old(prefs)@.services.contains_key(service_id) ==> final(prefs)@ == failed_with(old(prefs)@, STATUS_NO_KEY),
        !r && old(prefs)@.services.contains_key(service_id) ==> final(prefs)@ == failed_with(old(prefs)@, STATUS_KEY_EXISTS),
{
    let mut service = match prefs.find_service(service_id) {
        Some(s) => s,
        None => {
            prefs.record_failure(STATUS_NO_KEY);
            return false;
        },
    };
    let type_id = protocol.to_type_id();
    proof {
        lemma_protocol_index(service@.protocols, type_id@);
    }
    if find_protocol_index(&service.protocols, &type_id).is_some() {
        prefs.record_failure(STATUS_KEY_EXISTS);
        return false;
    }
    let ghost before = service.protocols@;
    service.protocols.push(SCNetworkProtocol { type_id, enabled: true, configuration: Dictionary::new() });
    proof {
        assert(protocol_views(service.protocols@) =~= protocol_views(before).push(
            default_protocol(protocol_type_id(protocol)),
        ));
    }
    prefs.set_service_value(&service)
}


/// Sets whether a service is enabled. Fails when there is no such service.
pub fn set_service_enabled(prefs: &mut SCPreferences, service_id: u64, enabled: bool) -> (r: bool)
    requires
        old(prefs).wf(),
    ensures
        final(prefs).wf(),
        r == old(prefs)@.services.contains_key(service_id),
        r ==> final(prefs)@ == with_service(
            old(prefs)@,
            service_id,
            ServiceView { enabled, ..old(prefs)@.services[service_id] },
        ),
        !r ==> final(prefs)@ == failed_with(old(prefs)@, STATUS_NO_KEY),
{
    let mut service = match prefs.find_service(service_id) {
        Some(s) => s,
        None => {
            prefs.record_failure(STATUS_NO_KEY);
            return false;
        },
    };
    service.enabled = enabled;
    prefs.set_service_value(&service)
}

/// Sets whether a service's first protocol of kind `protocol` is enabled. Fails when there is
/// no such service or it has no protocol of that kind.
pub fn set_protocol_enabled(
    prefs: &mut SCPreferences,
    service_id: u64,
    protocol: SCNetworkProtocolType,
    enabled: bool,
) -> (r: bool)
    requires
        old(prefs).wf(),
    ensures
        final(prefs).wf(),
        r == (old(prefs)@.services.contains_key(service_id) && has_protocol(
            old(prefs)@.services[service_id].protocols,
            protocol_type_id(protocol),
        )),
        r ==> ({
            let s = old(prefs)@.services[service_id];
            let k = protocol_index(s.protocols, protocol_type_id(protocol)).unwrap();
            final(prefs)@ == with_service(
                old(prefs)@,
                service_id,
                with_protocols(s, s.protocols.update(k, ProtocolView { enabled, ..s.protocols[k] })),
            )
        }),
        !r ==> final(prefs)@ == failed_with(old(prefs)@, STATUS_NO_KEY),
{
    let mut service = match prefs.find_service(service_id) {
        Some(s) => s,
        None => {
            prefs.record_failure(STATUS_NO_KEY);
            return false;
        },
    };
    let type_id = protocol.to_type_id();
    proof {
        lemma_protocol_index(service@.protocols, type_id@);
    }
    let k = match find_protocol_index(&service.protocols, &type_id) {
        Some(k) => k,
        None => {
            prefs.record_failure(STATUS_NO_KEY);
            return false;
        },
    };
    let ghost before = service.protocols@;
    let mut entry = service.protocols[k].duplicate();
    entry.enabled = enabled;
    service.protocols.set(k, entry);
    proof {
        assert(protocol_views(service.protocols@) =~= protocol_views(before).update(
            k as int,
            ProtocolView { enabled, ..protocol_views(before)[k as int] },
        ));
    }
    prefs.set_service_value(&service)
}

/// A set's content with its member list replaced.
pub open spec fn with_members(s: SetView, members: Seq<u64>) -> SetView {
    SetView { services: members, ..s }
}

/// Adds a service to a set's members. Fails when the set or the service does not exist, or
/// the service is a member already.
pub fn add_service_to_set(prefs: &mut SCPreferences, set_id: u64, service_id: u64) -> (r: bool)
    requires
        old(prefs).wf(),
    ensures
        final(prefs).wf(),
        r == (old(prefs)@.sets.contains_key(set_id) && old(prefs)@.services.contains_key(service_id)
            && !old(prefs)@.sets[set_id].services.contains(service_id)),
        r ==> final(prefs)@ == with_set(
            old(prefs)@,
            set_id,
            with_members(old(prefs)@.sets[set_id], old(prefs)@.sets[set_id].services.push(service_id)),
        ),
        !r && !(old(prefs)@.sets.contains_key(set_id) && old(prefs)@.services.contains_key(service_id))
            ==> final(prefs)@ == failed_with(old(prefs)@, STATUS_NO_KEY),
        !r && old(prefs)@.sets.contains_key(set_id) && old(prefs)@.services.contains_key(service_id)
            ==> final(prefs)@ == failed_with(old(prefs)@, STATUS_KEY_EXISTS),
{
    let mut set = match prefs.find_set(set_id) {
        Some(s) => s,
        None => {
            prefs.record_failure(STATUS_NO_KEY);
            return false;
        },
    };
    if prefs.find_service(service_id).is_none() {
        prefs.record_failure(STATUS_NO_KEY);
        return false;
    }
    let mut i: usize = 0;
    while i < set.services.len()
        invariant
            prefs.wf(),
            prefs@ == old(prefs)@,
            set.id == set_id,
            set@ == old(prefs)@.sets[set_id],
            old(prefs)@.sets.contains_key(set_id),
            old(prefs)@.services.contains_key(service_id),
            i <= set.services@.len(),
            forall|j: int| 0 <= j < i ==> set.services@[j] != service_id,
        decreases set.services@.len() - i,
    {
        if set.services[i] == service_id {
            prefs.record_failure(STATUS_KEY_EXISTS);
            return false;
        }
        i = i + 1;
    }
    let ghost before = set.services@;
    set.services.push(service_id);
    proof {
        prefs.lemma_fresh();
        assert forall|k: int| 0 <= k < set.services@.len() implies #[trigger] set.services@[k] < prefs@.next_id by {
            if k < before.len() {
                assert(set.services@[k] == before[k]);
            }
        }
    }
    prefs.set_set_value(&set)
}

/// Removes a service from a set's members. Fails when the set does not exist or the service is
/// not a member.
pub fn remove_service_from_set(prefs: &mut SCPreferences, set_id: u64, service_id: u64) -> (r: bool)
    requires
        old(prefs).wf(),
    ensures
        final(prefs).wf(),
        r == (old(prefs)@.sets.contains_key(set_id) && old(prefs)@.sets[set_id].services.contains(service_id)),
        r ==> final(prefs)@ == with_set(
            old(prefs)@,
            set_id,
            with_members(
                old(prefs)@.sets[set_id],
                old(prefs)@.sets[set_id].services.filter(|x: u64| x != service_id),
            ),
        ),
        !r ==> final(prefs)@ == failed_with(old(prefs)@, STATUS_NO_KEY),
{
    let mut set = match prefs.find_set(set_id) {
        Some(s) => s,
        None => {
            prefs.record_failure(STATUS_NO_KEY);
            return false;
        },
    };
    let ghost members = set.services@;
    let ghost keep = |x: u64| x != service_id;
    let mut kept: Vec<u64> = Vec::new();
    let mut found = false;
    let mut i: usize = 0;
    while i < set.services.len()
        invariant
            prefs.wf(),
            prefs@ == old(prefs)@,
            set.id == set_id,
            set@ == old(prefs)@.sets[set_id],
            old(prefs)@.sets.contains_key(set_id),
            set.services@ == members,
            i <= members.len(),
            kept@ == members.take(i as int).filter(keep),
            found == members.take(i as int).contains(service_id),
            keep == (|x: u64| x != service_id),
        decreases members.len() - i,
    {
        proof {
            assert(members.take(i + 1).drop_last() =~= members.take(i as int));
            reveal(Seq::filter);
        }
        let x = set.services[i];
        if x == service_id {
            found = true;
        } else {
            kept.push(x);
        }
        proof {
            if x == service_id {
                assert(members.take(i + 1)[i as int] == x);
            }
            assert(members.take(i + 1).contains(service_id) == (members.take(i as int).contains(service_id) || x == service_id)) by {
                if members.take(i as int).contains(service_id) {
                    let j = choose|j: int| 0 <= j < i && #[trigger] members.take(i as int)[j] == service_id;
                    assert(members.take(i + 1)[j] == service_id);
                }
                if members.take(i + 1).contains(service_id) && x != service_id {
                    let j = choose|j: int| 0 <= j < i + 1 && #[trigger] members.take(i + 1)[j] == service_id;
                    assert(members.take(i as int)[j] == service_id);
                }
            }
        }
        i = i + 1;
    }
    proof {
        assert(members.take(members.len() as int) =~= members);
    }
    if !found {
        prefs.record_failure(STATUS_NO_KEY);
        return false;
    }
    set.services = kept;
    proof {
        prefs.lemma_fresh();
        assert forall|k: int| 0 <= k < set.services@.len() implies #[trigger] set.services@[k] < prefs@.next_id by {
            crate::ordering::lemma_filter_subset(members, keep, k);
            let j = choose|j: int| 0 <= j < members.len() && members[j] == set.services@[k];
            assert(members[j] < prefs@.next_id);
        }
    }
    prefs.set_set_value(&set)
}

/// Replaces a set's priority order. Fails when there is no such set.
pub fn set_service_order(prefs: &mut SCPreferences, set_id: u64, order: &Vec<u64>) -> (r: bool)
    requires
        old(prefs).wf(),
    ensures
        final(prefs).wf(),
        r == old(prefs)@.sets.contains_key(set_id),
        r ==> final(prefs)@ == with_set(
            old(prefs)@,
            set_id,
            SetView { service_order: order@, ..old(prefs)@.sets[set_id] },
        ),
        !r ==> final(prefs)@ == failed_with(old(prefs)@, STATUS_NO_KEY),
{
    let mut set = match prefs.find_set(set_id) {
        Some(s) => s,
        None => {
            prefs.record_failure(STATUS_NO_KEY);
            return false;
        },
    };
    set.service_order = duplicate_ids(order);
    proof {
        prefs.lemma_fresh();
    }
    prefs.set_set_value(&set)
}

/// The protocol list after adding a default entry for each type identifier of `supported`
/// that has no entry yet, in order.
pub open spec fn with_defaults(ps: Seq<ProtocolView>, supported: Seq<Seq<char>>) -> Seq<ProtocolView>
    decreases supported.len(),
{
    if supported.len() == 0 {
        ps
    } else {
        let prev = with_defaults(ps, supported.drop_last());
        if has_protocol(prev, supported.last()) {
            prev
        } else {
            prev.push(default_protocol(supported.last()))
        }
    }
}

/// Completes a service's configuration: adds a default-configured entry for each protocol its
/// interface supports and the service lacks. Fails when there is no such service or it has no
/// interface.
pub fn establish_default_configuration(prefs: &mut SCPreferences, service_id: u64) -> (r: bool)
    requires
        old(prefs).wf(),
    ensures
        final(prefs).wf(),
        r == (old(prefs)@.services.contains_key(service_id) && old(prefs)@.services[service_id].interface.is_some()),
        r ==> ({
            let s = old(prefs)@.services[service_id];
            final(prefs)@ == with_service(
                old(prefs)@,
                service_id,
                with_protocols(s, with_defaults(s.protocols, s.interface.unwrap().supported_protocol_types)),
            )
        }),
        !r && !old(prefs)@.services.contains_key(service_id) ==> final(prefs)@ == failed_with(old(prefs)@, STATUS_NO_KEY),
        !r && old(prefs)@.services.contains_key(service_id) ==> final(prefs)@ == failed_with(old(prefs)@, STATUS_INVALID_ARGUMENT),
{
    let mut service = match prefs.find_service(service_id) {
        Some(s) => s,
        None => {
            prefs.record_failure(STATUS_NO_KEY);
            return false;
        },
    };
    let supported: Vec<String> = match &service.interface {
        Some(i) => duplicate_texts(&i.supported_protocol_types),
        None => {
            prefs.record_failure(STATUS_INVALID_ARGUMENT);
            return false;
        },
    };
    let ghost sup = texts(supported@);
    let ghost start = service@.protocols;
    let mut i: usize = 0;
    while i < supported.len()
        invariant
            prefs.wf(),
            prefs@ == old(prefs)@,
            service.id == service_id,
            old(prefs)@.services.contains_key(service_id),
            old(prefs)@.services[service_id].interface.is_some(),
            sup == old(prefs)@.services[service_id].interface.unwrap().supported_protocol_types,
            start == old(prefs)@.services[service_id].protocols,
            service@.interface == old(prefs)@.services[service_id].interface,
            service@.enabled == old(prefs)@.services[service_id].enabled,
            service@.attributes == old(prefs)@.services[service_id].attributes,
            i <= supported@.len(),
            sup == texts(supported@),
            protocol_views(service.protocols@) == with_defaults(start, sup.take(i as int)),
        decreases supported@.len() - i,
    {
        proof {
            assert(sup.take(i + 1).drop_last() =~= sup.take(i as int));
            assert(sup.take(i + 1).last() == supported@[i as int]@);
            lemma_protocol_index(protocol_views(service.protocols@), supported@[i as int]@);
        }
        if find_protocol_index(&service.protocols, &supported[i]).is_none() {
            let ghost before = service.protocols@;
            service.protocols.push(SCNetworkProtocol {
                type_id: supported[i].clone(),
                enabled: true,
                configuration: Dictionary::new(),
            });
            proof {
                assert(protocol_views(service.protocols@) =~= protocol_views(before).push(
                    default_protocol(supported@[i as int]@),
                ));
            }
        }
        i = i + 1;
    }
    proof {
        assert(sup.take(sup.len() as int) =~= sup);
    }
    prefs.set_service_value(&service)
}

/// What the store holds for a service it has just created for an interface: enabled, bound
/// to the interface, without protocols, and named after the interface's BSD name.
pub open spec fn created_for(s: ServiceView, interface: InterfaceView) -> bool {
    &&& s.enabled
    &&& s.interface == Some(interface)
    &&& s.protocols.len() == 0
    &&& s.attributes.dom() == set![name_key()]
    &&& text_of(s.attributes[name_key()]) == interface.bsd_name
}

/// Creates a service bound to `interface` at a fresh path and returns its id. Fails once the
/// ids are exhausted.
pub fn create_bound_service(prefs: &mut SCPreferences, interface: &SCNetworkInterface) -> (r: Option<u64>)
    requires
        old(prefs).wf(),
    ensures
        final(prefs).wf(),
        r.is_some() == (old(prefs)@.next_id < u64::MAX),
        r.is_some() ==> ({
            let id = r.unwrap();
            &&& id == old(prefs)@.next_id
            &&& !old(prefs)@.services.contains_key(id)
            &&& final(prefs)@.services.contains_key(id)
            &&& created_for(final(prefs)@.services[id], interface@)
            &&& final(prefs)@ == (PreferencesView {
                services: old(prefs)@.services.insert(id, final(prefs)@.services[id]),
                next_id: (old(prefs)@.next_id + 1) as u64,
                ..old(prefs)@
            })
        }),
        r.is_none() ==> final(prefs)@ == failed_with(old(prefs)@, STATUS_FAILED),
{
    let id = match prefs.create_unique_child(Collection::NetworkServices) {
        Some(id) => id,
        None => return None,
    };
    let ghost mid = prefs@;
    let mut attributes = Dictionary::new();
    attributes.set(user_defined_name_key().to_owned(), Value::Text(interface.bsd_name.clone()));
    let service = SCNetworkService {
        id,
        enabled: true,
        interface: Some(interface.duplicate()),
        protocols: Vec::new(),
        attributes,
    };
    proof {
        assert(service@.protocols =~= Seq::<ProtocolView>::empty());
        assert(service@.attributes.dom() =~= set![name_key()]);
    }
    let ok = prefs.set_service_value(&service);
    proof {
        assert(ok);
        assert(prefs@.services =~= old(prefs)@.services.insert(id, service@));
    }
    Some(id)
}

} // verus!
