//! Ownership tagging, and clones of sets and services at freshly allocated paths.
use vstd::prelude::*;
use crate::catalog::{name_key, user_defined_name_key};
use crate::dictionary::{Dictionary, Value};
use crate::error::{EngineError, STATUS_FAILED, StoreOperation};
use crate::model::{SCNetworkService, SCNetworkSet, ServiceView, SetView};
use crate::store::{Collection, PreferencesView, SCPreferences};

verus! {

/// The reserved key whose presence marks an entity as created by this engine.
pub open spec fn owned_key() -> Seq<char> {
    "ThisNetworkEntityWasCreatedByExo"@
}

/// The reserved key whose presence marks an entity as created by this engine.
pub fn ownership_tag_key() -> (r: &'static str)
    ensures
        r@ == owned_key(),
{
    "ThisNetworkEntityWasCreatedByExo"
}

/// The ownership tag and the name are stored under different keys.
pub proof fn lemma_keys_distinct()
    ensures
        owned_key() != name_key(),
{
    reveal_strlit("ThisNetworkEntityWasCreatedByExo");
    reveal_strlit("UserDefinedName");
    assert(owned_key().len() != name_key().len());
}

/// Whether an entity's dictionary carries the ownership tag.
pub open spec fn is_owned(attributes: Map<Seq<char>, Value>) -> bool {
    attributes.contains_key(owned_key())
}

/// Writes the ownership tag into a dictionary.
pub fn marked_as_owned(dict: &mut Dictionary)
    ensures
        final(dict)@ == old(dict)@.insert(owned_key(), Value::Bool(true)),
{
    dict.set(ownership_tag_key().to_owned(), Value::Bool(true));
}

/// Whether a dictionary carries the ownership tag.
pub fn has_ownership_tag(dict: &Dictionary) -> (r: bool)
    ensures
        r == is_owned(dict@),
{
    dict.contains_key(ownership_tag_key())
}

/// A service's dictionary as its clone carries it: without the name, with the ownership tag.
pub open spec fn cloned_service_attributes(a: Map<Seq<char>, Value>) -> Map<Seq<char>, Value> {
    a.remove(name_key()).insert(owned_key(), Value::Bool(true))
}

/// The content of a clone of a service.
pub open spec fn cloned_service(s: ServiceView) -> ServiceView {
    ServiceView { attributes: cloned_service_attributes(s.attributes), ..s }
}

/// The content of a clone of a set named `name`.
pub open spec fn cloned_set(s: SetView, name: String) -> SetView {
    SetView {
        attributes: s.attributes.insert(name_key(), Value::Text(name)).insert(owned_key(), Value::Bool(true)),
        ..s
    }
}

/// The error for a failed store call, carrying the store's last error.
pub fn store_failure(prefs: &SCPreferences, operation: StoreOperation) -> (r: EngineError)
    ensures
        r matches EngineError::StoreCallFailed { operation: op, last_error: e } && op == operation && e@ == (
        if prefs@.last_error == 0 { 1 } else { prefs@.last_error }),
{
    EngineError::StoreCallFailed { operation, last_error: prefs.last_error() }
}

/// Clones a service at a fresh path of the services collection. The clone has every field of
/// the source but its name, and carries the ownership tag; the source is left as it was.
///
/// Fails with `NotFound` when the source does not exist, and with a failed `CreateUniqueChild`
/// once the store's ids are exhausted.
pub fn shallow_clone_network_service(prefs: &mut SCPreferences, old_service: &SCNetworkService) -> (r: Result<
    SCNetworkService,
    EngineError,
>)
    requires
        old(prefs).wf(),
    ensures
        final(prefs).wf(),
        r.is_ok() == (old(prefs)@.services.contains_key(old_service.id) && old(prefs)@.next_id < u64::MAX),
        r.is_ok() ==> ({
            let s = r.unwrap();
            &&& s.id == old(prefs)@.next_id
            &&& !old(prefs)@.services.contains_key(s.id)
            &&& s.id != old_service.id
            &&& s@ == cloned_service(old(prefs)@.services[old_service.id])
            &&& s@.attributes.contains_key(owned_key())
            &&& !s@.attributes.contains_key(name_key())
            &&& final(prefs)@.services[old_service.id] == old(prefs)@.services[old_service.id]
            &&& final(prefs)@ == (PreferencesView {
                services: old(prefs)@.services.insert(s.id, s@),
                next_id: (old(prefs)@.next_id + 1) as u64,
                ..old(prefs)@
            })
        }),
        !old(prefs)@.services.contains_key(old_service.id) ==> r == Err::<SCNetworkService, EngineError>(
            EngineError::NotFound,
        ) && final(prefs)@ == old(prefs)@,
        old(prefs)@.services.contains_key(old_service.id) && old(prefs)@.next_id == u64::MAX ==> (r matches Err(
            EngineError::StoreCallFailed { operation: op, last_error: e },
        ) && op == StoreOperation::CreateUniqueChild && e@ == STATUS_FAILED),
        old(prefs)@.services.contains_key(old_service.id) && old(prefs)@.next_id == u64::MAX ==> final(prefs)@ == (PreferencesView {
            last_error: STATUS_FAILED,
            ..old(prefs)@
        }),
{
    let mut copy = match prefs.find_service(old_service.id) {
        Some(s) => s,
        None => return Err(EngineError::NotFound),
    };
    copy.attributes.remove(user_defined_name_key());
    marked_as_owned(&mut copy.attributes);
    let new_id = match prefs.create_unique_child(Collection::NetworkServices) {
        Some(id) => id,
        None => return Err(store_failure(prefs, StoreOperation::CreateUniqueChild)),
    };
    copy.id = new_id;
    if !prefs.set_service_value(&copy) {
        return Err(store_failure(prefs, StoreOperation::SetValue));
    }
    proof {
        lemma_keys_distinct();
        assert(prefs@.services =~= old(prefs)@.services.insert(new_id, copy@));
    }
    match prefs.find_service(new_id) {
        Some(s) => Ok(s),
        None => Err(EngineError::InvariantViolated),
    }
}

/// Clones a set at a fresh path of the sets collection under the name `new_set_name`. The
/// clone has every field of the source but its name, and carries the ownership tag; the
/// source is left as it was.
///
/// Fails with `NotFound` when the source does not exist, and with a failed `CreateUniqueChild`
/// once the store's ids are exhausted.
pub fn shallow_clone_network_set(prefs: &mut SCPreferences, old_set: &SCNetworkSet, new_set_name: String) -> (r:
    Result<SCNetworkSet, EngineError>)
    requires
        old(prefs).wf(),
    ensures
        final(prefs).wf(),
        r.is_ok() == (old(prefs)@.sets.contains_key(old_set.id) && old(prefs)@.next_id < u64::MAX),
        r.is_ok() ==> ({
            let s = r.unwrap();
            &&& s.id == old(prefs)@.next_id
            &&& !old(prefs)@.sets.contains_key(s.id)
            &&& s.id != old_set.id
            &&& s@ == cloned_set(old(prefs)@.sets[old_set.id], new_set_name)
            &&& s@.attributes.contains_key(owned_key())
            &&& final(prefs)@.sets[old_set.id] == old(prefs)@.sets[old_set.id]
            &&& final(prefs)@ == (PreferencesView {
                sets: old(prefs)@.sets.insert(s.id, s@),
                next_id: (old(prefs)@.next_id + 1) as u64,
                ..old(prefs)@
            })
        }),
        !old(prefs)@.sets.contains_key(old_set.id) ==> r == Err::<SCNetworkSet, EngineError>(EngineError::NotFound)
            && final(prefs)@ == old(prefs)@,
        old(prefs)@.sets.contains_key(old_set.id) && old(prefs)@.next_id == u64::MAX ==> (r matches Err(
            EngineError::StoreCallFailed { operation: op, last_error: e },
        ) && op == StoreOperation::CreateUniqueChild && e@ == STATUS_FAILED),
        old(prefs)@.sets.contains_key(old_set.id) && old(prefs)@.next_id == u64::MAX ==> final(prefs)@ == (PreferencesView {
            last_error: STATUS_FAILED,
            ..old(prefs)@
        }),
{
    let mut copy = match prefs.find_set(old_set.id) {
        Some(s) => s,
        None => return Err(EngineError::NotFound),
    };
    copy.attributes.set(user_defined_name_key().to_owned(), Value::Text(new_set_name));
    marked_as_owned(&mut copy.attributes);
    let new_id = match prefs.create_unique_child(Collection::Sets) {
        Some(id) => id,
        None => return Err(store_failure(prefs, StoreOperation::CreateUniqueChild)),
    };
    copy.id = new_id;
    proof {
        old(prefs).lemma_fresh();
        assert forall|k: int| 0 <= k < copy@.services.len() implies #[trigger] copy@.services[k] < prefs@.next_id by {
            assert(copy@.services[k] < old(prefs)@.next_id);
        }
    }
    if !prefs.set_set_value(&copy) {
        return Err(store_failure(prefs, StoreOperation::SetValue));
    }
    proof {
        assert(prefs@.sets =~= old(prefs)@.sets.insert(new_id, copy@));
    }
    match prefs.find_set(new_id) {
        Some(s) => Ok(s),
        None => Err(EngineError::InvariantViolated),
    }
}

} // verus!
