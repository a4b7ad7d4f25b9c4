//! Removal of the entities that earlier runs created and left behind.
use vstd::prelude::*;
use crate::cloner::{has_ownership_tag, is_owned, store_failure};
use crate::error::{EngineError, StoreOperation};
use crate::model::duplicate_ids;
use crate::reconciler::lemma_take_contains;
use crate::store::{PreferencesView, SCPreferences};

verus! {

/// The services the current set names as members; none when no set is current.
pub open spec fn referenced(p: PreferencesView) -> Seq<u64> {
    match p.current_set {
        Some(c) => p.sets[c].services,
        None => Seq::empty(),
    }
}

/// Whether the pruner removes the set `id`: it carries the ownership tag.
pub open spec fn stale_set(p: PreferencesView, id: u64) -> bool {
    is_owned(p.sets[id].attributes)
}

/// Whether the pruner removes the service `id`: it carries the ownership tag and the current
/// set does not name it as a member.
pub open spec fn stale_service(p: PreferencesView, id: u64) -> bool {
    is_owned(p.services[id].attributes) && !referenced(p).contains(id)
}

/// The services that pruning leaves: those that are not stale, as they were.
pub open spec fn pruned_services(p: PreferencesView) -> Map<u64, crate::model::ServiceView> {
    Map::new(|id: u64| p.services.contains_key(id) && !stale_service(p, id), |id: u64| p.services[id])
}

/// The sets that pruning leaves: those that are not stale, as they were.
pub open spec fn pruned_sets(p: PreferencesView) -> Map<u64, crate::model::SetView> {
    Map::new(|id: u64| p.sets.contains_key(id) && !stale_set(p, id), |id: u64| p.sets[id])
}

/// Whether an id is in a list.
fn contains_id(v: &Vec<u64>, id: u64) -> (r: bool)
    ensures
        r == v@.contains(id),
{
    let mut k: usize = 0;
    while k < v.len()
        invariant
            k <= v@.len(),
            forall|j: int| 0 <= j < k ==> v@[j] != id,
        decreases v@.len() - k,
    {
        if v[k] == id {
            return true;
        }
        k = k + 1;
    }
    false
}

/// Removes every set that carries the ownership tag, then every service that carries it and
/// is not a member of the current set. Untagged entities are never removed.
///
/// The members of the current set are read before any set is removed, so the services of a
/// tagged current set are kept although that set goes; no set is current afterwards then.
pub fn delete_old_if_exits(prefs: &mut SCPreferences) -> (r: Result<(), EngineError>)
    requires
        old(prefs).wf(),
    ensures
        final(prefs).wf(),
        r.is_ok(),
        forall|id: u64| #[trigger] final(prefs)@.sets.contains_key(id) <==> old(prefs)@.sets.contains_key(id)
            && !stale_set(old(prefs)@, id),
        forall|id: u64| #[trigger] final(prefs)@.sets.contains_key(id) ==> final(prefs)@.sets[id] == old(prefs)@.sets[id],
        forall|id: u64| #[trigger] final(prefs)@.services.contains_key(id) <==> old(prefs)@.services.contains_key(id)
            && !stale_service(old(prefs)@, id),
        forall|id: u64| #[trigger] final(prefs)@.services.contains_key(id) ==> final(prefs)@.services[id]
            == old(prefs)@.services[id],
        final(prefs)@.current_set == (match old(prefs)@.current_set {
            Some(c) => if stale_set(old(prefs)@, c) { None } else { Some(c) },
            None => None,
        }),
        final(prefs)@.interfaces == old(prefs)@.interfaces,
        final(prefs)@.next_id == old(prefs)@.next_id,
        final(prefs)@.services == pruned_services(old(prefs)@),
        final(prefs)@.sets == pruned_sets(old(prefs)@),
{
    let ghost p0 = old(prefs)@;
    let referenced_ids: Vec<u64> = match prefs.current_set() {
        Some(c) => match prefs.find_set(c) {
            Some(s) => duplicate_ids(&s.services),
            None => Vec::new(),
        },
        None => Vec::new(),
    };
    proof {
        assert(referenced_ids@ =~= referenced(p0));
    }
    let set_ids = prefs.set_ids();
    let mut i: usize = 0;
    while i < set_ids.len()
        invariant
            prefs.wf(),
            p0 == old(prefs)@,
            i <= set_ids@.len(),
            set_ids@.no_duplicates(),
            forall|id: u64| set_ids@.contains(id) <==> p0.sets.contains_key(id),
            forall|id: u64| #[trigger] prefs@.sets.contains_key(id) <==> p0.sets.contains_key(id) && !(set_ids@.take(
                i as int,
            ).contains(id) && stale_set(p0, id)),
            forall|id: u64| #[trigger] prefs@.sets.contains_key(id) ==> prefs@.sets[id] == p0.sets[id],
            prefs@.current_set == (match p0.current_set {
                Some(c) => if set_ids@.take(i as int).contains(c) && stale_set(p0, c) { None } else { Some(c) },
                None => None,
            }),
            prefs@ == (PreferencesView {
                sets: prefs@.sets,
                current_set: prefs@.current_set,
                last_error: prefs@.last_error,
                ..p0
            }),
        decreases set_ids@.len() - i,
    {
        let id = set_ids[i];
        proof {
            assert forall|x: u64| set_ids@.take(i + 1).contains(x) == (set_ids@.take(i as int).contains(x) || x == id) by {
                lemma_take_contains(set_ids@, i as int, x);
            }
            if set_ids@.take(i as int).contains(id) {
                let j = choose|j: int| 0 <= j < i && #[trigger] set_ids@.take(i as int)[j] == id;
                assert(set_ids@[j] == set_ids@[i as int]);
            }
            assert(set_ids@.contains(id));
        }
        let set = match prefs.find_set(id) {
            Some(s) => s,
            None => return Err(EngineError::NotFound),
        };
        if has_ownership_tag(&set.attributes) {
            if !prefs.remove_set(id) {
                return Err(store_failure(prefs, StoreOperation::RemoveSet));
            }
        }
        i = i + 1;
    }
    proof {
        assert(set_ids@.take(set_ids@.len() as int) =~= set_ids@);
    }
    let ghost p1 = prefs@;
    let service_ids = prefs.service_ids();
    let mut i: usize = 0;
    while i < service_ids.len()
        invariant
            prefs.wf(),
            p0 == old(prefs)@,
            referenced_ids@ == referenced(p0),
            i <= service_ids@.len(),
            service_ids@.no_duplicates(),
            forall|id: u64| service_ids@.contains(id) <==> p0.services.contains_key(id),
            forall|id: u64| #[trigger] prefs@.services.contains_key(id) <==> p0.services.contains_key(id)
                && !(service_ids@.take(i as int).contains(id) && stale_service(p0, id)),
            forall|id: u64| #[trigger] prefs@.services.contains_key(id) ==> prefs@.services[id] == p0.services[id],
            prefs@ == (PreferencesView { services: prefs@.services, last_error: prefs@.last_error, ..p1 }),
        decreases service_ids@.len() - i,
    {
        let id = service_ids[i];
        proof {
            assert forall|x: u64| service_ids@.take(i + 1).contains(x) == (service_ids@.take(i as int).contains(x)
                || x == id) by {
                lemma_take_contains(service_ids@, i as int, x);
            }
            if service_ids@.take(i as int).contains(id) {
                let j = choose|j: int| 0 <= j < i && #[trigger] service_ids@.take(i as int)[j] == id;
                assert(service_ids@[j] == service_ids@[i as int]);
            }
            assert(service_ids@.contains(id));
        }
        if !contains_id(&referenced_ids, id) {
            let service = match prefs.find_service(id) {
                Some(s) => s,
                None => return Err(EngineError::NotFound),
            };
            if has_ownership_tag(&service.attributes) {
                if !prefs.remove_service(id) {
                    return Err(store_failure(prefs, StoreOperation::RemoveServiceEntity));
                }
            }
        }
        i = i + 1;
    }
    proof {
        assert(service_ids@.take(service_ids@.len() as int) =~= service_ids@);
        assert(set_ids@.take(set_ids@.len() as int) =~= set_ids@);
        assert(prefs@.services =~= pruned_services(p0));
        assert(prefs@.sets =~= pruned_sets(p0));
    }
    Ok(())
}

} // verus!
