//! A session on the preference store: whole-document reads and writes at entity paths, unique
//! child allocation, and the catalog of interfaces the store has discovered.
//!
//! Writes are visible to later reads of the same session; making them durable is the caller's
//! commit, outside this session.
use vstd::prelude::*;
use crate::dictionary::Dictionary;
use crate::error::{Error, STATUS_FAILED, STATUS_INVALID_ARGUMENT, STATUS_KEY_EXISTS, STATUS_NO_KEY};
use crate::keyed::{
    Keyed, keyed_map, lemma_keyed_dom, lemma_keyed_find, lemma_keyed_index, lemma_keyed_push,
    lemma_keyed_remove, lemma_keyed_update, unique_keys,
};
use crate::model::{
    InterfaceView, SCNetworkInterface, SCNetworkService, SCNetworkSet, ServiceView, SetView,
};

verus! {

impl Keyed for SCNetworkService {
    open spec fn key(&self) -> u64 {
        self.id
    }
}

impl Keyed for SCNetworkSet {
    open spec fn key(&self) -> u64 {
        self.id
    }
}

/// The collections of the store, addressed as `/Sets/{id}` and `/NetworkServices/{id}`.
#[derive(Debug, Clone, Copy, PartialEq, Eq, Structural)]
pub enum Collection {
    Sets,
    NetworkServices,
}

/// The content of a freshly allocated service path.
pub open spec fn empty_service() -> ServiceView {
    ServiceView {
        enabled: true,
        interface: None,
        protocols: Seq::empty(),
        attributes: Map::empty(),
    }
}

/// The content of a freshly allocated set path.
pub open spec fn empty_set() -> SetView {
    SetView { services: Seq::empty(), service_order: Seq::empty(), attributes: Map::empty() }
}

/// Every id of the list is below `n`.
pub open spec fn ids_below(s: Seq<u64>, n: u64) -> bool {
    forall|k: int| 0 <= k < s.len() ==> #[trigger] s[k] < n
}

/// Whether every id of the list is below `n`.
pub fn all_below(v: &Vec<u64>, n: u64) -> (r: bool)
    ensures
        r == ids_below(v@, n),
{
    let mut k: usize = 0;
    while k < v.len()
        invariant
            k <= v@.len(),
            forall|j: int| 0 <= j < k ==> #[trigger] v@[j] < n,
        decreases v@.len() - k,
    {
        if v[k] >= n {
            return false;
        }
        k = k + 1;
    }
    true
}

/// What a session holds.
pub struct PreferencesView {
    pub services: Map<u64, ServiceView>,
    pub sets: Map<u64, SetView>,
    pub interfaces: Seq<InterfaceView>,
    pub current_set: Option<u64>,
    pub next_id: u64,
    pub last_error: i32,
}

/// A session on the preference store.
#[derive(Debug)]
pub struct SCPreferences {
    services: Vec<SCNetworkService>,
    sets: Vec<SCNetworkSet>,
    interfaces: Vec<SCNetworkInterface>,
    current_set: Option<u64>,
    next_id: u64,
    last_error: i32,
}

/// The views of a list of interfaces.
pub open spec fn interface_views(v: Seq<SCNetworkInterface>) -> Seq<InterfaceView> {
    v.map_values(|i: SCNetworkInterface| i@)
}

impl View for SCPreferences {
    type V = PreferencesView;

    closed spec fn view(&self) -> PreferencesView {
        PreferencesView {
            services: keyed_map(self.services@),
            sets: keyed_map(self.sets@),
            interfaces: interface_views(self.interfaces@),
            current_set: self.current_set,
            next_id: self.next_id,
            last_error: self.last_error,
        }
    }
}

impl SCPreferences {
    /// The session's internal consistency: ids are unique and below the next id to allocate,
    /// and the current set, if any, exists.
    pub closed spec fn wf(&self) -> bool {
        &&& unique_keys(self.services@)
        &&& unique_keys(self.sets@)
        &&& forall|i: int| 0 <= i < self.services@.len() ==> (#[trigger] self.services@[i]).id < self.next_id
        &&& forall|i: int| 0 <= i < self.sets@.len() ==> (#[trigger] self.sets@[i]).id < self.next_id
        &&& forall|i: int| 0 <= i < self.sets@.len() ==> ids_below((#[trigger] self.sets@[i]).services@, self.next_id)
        &&& self.current_set.is_some() ==> keyed_map(self.sets@).contains_key(self.current_set.unwrap())
    }

    /// Every id in use is below the next id to allocate.
    pub proof fn lemma_fresh(&self)
        requires
            self.wf(),
        ensures
            !self@.services.contains_key(self@.next_id),
            !self@.sets.contains_key(self@.next_id),
            forall|k: u64| #[trigger] self@.services.contains_key(k) ==> k < self@.next_id,
            forall|k: u64| #[trigger] self@.sets.contains_key(k) ==> k < self@.next_id,
            forall|k: u64| #[trigger] self@.sets.contains_key(k) ==> ids_below(self@.sets[k].services, self@.next_id),
    {
        lemma_keyed_dom(self.services@, self.next_id);
        lemma_keyed_dom(self.sets@, self.next_id);
        assert forall|k: u64| #[trigger] self@.services.contains_key(k) implies k < self.next_id by {
            lemma_keyed_dom(self.services@, k);
        }
        assert forall|k: u64| #[trigger] self@.sets.contains_key(k) implies k < self.next_id by {
            lemma_keyed_dom(self.sets@, k);
        }
        assert forall|k: u64| #[trigger] self@.sets.contains_key(k) implies ids_below(
            self@.sets[k].services,
            self@.next_id,
        ) by {
            let i = lemma_keyed_find(self.sets@, k);
        }
    }

    /// An empty session.
    pub fn new() -> (r: SCPreferences)
        ensures
            r.wf(),
            r@.services == Map::<u64, ServiceView>::empty(),
            r@.sets == Map::<u64, SetView>::empty(),
            r@.interfaces == Seq::<InterfaceView>::empty(),
            r@.current_set.is_none(),
            r@.next_id == 1,
            r@.last_error == 0,
    {
        let r = SCPreferences {
            services: Vec::new(),
            sets: Vec::new(),
            interfaces: Vec::new(),
            current_set: None,
            next_id: 1,
            last_error: 0,
        };
        proof {
            assert(interface_views(r.interfaces@) =~= Seq::<InterfaceView>::empty());
        }
        r
    }

    /// Records an interface the store has discovered.
    pub fn add_interface(&mut self, interface: SCNetworkInterface)
        requires
            old(self).wf(),
        ensures
            final(self).wf(),
            final(self)@ == (PreferencesView {
                interfaces: old(self)@.interfaces.push(interface@),
                ..old(self)@
            }),
    {
        let ghost before = self.interfaces@;
        self.interfaces.push(interface);
        proof {
            assert(interface_views(self.interfaces@) =~= interface_views(before).push(interface@));
        }
    }

    /// Loads an existing service under its own id. Fails when the id is taken or is the
    /// largest id.
    pub fn insert_service(&mut self, service: SCNetworkService) -> (r: bool)
        requires
            old(self).wf(),
        ensures
            final(self).wf(),
            r == (!old(self)@.services.contains_key(service.id) && service.id < u64::MAX),
            r ==> final(self)@ == (PreferencesView {
                services: old(self)@.services.insert(service.id, service@),
                next_id: if service.id < old(self)@.next_id { old(self)@.next_id } else { (service.id + 1) as u64 },
                ..old(self)@
            }),
            !r ==> final(self)@ == (PreferencesView { last_error: STATUS_KEY_EXISTS, ..old(self)@ }),
    {
        proof {
            lemma_keyed_dom(self.services@, service.id);
        }
        if service.id == u64::MAX || self.find_service_index(service.id).is_some() {
            self.last_error = STATUS_KEY_EXISTS;
            return false;
        }
        if service.id >= self.next_id {
            self.next_id = service.id + 1;
        }
        let ghost before = self.services@;
        proof {
            lemma_keyed_push(before, service);
        }
        self.services.push(service);
        proof {
            assert(self.services@ == before.push(service));
            assert forall|i: int| 0 <= i < self.services@.len() implies (#[trigger] self.services@[i]).id
                < self.next_id by {
                if i < before.len() {
                    assert(self.services@[i] == before[i]);
                }
            }
        }
        true
    }

    /// Loads an existing set under its own id. Fails when the id is taken or is the largest id,
    /// and when a member id is not below the next id to allocate after loading.
    pub fn insert_set(&mut self, set: SCNetworkSet) -> (r: bool)
        requires
            old(self).wf(),
        ensures
            final(self).wf(),
            r == (!old(self)@.sets.contains_key(set.id) && set.id < u64::MAX && ids_below(
                set@.services,
                if set.id < old(self)@.next_id { old(self)@.next_id } else { (set.id + 1) as u64 },
            )),
            r ==> final(self)@ == (PreferencesView {
                sets: old(self)@.sets.insert(set.id, set@),
                next_id: if set.id < old(self)@.next_id { old(self)@.next_id } else { (set.id + 1) as u64 },
                ..old(self)@
            }),
            !r && (old(self)@.sets.contains_key(set.id) || set.id == u64::MAX) ==> final(self)@ == (PreferencesView {
                last_error: STATUS_KEY_EXISTS,
                ..old(self)@
            }),
            !r && !(old(self)@.sets.contains_key(set.id) || set.id == u64::MAX) ==> final(self)@ == (PreferencesView {
                last_error: STATUS_INVALID_ARGUMENT,
                ..old(self)@
            }),
    {
        proof {
            lemma_keyed_dom(self.sets@, set.id);
        }
        if set.id == u64::MAX || self.find_set_index(set.id).is_some() {
            self.last_error = STATUS_KEY_EXISTS;
            return false;
        }
        let next = if set.id >= self.next_id { set.id + 1 } else { self.next_id };
        if !all_below(&set.services, next) {
            self.last_error = STATUS_INVALID_ARGUMENT;
            return false;
        }
        let ghost old_next = self.next_id;
        self.next_id = next;
        let ghost before = self.sets@;
        proof {
            lemma_keyed_push(before, set);
        }
        self.sets.push(set);
        proof {
            assert(self.sets@ == before.push(set));
            assert forall|i: int| 0 <= i < self.sets@.len() implies (#[trigger] self.sets@[i]).id
                < self.next_id by {
                if i < before.len() {
                    assert(self.sets@[i] == before[i]);
                }
            }
            assert forall|i: int| 0 <= i < self.sets@.len() implies ids_below(
                (#[trigger] self.sets@[i]).services@,
                self.next_id,
            ) by {
                if i < before.len() {
                    assert(self.sets@[i] == before[i]);
                    assert(ids_below(before[i].services@, old_next));
                }
            }
        }
        true
    }

    fn find_service_index(&self, id: u64) -> (r: Option<usize>)
        requires
            self.wf(),
        ensures
            r.is_some() == self@.services.contains_key(id),
            r.is_some() ==> r.unwrap() < self.services@.len() && self.services@[r.unwrap() as int].id == id,
    {
        let mut i: usize = 0;
        while i < self.services.len()
            invariant
                i <= self.services@.len(),
                forall|j: int| 0 <= j < i ==> (#[trigger] self.services@[j]).id != id,
            decreases self.services@.len() - i,
        {
            if self.services[i].id == id {
                proof {
                    lemma_keyed_dom(self.services@, id);
                }
                return Some(i);
            }
            i = i + 1;
        }
        proof {
            lemma_keyed_dom(self.services@, id);
        }
        None
    }

    fn find_set_index(&self, id: u64) -> (r: Option<usize>)
        requires
            self.wf(),
        ensures
            r.is_some() == self@.sets.contains_key(id),
            r.is_some() ==> r.unwrap() < self.sets@.len() && self.sets@[r.unwrap() as int].id == id,
    {
        let mut i: usize = 0;
        while i < self.sets.len()
            invariant
                i <= self.sets@.len(),
                forall|j: int| 0 <= j < i ==> (#[trigger] self.sets@[j]).id != id,
            decreases self.sets@.len() - i,
        {
            if self.sets[i].id == id {
                proof {
                    lemma_keyed_dom(self.sets@, id);
                }
                return Some(i);
            }
            i = i + 1;
        }
        proof {
            lemma_keyed_dom(self.sets@, id);
        }
        None
    }

    /// A fresh handle on the service with id `id`, if there is one.
    pub fn find_service(&self, id: u64) -> (r: Option<SCNetworkService>)
        requires
            self.wf(),
        ensures
            r.is_some() == self@.services.contains_key(id),
            r.is_some() ==> r.unwrap().id == id && r.unwrap()@ == self@.services[id],
    {
        match self.find_service_index(id) {
            Some(i) => {
                proof {
                    lemma_keyed_index(self.services@, i as int);
                }
                Some(self.services[i].duplicate())
            },
            None => None,
        }
    }

    /// A fresh handle on the set with id `id`, if there is one.
    pub fn find_set(&self, id: u64) -> (r: Option<SCNetworkSet>)
        requires
            self.wf(),
        ensures
            r.is_some() == self@.sets.contains_key(id),
            r.is_some() ==> r.unwrap().id == id && r.unwrap()@ == self@.sets[id],
    {
        match self.find_set_index(id) {
            Some(i) => {
                proof {
                    lemma_keyed_index(self.sets@, i as int);
                }
                Some(self.sets[i].duplicate())
            },
            None => None,
        }
    }

    /// Replaces the whole content stored at the service's path. Fails, and changes nothing
    /// but the last error, when no service has that id.
    pub fn set_service_value(&mut self, service: &SCNetworkService) -> (r: bool)
        requires
            old(self).wf(),
        ensures
            final(self).wf(),
            r == old(self)@.services.contains_key(service.id),
            r ==> final(self)@ == (PreferencesView {
                services: old(self)@.services.insert(service.id, service@),
                ..old(self)@
            }),
            !r ==> final(self)@ == (PreferencesView { last_error: STATUS_NO_KEY, ..old(self)@ }),
    {
        match self.find_service_index(service.id) {
            Some(i) => {
                let copy = service.duplicate();
                let ghost before = self.services@;
                proof {
                    lemma_keyed_update(before, i as int, copy);
                }
                self.services.set(i, copy);
                proof {
                    assert forall|j: int| 0 <= j < self.services@.len() implies (#[trigger] self.services@[j]).id
                        < self.next_id by {
                        assert(self.services@[j].id == before[j].id);
                    }
                }
                true
            },
            None => {
                self.last_error = STATUS_NO_KEY;
                false
            },
        }
    }

    /// Replaces the whole content stored at the set's path. Fails, and changes nothing but the
    /// last error, when no set has that id.
    pub fn set_set_value(&mut self, set: &SCNetworkSet) -> (r: bool)
        requires
            old(self).wf(),
        ensures
            final(self).wf(),
            r == (old(self)@.sets.contains_key(set.id) && ids_below(set@.services, old(self)@.next_id)),
            r ==> final(self)@ == (PreferencesView {
                sets: old(self)@.sets.insert(set.id, set@),
                ..old(self)@
            }),
            !r && !old(self)@.sets.contains_key(set.id) ==> final(self)@ == (PreferencesView {
                last_error: STATUS_NO_KEY,
                ..old(self)@
            }),
            !r && old(self)@.sets.contains_key(set.id) ==> final(self)@ == (PreferencesView {
                last_error: STATUS_INVALID_ARGUMENT,
                ..old(self)@
            }),
    {
        match self.find_set_index(set.id) {
            Some(i) => {
                if !all_below(&set.services, self.next_id) {
                    self.last_error = STATUS_INVALID_ARGUMENT;
                    return false;
                }
                let copy = set.duplicate();
                let ghost before = self.sets@;
                proof {
                    lemma_keyed_update(before, i as int, copy);
                }
                self.sets.set(i, copy);
                proof {
                    assert forall|j: int| 0 <= j < self.sets@.len() implies (#[trigger] self.sets@[j]).id
                        < self.next_id by {
                        assert(self.sets@[j].id == before[j].id);
                    }
                    assert forall|j: int| 0 <= j < self.sets@.len() implies ids_below(
                        (#[trigger] self.sets@[j]).services@,
                        self.next_id,
                    ) by {
                        if j != i {
                            assert(self.sets@[j] == before[j]);
                        }
                    }
                    lemma_keyed_dom(before, set.id);
                }
                true
            },
            None => {
                self.last_error = STATUS_NO_KEY;
                false
            },
        }
    }

    /// Allocates a fresh, empty child path in a collection and returns its id. Fails, and
    /// changes nothing but the last error, once the ids are exhausted.
    pub fn create_unique_child(&mut self, collection: Collection) -> (r: Option<u64>)
        requires
            old(self).wf(),
        ensures
            final(self).wf(),
            r.is_some() == (old(self)@.next_id < u64::MAX),
            r.is_some() ==> r.unwrap() == old(self)@.next_id,
            r.is_some() ==> !old(self)@.services.contains_key(r.unwrap())
                && !old(self)@.sets.contains_key(r.unwrap()),
            r.is_some() && collection == Collection::NetworkServices ==> final(self)@ == (PreferencesView {
                services: old(self)@.services.insert(r.unwrap(), empty_service()),
                next_id: (old(self)@.next_id + 1) as u64,
                ..old(self)@
            }),
            r.is_some() && collection == Collection::Sets ==> final(self)@ == (PreferencesView {
                sets: old(self)@.sets.insert(r.unwrap(), empty_set()),
                next_id: (old(self)@.next_id + 1) as u64,
                ..old(self)@
            }),
            r.is_none() ==> final(self)@ == (PreferencesView { last_error: STATUS_FAILED, ..old(self)@ }),
    {
        proof {
            self.lemma_fresh();
        }
        if self.next_id == u64::MAX {
            self.last_error = STATUS_FAILED;
            return None;
        }
        let id = self.next_id;
        match collection {
            Collection::NetworkServices => {
                let fresh = SCNetworkService {
                    id,
                    enabled: true,
                    interface: None,
                    protocols: Vec::new(),
                    attributes: Dictionary::new(),
                };
                let ghost before = self.services@;
                proof {
                    lemma_keyed_push(before, fresh);
                    assert(fresh@.protocols =~= Seq::empty());
                    assert(fresh@ == empty_service());
                }
                self.services.push(fresh);
                proof {
                    assert(self.services@ == before.push(fresh));
                    assert forall|i: int| 0 <= i < self.services@.len() implies (#[trigger] self.services@[i]).id
                        < id + 1 by {
                        if i < before.len() {
                            assert(self.services@[i] == before[i]);
                        }
                    }
                }
            },
            Collection::Sets => {
                let fresh = SCNetworkSet {
                    id,
                    services: Vec::new(),
                    service_order: Vec::new(),
                    attributes: Dictionary::new(),
                };
                let ghost before = self.sets@;
                proof {
                    lemma_keyed_push(before, fresh);
                    assert(fresh@ =~= empty_set());
                }
                self.sets.push(fresh);
                proof {
                    assert(self.sets@ == before.push(fresh));
                    assert forall|i: int| 0 <= i < self.sets@.len() implies (#[trigger] self.sets@[i]).id < id
                        + 1 by {
                        if i < before.len() {
                            assert(self.sets@[i] == before[i]);
                        }
                    }
                    lemma_keyed_dom(before, self.current_set.unwrap_or(0));
                    lemma_keyed_dom(self.sets@, self.current_set.unwrap_or(0));
                }
            },
        }
        self.next_id = id + 1;
        Some(id)
    }

    /// Removes a service from the store. Fails, and changes nothing but the last error, when
    /// no service has that id.
    pub fn remove_service(&mut self, id: u64) -> (r: bool)
        requires
            old(self).wf(),
        ensures
            final(self).wf(),
            r == old(self)@.services.contains_key(id),
            r ==> final(self)@ == (PreferencesView {
                services: old(self)@.services.remove(id),
                ..old(self)@
            }),
            !r ==> final(self)@ == (PreferencesView { last_error: STATUS_NO_KEY, ..old(self)@ }),
    {
        match self.find_service_index(id) {
            Some(i) => {
                let ghost before = self.services@;
                proof {
                    lemma_keyed_remove(before, i as int);
                }
                self.services.remove(i);
                proof {
                    assert forall|j: int| 0 <= j < self.services@.len() implies (#[trigger] self.services@[j]).id
                        < self.next_id by {
                        if j < i {
                            assert(self.services@[j] == before[j]);
                        } else {
                            assert(self.services@[j] == before[j + 1]);
                        }
                    }
                }
                true
            },
            None => {
                self.last_error = STATUS_NO_KEY;
                false
            },
        }
    }

    /// Removes a set from the store; when it was the current set, no set is current
    /// afterwards. Fails, and changes nothing but the last error, when no set has that id.
    pub fn remove_set(&mut self, id: u64) -> (r: bool)
        requires
            old(self).wf(),
        ensures
            final(self).wf(),
            r == old(self)@.sets.contains_key(id),
            r ==> final(self)@ == (PreferencesView {
                sets: old(self)@.sets.remove(id),
                current_set: if old(self)@.current_set == Some(id) { None } else { old(self)@.current_set },
                ..old(self)@
            }),
            !r ==> final(self)@ == (PreferencesView { last_error: STATUS_NO_KEY, ..old(self)@ }),
    {
        match self.find_set_index(id) {
            Some(i) => {
                let ghost before = self.sets@;
                proof {
                    lemma_keyed_remove(before, i as int);
                }
                self.sets.remove(i);
                if self.current_set == Some(id) {
                    self.current_set = None;
                }
                proof {
                    assert forall|j: int| 0 <= j < self.sets@.len() implies (#[trigger] self.sets@[j]).id
                        < self.next_id by {
                        if j < i {
                            assert(self.sets@[j] == before[j]);
                        } else {
                            assert(self.sets@[j] == before[j + 1]);
                        }
                    }
                }
                true
            },
            None => {
                self.last_error = STATUS_NO_KEY;
                false
            },
        }
    }

    /// The current set's id, if a set is current.
    pub fn current_set(&self) -> (r: Option<u64>)
        requires
            self.wf(),
        ensures
            r == self@.current_set,
            r.is_some() ==> self@.sets.contains_key(r.unwrap()),
    {
        self.current_set
    }

    /// Makes a set the current one. Fails, and changes nothing but the last error, when no set
    /// has that id.
    pub fn set_current(&mut self, id: u64) -> (r: bool)
        requires
            old(self).wf(),
        ensures
            final(self).wf(),
            r == old(self)@.sets.contains_key(id),
            r ==> final(self)@ == (PreferencesView { current_set: Some(id), ..old(self)@ }),
            !r ==> final(self)@ == (PreferencesView { last_error: STATUS_NO_KEY, ..old(self)@ }),
    {
        if self.find_set_index(id).is_some() {
            self.current_set = Some(id);
            true
        } else {
            self.last_error = STATUS_NO_KEY;
            false
        }
    }

    /// The ids of all services, each once.
    pub fn service_ids(&self) -> (r: Vec<u64>)
        requires
            self.wf(),
        ensures
            r@.no_duplicates(),
            forall|id: u64| r@.contains(id) <==> self@.services.contains_key(id),
    {
        let mut out: Vec<u64> = Vec::new();
        let mut i: usize = 0;
        while i < self.services.len()
            invariant
                i <= self.services@.len(),
                out@.len() == i,
                forall|j: int| 0 <= j < i ==> out@[j] == (#[trigger] self.services@[j]).id,
            decreases self.services@.len() - i,
        {
            out.push(self.services[i].id);
            i = i + 1;
        }
        proof {
            assert forall|a: int, b: int| 0 <= a < out@.len() && 0 <= b < out@.len() && a != b implies out@[a]
                != out@[b] by {
                assert(out@[a] == self.services@[a].id && out@[b] == self.services@[b].id);
            }
            assert forall|id: u64| out@.contains(id) <==> self@.services.contains_key(id) by {
                lemma_keyed_dom(self.services@, id);
                if out@.contains(id) {
                    let j = choose|j: int| 0 <= j < out@.len() && out@[j] == id;
                    assert(self.services@[j].id == id);
                }
                if self@.services.contains_key(id) {
                    let j = choose|j: int| 0 <= j < self.services@.len() && (#[trigger] self.services@[j]).id == id;
                    assert(out@[j] == id);
                }
            }
        }
        out
    }

    /// The ids of all sets, each once.
    pub fn set_ids(&self) -> (r: Vec<u64>)
        requires
            self.wf(),
        ensures
            r@.no_duplicates(),
            forall|id: u64| r@.contains(id) <==> self@.sets.contains_key(id),
    {
        let mut out: Vec<u64> = Vec::new();
        let mut i: usize = 0;
        while i < self.sets.len()
            invariant
                i <= self.sets@.len(),
                out@.len() == i,
                forall|j: int| 0 <= j < i ==> out@[j] == (#[trigger] self.sets@[j]).id,
            decreases self.sets@.len() - i,
        {
            out.push(self.sets[i].id);
            i = i + 1;
        }
        proof {
            assert forall|a: int, b: int| 0 <= a < out@.len() && 0 <= b < out@.len() && a != b implies out@[a]
                != out@[b] by {
                assert(out@[a] == self.sets@[a].id && out@[b] == self.sets@[b].id);
            }
            assert forall|id: u64| out@.contains(id) <==> self@.sets.contains_key(id) by {
                lemma_keyed_dom(self.sets@, id);
                if out@.contains(id) {
                    let j = choose|j: int| 0 <= j < out@.len() && out@[j] == id;
                    assert(self.sets@[j].id == id);
                }
                if self@.sets.contains_key(id) {
                    let j = choose|j: int| 0 <= j < self.sets@.len() && (#[trigger] self.sets@[j]).id == id;
                    assert(out@[j] == id);
                }
            }
        }
        out
    }

    /// Copies of all interfaces the store has discovered, in discovery order.
    pub fn interfaces(&self) -> (r: Vec<SCNetworkInterface>)
        requires
            self.wf(),
        ensures
            interface_views(r@) == self@.interfaces,
    {
        let mut out: Vec<SCNetworkInterface> = Vec::new();
        let mut i: usize = 0;
        while i < self.interfaces.len()
            invariant
                i <= self.interfaces@.len(),
                interface_views(out@) =~= interface_views(self.interfaces@.take(i as int)),
            decreases self.interfaces@.len() - i,
        {
            let c = self.interfaces[i].duplicate();
            let ghost before = out@;
            out.push(c);
            proof {
                assert(out@ == before.push(c));
                assert(self.interfaces@.take(i + 1) =~= self.interfaces@.take(i as int).push(self.interfaces@[i as int]));
                assert(interface_views(out@) =~= interface_views(before).push(c@));
                assert(interface_views(self.interfaces@.take(i + 1)) =~= interface_views(
                    self.interfaces@.take(i as int),
                ).push(self.interfaces@[i as int]@));
            }
            i = i + 1;
        }
        proof {
            assert(self.interfaces@.take(self.interfaces@.len() as int) =~= self.interfaces@);
        }
        out
    }

    /// Records the status of a call that failed.
    pub fn record_failure(&mut self, code: i32)
        requires
            old(self).wf(),
        ensures
            final(self).wf(),
            final(self)@ == (PreferencesView { last_error: code, ..old(self)@ }),
    {
        self.last_error = code;
    }

    /// The status of the last failed store call.
    pub fn last_error(&self) -> (r: Error)
        ensures
            r@ == (if self@.last_error == 0 { 1 } else { self@.last_error }),
    {
        Error::from_code(self.last_error)
    }
}

} // verus!
