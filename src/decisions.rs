//! What the reconciler decides for each service, and how a decision is carried out. Only the
//! presence and enablement of the IPv6 protocol are reconciled; its configuration method is
//! never written.
use vstd::prelude::*;
use crate::catalog::{
    add_network_protocol, default_protocol, find_protocol_index, has_protocol, lemma_protocol_index,
    protocol_index, set_protocol_enabled, set_service_enabled, with_protocols,
};
use crate::cloner::store_failure;
use crate::error::{EngineError, STATUS_KEY_EXISTS, StoreOperation};
use crate::kinds::{SCNetworkInterfaceType, SCNetworkProtocolType, protocol_type_id};
use crate::model::{ProtocolView, SCNetworkService, ServiceView, kind_of, supports_ipv6};
use crate::store::{PreferencesView, SCPreferences};

verus! {

/// Changes to make to the protocols of a service.
#[derive(Debug, Clone, Copy, PartialEq, Eq, Structural)]
pub enum ProtocolModifications {
    /// Add a default-configured IPv6 protocol.
    AddIPv6,
    /// Change the existing IPv6 protocol.
    ModifyIPv6 {
        /// Whether the protocol needs to be marked as enabled.
        enable: bool,
    },
}

/// Changes to make to a service.
#[derive(Debug, Clone, Copy, PartialEq, Eq, Structural)]
pub enum ServiceModifications {
    /// The service leaves the set.
    Delete,
    /// A clone of the service, changed as described, takes its place.
    Modify {
        /// Whether the service needs to be marked as enabled.
        enable: bool,
        /// Protocol changes to make.
        protocol: Option<ProtocolModifications>,
    },
}

/// The type identifier of the IPv6 protocol.
pub open spec fn ipv6_id() -> Seq<char> {
    protocol_type_id(SCNetworkProtocolType::IPv6)
}

/// The protocol changes a service needs: an IPv6 entry when it has none, enabling its first
/// IPv6 entry when that is disabled, and none otherwise.
pub open spec fn protocol_plan(s: ServiceView) -> Option<ProtocolModifications> {
    match protocol_index(s.protocols, ipv6_id()) {
        None => Some(ProtocolModifications::AddIPv6),
        Some(k) => if s.protocols[k].enabled {
            None
        } else {
            Some(ProtocolModifications::ModifyIPv6 { enable: true })
        },
    }
}

/// The decision for a service; `None` leaves it unmodified.
///
/// A service without an interface, or whose interface kind is not recognized, or whose
/// interface does not support IPv6, is left alone; one over a bridge is deleted; an enabled one
/// that needs no protocol change is left alone; any other is modified.
pub open spec fn service_plan(s: ServiceView) -> Option<ServiceModifications> {
    match s.interface {
        None => None,
        Some(i) => match kind_of(i) {
            None => None,
            Some(SCNetworkInterfaceType::Bridge) => Some(ServiceModifications::Delete),
            Some(_) => if !supports_ipv6(i) {
                None
            } else if s.enabled && protocol_plan(s).is_none() {
                None
            } else {
                Some(ServiceModifications::Modify { enable: !s.enabled, protocol: protocol_plan(s) })
            },
        },
    }
}

/// Whether a service sits on a bridge interface.
pub open spec fn on_bridge(s: ServiceView) -> bool {
    s.interface is Some && kind_of(s.interface.unwrap()) == Some(SCNetworkInterfaceType::Bridge)
}

impl ProtocolModifications {
    /// The protocol changes `service` needs.
    pub fn gather(service: &SCNetworkService) -> (r: Option<Self>)
        ensures
            r == protocol_plan(service@),
    {
        let ipv6 = SCNetworkProtocolType::IPv6.to_type_id();
        proof {
            lemma_protocol_index(service@.protocols, ipv6@);
        }
        match find_protocol_index(&service.protocols, &ipv6) {
            None => Some(ProtocolModifications::AddIPv6),
            Some(k) => {
                assert(service@.protocols[k as int] == service.protocols@[k as int]@);
                if service.protocols[k].enabled {
                    None
                } else {
                    Some(ProtocolModifications::ModifyIPv6 { enable: true })
                }
            },
        }
    }
}

impl ServiceModifications {
    /// The decision for `service`; `None` leaves it unmodified.
    pub fn gather(service: &SCNetworkService) -> (r: Option<Self>)
        ensures
            r == service_plan(service@),
    {
        let iface = match &service.interface {
            Some(i) => i,
            None => return None,
        };
        let kind = match iface.interface_type() {
            Some(k) => k,
            None => return None,
        };
        if kind == SCNetworkInterfaceType::Bridge {
            return Some(ServiceModifications::Delete);
        }
        if !iface.supports_ipv6() {
            return None;
        }
        let protocol = ProtocolModifications::gather(service);
        if service.enabled && protocol.is_none() {
            None
        } else {
            Some(ServiceModifications::Modify { enable: !service.enabled, protocol })
        }
    }
}

/// A service's content after the changes of a decision.
pub open spec fn modified(s: ServiceView, enable: bool, plan: Option<ProtocolModifications>) -> ServiceView {
    let s1 = if enable { ServiceView { enabled: true, ..s } } else { s };
    match plan {
        None => s1,
        Some(ProtocolModifications::AddIPv6) => with_protocols(s1, s1.protocols.push(default_protocol(ipv6_id()))),
        Some(ProtocolModifications::ModifyIPv6 { enable: e }) => match protocol_index(s1.protocols, ipv6_id()) {
            Some(k) if e => with_protocols(
                s1,
                s1.protocols.update(k, ProtocolView { enabled: true, ..s1.protocols[k] }),
            ),
            _ => s1,
        },
    }
}

/// Whether the changes of a decision can be made to a service: an IPv6 entry is added only
/// where there is none, and enabled only where there is one.
pub open spec fn applicable(s: ServiceView, plan: Option<ProtocolModifications>) -> bool {
    match plan {
        Some(ProtocolModifications::AddIPv6) => !has_protocol(s.protocols, ipv6_id()),
        Some(ProtocolModifications::ModifyIPv6 { enable: true }) => has_protocol(s.protocols, ipv6_id()),
        _ => true,
    }
}

/// Makes the changes of a decision to the stored service `service` and refreshes the handle.
///
/// Fails with a failed `AddProtocol` when an IPv6 entry is to be added to a service that has
/// one, and with `InvariantViolated` when an IPv6 entry is to be enabled on a service that has none.
pub fn apply_modifications(
    prefs: &mut SCPreferences,
    service: &mut SCNetworkService,
    enable_service: bool,
    proto_mods: Option<ProtocolModifications>,
) -> (r: Result<(), EngineError>)
    requires
        old(prefs).wf(),
        old(prefs)@.services.contains_key(old(service).id),
        old(service)@ == old(prefs)@.services[old(service).id],
    ensures
        final(prefs).wf(),
        final(service).id == old(service).id,
        r.is_ok() == applicable(old(service)@, proto_mods),
        r.is_ok() ==> final(service)@ == modified(old(service)@, enable_service, proto_mods),
        r.is_ok() ==> final(prefs)@ == (PreferencesView {
            services: old(prefs)@.services.insert(old(service).id, final(service)@),
            ..old(prefs)@
        }),
        proto_mods == Some(ProtocolModifications::AddIPv6) && !r.is_ok() ==> (r matches Err(
            EngineError::StoreCallFailed { operation: op, last_error: e },
        ) && op == StoreOperation::AddProtocol && e@ == STATUS_KEY_EXISTS),
        proto_mods == Some(ProtocolModifications::ModifyIPv6 { enable: true }) && !r.is_ok() ==> r == Err::<
            (),
            EngineError,
        >(EngineError::InvariantViolated),
{
    let id = service.id;
    let ghost s0 = old(service)@;
    if enable_service {
        if !set_service_enabled(prefs, id, true) {
            return Err(store_failure(prefs, StoreOperation::SetEnabled));
        }
    }
    let ghost s1 = if enable_service { ServiceView { enabled: true, ..s0 } } else { s0 };
    assert(prefs@ == (PreferencesView { services: old(prefs)@.services.insert(id, s1), ..old(prefs)@ })) by {
        if !enable_service {
            assert(old(prefs)@.services.insert(id, s1) =~= old(prefs)@.services);
        }
    }
    match proto_mods {
        None => {},
        Some(ProtocolModifications::AddIPv6) => {
            if !add_network_protocol(prefs, id, SCNetworkProtocolType::IPv6) {
                return Err(store_failure(prefs, StoreOperation::AddProtocol));
            }
        },
        Some(ProtocolModifications::ModifyIPv6 { enable: enable_proto }) => {
            if enable_proto {
                let current = match prefs.find_service(id) {
                    Some(s) => s,
                    None => return Err(EngineError::InvariantViolated),
                };
                let ipv6 = SCNetworkProtocolType::IPv6.to_type_id();
                proof {
                    lemma_protocol_index(current@.protocols, ipv6@);
                }
                if find_protocol_index(&current.protocols, &ipv6).is_none() {
                    return Err(EngineError::InvariantViolated);
                }
                if !set_protocol_enabled(prefs, id, SCNetworkProtocolType::IPv6, true) {
                    return Err(store_failure(prefs, StoreOperation::SetEnabled));
                }
            }
        },
    }
    proof {
        lemma_protocol_index(s1.protocols, ipv6_id());
        assert(prefs@.services =~= old(prefs)@.services.insert(id, modified(s0, enable_service, proto_mods)));
    }
    match prefs.find_service(id) {
        Some(s) => {
            *service = s;
            Ok(())
        },
        None => Err(EngineError::InvariantViolated),
    }
}

} // verus!
