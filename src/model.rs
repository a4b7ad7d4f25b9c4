//! Entities of the network configuration: interfaces, protocols, services and sets.
use vstd::prelude::*;
use crate::dictionary::{Dictionary, Value};
use crate::kinds::{
    SCNetworkInterfaceType, SCNetworkProtocolType, interface_type_of, is_ipv6_id, protocol_type_id,
    protocol_type_of,
};

verus! {

/// The text identifiers of a list, as a sequence of character sequences.
pub open spec fn texts(v: Seq<String>) -> Seq<Seq<char>> {
    v.map_values(|s: String| s@)
}

/// A copy of a list of texts.
pub fn duplicate_texts(v: &Vec<String>) -> (r: Vec<String>)
    ensures
        texts(r@) == texts(v@),
{
    let mut out: Vec<String> = Vec::new();
    let mut i: usize = 0;
    while i < v.len()
        invariant
            i <= v@.len(),
            out@ =~= v@.take(i as int),
        decreases v@.len() - i,
    {
        out.push(v[i].clone());
        i = i + 1;
    }
    proof {
        assert(v@.take(v@.len() as int) =~= v@);
    }
    out
}

/// What the engine knows of a network interface.
pub struct InterfaceView {
    pub type_id: Seq<char>,
    pub bsd_name: Seq<char>,
    pub hardware_address: Seq<char>,
    pub supported_interface_types: Seq<Seq<char>>,
    pub supported_protocol_types: Seq<Seq<char>>,
}

/// A network device the store has discovered. The engine reads interfaces and never changes them.
#[derive(Debug)]
pub struct SCNetworkInterface {
    /// The raw interface type identifier.
    pub type_id: String,
    /// The BSD name of the device, empty when it has none.
    pub bsd_name: String,
    /// The hardware address, empty when it has none.
    pub hardware_address: String,
    /// Type identifiers of the interfaces that can be layered on top of this one.
    pub supported_interface_types: Vec<String>,
    /// Type identifiers of the protocols that can be layered on top of this one.
    pub supported_protocol_types: Vec<String>,
}

impl View for SCNetworkInterface {
    type V = InterfaceView;

    open spec fn view(&self) -> InterfaceView {
        InterfaceView {
            type_id: self.type_id@,
            bsd_name: self.bsd_name@,
            hardware_address: self.hardware_address@,
            supported_interface_types: texts(self.supported_interface_types@),
            supported_protocol_types: texts(self.supported_protocol_types@),
        }
    }
}

/// The kind of an interface, `None` when its type identifier is not recognized.
pub open spec fn kind_of(i: InterfaceView) -> Option<SCNetworkInterfaceType> {
    interface_type_of(i.type_id)
}

/// Whether the IPv6 protocol can be layered on top of an interface.
pub open spec fn supports_ipv6(i: InterfaceView) -> bool {
    exists|k: int| 0 <= k < i.supported_protocol_types.len() && is_ipv6_id(#[trigger] i.supported_protocol_types[k])
}

/// Whether two interface descriptions denote the same device.
pub open spec fn same_device(a: InterfaceView, b: InterfaceView) -> bool {
    a.type_id == b.type_id && a.bsd_name == b.bsd_name
}

impl SCNetworkInterface {
    /// The kind of this interface, or `None` when its type identifier is not recognized.
    pub fn interface_type(&self) -> (r: Option<SCNetworkInterfaceType>)
        ensures
            r == kind_of(self@),
    {
        SCNetworkInterfaceType::from_type_id(&self.type_id)
    }

    /// Whether the IPv6 protocol can be layered on top of this interface.
    pub fn supports_ipv6(&self) -> (r: bool)
        ensures
            r == supports_ipv6(self@),
    {
        let ipv6 = SCNetworkProtocolType::IPv6.to_type_id();
        let mut k: usize = 0;
        while k < self.supported_protocol_types.len()
            invariant
                k <= self.supported_protocol_types@.len(),
                ipv6@ == protocol_type_id(SCNetworkProtocolType::IPv6),
                forall|j: int| 0 <= j < k ==> !is_ipv6_id(#[trigger] self@.supported_protocol_types[j]),
            decreases self.supported_protocol_types@.len() - k,
        {
            assert(self@.supported_protocol_types[k as int] == self.supported_protocol_types@[k as int]@);
            if self.supported_protocol_types[k] == ipv6 {
                assert(is_ipv6_id(self@.supported_protocol_types[k as int]));
                return true;
            }
            k = k + 1;
        }
        false
    }

    /// Whether `other` denotes the same device as this interface.
    pub fn same_device(&self, other: &SCNetworkInterface) -> (r: bool)
        ensures
            r == same_device(self@, other@),
    {
        self.type_id == other.type_id && self.bsd_name == other.bsd_name
    }

    /// A copy of this interface.
    pub fn duplicate(&self) -> (r: SCNetworkInterface)
        ensures
            r@ == self@,
    {
        SCNetworkInterface {
            type_id: self.type_id.clone(),
            bsd_name: self.bsd_name.clone(),
            hardware_address: self.hardware_address.clone(),
            supported_interface_types: duplicate_texts(&self.supported_interface_types),
            supported_protocol_types: duplicate_texts(&self.supported_protocol_types),
        }
    }
}

/// The current MTU of an interface, and the allowed range where the store could determine it.
#[derive(Debug, Clone, Copy, PartialEq, Eq, Structural)]
pub struct SCNetworkInterfaceMTU {
    pub mtu_cur_bytes: u32,
    pub mtu_min_bytes: Option<u32>,
    pub mtu_max_bytes: Option<u32>,
}

impl SCNetworkInterfaceMTU {
    /// The MTU settings from the values the store reports, where a negative bound means the
    /// bound could not be determined.
    pub fn from_reported(current: i32, min: i32, max: i32) -> (r: SCNetworkInterfaceMTU)
        requires
            current >= 0,
        ensures
            r.mtu_cur_bytes == current,
            r.mtu_min_bytes == (if min >= 0 { Some(min as u32) } else { None }),
            r.mtu_max_bytes == (if max >= 0 { Some(max as u32) } else { None }),
    {
        SCNetworkInterfaceMTU {
            mtu_cur_bytes: current as u32,
            mtu_min_bytes: if min >= 0 { Some(min as u32) } else { None },
            mtu_max_bytes: if max >= 0 { Some(max as u32) } else { None },
        }
    }
}

/// Narrows a value that fits in 16 bits.
pub fn u32_into_u16_unchecked(value: u32) -> (r: u16)
    requires
        value <= u16::MAX,
    ensures
        r == value,
{
    value as u16
}

/// What the engine knows of a protocol entry.
pub struct ProtocolView {
    pub type_id: Seq<char>,
    pub enabled: bool,
    pub configuration: Map<Seq<char>, Value>,
}

/// A protocol-specific configuration block attached to a service.
#[derive(Debug)]
pub struct SCNetworkProtocol {
    /// The raw protocol type identifier.
    pub type_id: String,
    pub enabled: bool,
    pub configuration: Dictionary,
}

impl View for SCNetworkProtocol {
    type V = ProtocolView;

    open spec fn view(&self) -> ProtocolView {
        ProtocolView {
            type_id: self.type_id@,
            enabled: self.enabled,
            configuration: self.configuration@,
        }
    }
}

impl SCNetworkProtocol {
    /// The kind of this protocol, or `None` when its type identifier is not recognized.
    pub fn protocol_type(&self) -> (r: Option<SCNetworkProtocolType>)
        ensures
            r == protocol_type_of(self@.type_id),
    {
        SCNetworkProtocolType::from_type_id(&self.type_id)
    }

    /// A copy of this protocol entry.
    pub fn duplicate(&self) -> (r: SCNetworkProtocol)
        ensures
            r@ == self@,
    {
        SCNetworkProtocol {
            type_id: self.type_id.clone(),
            enabled: self.enabled,
            configuration: self.configuration.duplicate(),
        }
    }
}

/// The views of a list of protocol entries.
pub open spec fn protocol_views(v: Seq<SCNetworkProtocol>) -> Seq<ProtocolView> {
    v.map_values(|p: SCNetworkProtocol| p@)
}

/// The persisted content of a service.
pub struct ServiceView {
    pub enabled: bool,
    pub interface: Option<InterfaceView>,
    pub protocols: Seq<ProtocolView>,
    pub attributes: Map<Seq<char>, Value>,
}

/// A binding of one interface to a list of protocols, as fetched from the store.
///
/// `id` is the service's identity in the store; the other fields are its persisted content.
#[derive(Debug)]
pub struct SCNetworkService {
    pub id: u64,
    pub enabled: bool,
    pub interface: Option<SCNetworkInterface>,
    pub protocols: Vec<SCNetworkProtocol>,
    pub attributes: Dictionary,
}

impl View for SCNetworkService {
    type V = ServiceView;

    open spec fn view(&self) -> ServiceView {
        ServiceView {
            enabled: self.enabled,
            interface: match self.interface {
                Some(i) => Some(i@),
                None => None,
            },
            protocols: protocol_views(self.protocols@),
            attributes: self.attributes@,
        }
    }
}

/// The persisted content of a set.
pub struct SetView {
    pub services: Seq<u64>,
    pub service_order: Seq<u64>,
    pub attributes: Map<Seq<char>, Value>,
}

/// A named, ordered collection of services, as fetched from the store.
///
/// `services` holds the ids of the member services and `service_order` their priority; the
/// order may name services that are no longer members and leave members out.
#[derive(Debug)]
pub struct SCNetworkSet {
    pub id: u64,
    pub services: Vec<u64>,
    pub service_order: Vec<u64>,
    pub attributes: Dictionary,
}

impl View for SCNetworkSet {
    type V = SetView;

    open spec fn view(&self) -> SetView {
        SetView {
            services: self.services@,
            service_order: self.service_order@,
            attributes: self.attributes@,
        }
    }
}

/// A copy of a list of ids.
pub fn duplicate_ids(v: &Vec<u64>) -> (r: Vec<u64>)
    ensures
        r@ == v@,
{
    let mut out: Vec<u64> = Vec::new();
    let mut i: usize = 0;
    while i < v.len()
        invariant
            i <= v@.len(),
            out@ =~= v@.take(i as int),
        decreases v@.len() - i,
    {
        out.push(v[i]);
        i = i + 1;
    }
    proof {
        assert(v@.take(v@.len() as int) =~= v@);
    }
    out
}

impl SCNetworkService {
    /// A copy of this service.
    pub fn duplicate(&self) -> (r: SCNetworkService)
        ensures
            r.id == self.id,
            r@ == self@,
    {
        let interface = match &self.interface {
            Some(i) => Some(i.duplicate()),
            None => None,
        };
        let mut protocols: Vec<SCNetworkProtocol> = Vec::new();
        let mut k: usize = 0;
        while k < self.protocols.len()
            invariant
                k <= self.protocols@.len(),
                protocol_views(protocols@) =~= protocol_views(self.protocols@.take(k as int)),
            decreases self.protocols@.len() - k,
        {
            let p = self.protocols[k].duplicate();
            let ghost before = protocols@;
            protocols.push(p);
            proof {
                assert(protocols@ =~= before.push(p));
                assert(self.protocols@.take(k + 1) =~= self.protocols@.take(k as int).push(
                    self.protocols@[k as int],
                ));
                assert(protocol_views(protocols@) =~= protocol_views(before).push(p@));
                assert(protocol_views(self.protocols@.take(k + 1)) =~= protocol_views(
                    self.protocols@.take(k as int),
                ).push(self.protocols@[k as int]@));
            }
            k = k + 1;
        }
        proof {
            assert(self.protocols@.take(self.protocols@.len() as int) =~= self.protocols@);
        }
        SCNetworkService {
            id: self.id,
            enabled: self.enabled,
            interface,
            protocols,
            attributes: self.attributes.duplicate(),
        }
    }
}

impl SCNetworkSet {
    /// The set's user-visible name, when it has one.
    pub fn name(&self) -> (r: Option<String>)
        ensures
            r.is_some() == (self@.attributes.contains_key(crate::catalog::name_key())
                && self@.attributes[crate::catalog::name_key()] is Text),
            r.is_some() ==> r.unwrap()@ == crate::catalog::text_of(self@.attributes[crate::catalog::name_key()]),
    {
        match self.attributes.get(crate::catalog::user_defined_name_key()) {
            Some(Value::Text(t)) => Some(t.clone()),
            _ => None,
        }
    }

    /// A copy of this set.
    pub fn duplicate(&self) -> (r: SCNetworkSet)
        ensures
            r.id == self.id,
            r@ == self@,
    {
        SCNetworkSet {
            id: self.id,
            services: duplicate_ids(&self.services),
            service_order: duplicate_ids(&self.service_order),
            attributes: self.attributes.duplicate(),
        }
    }
}

} // verus!
