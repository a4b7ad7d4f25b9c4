//! Interface and protocol kinds, and the type identifiers the store uses for them.
use vstd::prelude::*;

verus! {

/// The kinds of network interface the store knows about.
#[derive(Debug, Clone, Copy, PartialEq, Eq, Structural)]
pub enum SCNetworkInterfaceType {
    /// A 6to4 interface.
    SixToFour,
    /// Bluetooth interface.
    Bluetooth,
    /// Bridge interface.
    Bridge,
    /// Ethernet bond interface.
    Bond,
    /// Ethernet interface.
    Ethernet,
    /// FireWire interface.
    FireWire,
    /// IEEE80211 interface.
    IEEE80211,
    /// IPSec interface.
    IPSec,
    /// IrDA interface.
    IrDA,
    /// L2TP interface.
    L2TP,
    /// Modem interface.
    Modem,
    /// PPP interface.
    PPP,
    /// PPTP interface.
    PPTP,
    /// Serial interface.
    Serial,
    /// VLAN interface.
    VLAN,
    /// WWAN interface.
    WWAN,
    /// IPv4 interface.
    IPv4,
}

/// The kinds of protocol a service can carry.
#[derive(Debug, Clone, Copy, PartialEq, Eq, Structural)]
pub enum SCNetworkProtocolType {
    DNS,
    IPv4,
    IPv6,
    Proxies,
    SMB,
}

/// The type identifier under which the store records an interface kind.
pub open spec fn interface_type_id(t: SCNetworkInterfaceType) -> Seq<char> {
    match t {
        SCNetworkInterfaceType::SixToFour => "6to4"@,
        SCNetworkInterfaceType::Bluetooth => "Bluetooth"@,
        SCNetworkInterfaceType::Bridge => "Bridge"@,
        SCNetworkInterfaceType::Bond => "Bond"@,
        SCNetworkInterfaceType::Ethernet => "Ethernet"@,
        SCNetworkInterfaceType::FireWire => "FireWire"@,
        SCNetworkInterfaceType::IEEE80211 => "IEEE80211"@,
        SCNetworkInterfaceType::IPSec => "IPSec"@,
        SCNetworkInterfaceType::IrDA => "IrDA"@,
        SCNetworkInterfaceType::L2TP => "L2TP"@,
        SCNetworkInterfaceType::Modem => "Modem"@,
        SCNetworkInterfaceType::PPP => "PPP"@,
        SCNetworkInterfaceType::PPTP => "PPTP"@,
        SCNetworkInterfaceType::Serial => "Serial"@,
        SCNetworkInterfaceType::VLAN => "VLAN"@,
        SCNetworkInterfaceType::WWAN => "WWAN"@,
        SCNetworkInterfaceType::IPv4 => "IPv4"@,
    }
}

/// The interface kind a type identifier names, if any.
pub open spec fn interface_type_of(id: Seq<char>) -> Option<SCNetworkInterfaceType> {
    if id == "6to4"@ {
        Some(SCNetworkInterfaceType::SixToFour)
    } else if id == "Bluetooth"@ {
        Some(SCNetworkInterfaceType::Bluetooth)
    } else if id == "Bridge"@ {
        Some(SCNetworkInterfaceType::Bridge)
    } else if id == "Bond"@ {
        Some(SCNetworkInterfaceType::Bond)
    } else if id == "Ethernet"@ {
        Some(SCNetworkInterfaceType::Ethernet)
    } else if id == "FireWire"@ {
        Some(SCNetworkInterfaceType::FireWire)
    } else if id == "IEEE80211"@ {
        Some(SCNetworkInterfaceType::IEEE80211)
    } else if id == "IPSec"@ {
        Some(SCNetworkInterfaceType::IPSec)
    } else if id == "IrDA"@ {
        Some(SCNetworkInterfaceType::IrDA)
    } else if id == "L2TP"@ {
        Some(SCNetworkInterfaceType::L2TP)
    } else if id == "Modem"@ {
        Some(SCNetworkInterfaceType::Modem)
    } else if id == "PPP"@ {
        Some(SCNetworkInterfaceType::PPP)
    } else if id == "PPTP"@ {
        Some(SCNetworkInterfaceType::PPTP)
    } else if id == "Serial"@ {
        Some(SCNetworkInterfaceType::Serial)
    } else if id == "VLAN"@ {
        Some(SCNetworkInterfaceType::VLAN)
    } else if id == "WWAN"@ {
        Some(SCNetworkInterfaceType::WWAN)
    } else if id == "IPv4"@ {
        Some(SCNetworkInterfaceType::IPv4)
    } else {
        None
    }
}

/// The type identifier under which the store records a protocol kind.
pub open spec fn protocol_type_id(t: SCNetworkProtocolType) -> Seq<char> {
    match t {
        SCNetworkProtocolType::DNS => "DNS"@,
        SCNetworkProtocolType::IPv4 => "IPv4"@,
        SCNetworkProtocolType::IPv6 => "IPv6"@,
        SCNetworkProtocolType::Proxies => "Proxies"@,
        SCNetworkProtocolType::SMB => "SMB"@,
    }
}

/// The protocol kind a type identifier names, if any.
pub open spec fn protocol_type_of(id: Seq<char>) -> Option<SCNetworkProtocolType> {
    if id == "DNS"@ {
        Some(SCNetworkProtocolType::DNS)
    } else if id == "IPv4"@ {
        Some(SCNetworkProtocolType::IPv4)
    } else if id == "IPv6"@ {
        Some(SCNetworkProtocolType::IPv6)
    } else if id == "Proxies"@ {
        Some(SCNetworkProtocolType::Proxies)
    } else if id == "SMB"@ {
        Some(SCNetworkProtocolType::SMB)
    } else {
        None
    }
}

/// Whether a type identifier names the IPv6 protocol.
pub open spec fn is_ipv6_id(id: Seq<char>) -> bool {
    id == protocol_type_id(SCNetworkProtocolType::IPv6)
}

/// Whether `id` holds exactly the characters of `lit`.
fn text_is(id: &String, lit: &str) -> (r: bool)
    ensures
        r == (id@ == lit@),
{
    let owned: String = lit.to_owned();
    *id == owned
}

impl SCNetworkInterfaceType {
    /// The kind named by a type identifier, or `None` when no kind matches it.
    pub fn from_type_id(id: &String) -> (r: Option<Self>)
        ensures
            r == interface_type_of(id@),
    {
        if text_is(id, "6to4") {
            Some(SCNetworkInterfaceType::SixToFour)
        } else if text_is(id, "Bluetooth") {
            Some(SCNetworkInterfaceType::Bluetooth)
        } else if text_is(id, "Bridge") {
            Some(SCNetworkInterfaceType::Bridge)
        } else if text_is(id, "Bond") {
            Some(SCNetworkInterfaceType::Bond)
        } else if text_is(id, "Ethernet") {
            Some(SCNetworkInterfaceType::Ethernet)
        } else if text_is(id, "FireWire") {
            Some(SCNetworkInterfaceType::FireWire)
        } else if text_is(id, "IEEE80211") {
            Some(SCNetworkInterfaceType::IEEE80211)
        } else if text_is(id, "IPSec") {
            Some(SCNetworkInterfaceType::IPSec)
        } else if text_is(id, "IrDA") {
            Some(SCNetworkInterfaceType::IrDA)
        } else if text_is(id, "L2TP") {
            Some(SCNetworkInterfaceType::L2TP)
        } else if text_is(id, "Modem") {
            Some(SCNetworkInterfaceType::Modem)
        } else if text_is(id, "PPP") {
            Some(SCNetworkInterfaceType::PPP)
        } else if text_is(id, "PPTP") {
            Some(SCNetworkInterfaceType::PPTP)
        } else if text_is(id, "Serial") {
            Some(SCNetworkInterfaceType::Serial)
        } else if text_is(id, "VLAN") {
            Some(SCNetworkInterfaceType::VLAN)
        } else if text_is(id, "WWAN") {
            Some(SCNetworkInterfaceType::WWAN)
        } else if text_is(id, "IPv4") {
            Some(SCNetworkInterfaceType::IPv4)
        } else {
            None
        }
    }

    /// The type identifier of this kind.
    pub fn to_type_id(&self) -> (r: String)
        ensures
            r@ == interface_type_id(*self),
    {
        let lit: &str = match self {
            SCNetworkInterfaceType::SixToFour => "6to4",
            SCNetworkInterfaceType::Bluetooth => "Bluetooth",
            SCNetworkInterfaceType::Bridge => "Bridge",
            SCNetworkInterfaceType::Bond => "Bond",
            SCNetworkInterfaceType::Ethernet => "Ethernet",
            SCNetworkInterfaceType::FireWire => "FireWire",
            SCNetworkInterfaceType::IEEE80211 => "IEEE80211",
            SCNetworkInterfaceType::IPSec => "IPSec",
            SCNetworkInterfaceType::IrDA => "IrDA",
            SCNetworkInterfaceType::L2TP => "L2TP",
            SCNetworkInterfaceType::Modem => "Modem",
            SCNetworkInterfaceType::PPP => "PPP",
            SCNetworkInterfaceType::PPTP => "PPTP",
            SCNetworkInterfaceType::Serial => "Serial",
            SCNetworkInterfaceType::VLAN => "VLAN",
            SCNetworkInterfaceType::WWAN => "WWAN",
            SCNetworkInterfaceType::IPv4 => "IPv4",
        };
        lit.to_owned()
    }
}

impl SCNetworkProtocolType {
    /// The kind named by a type identifier, or `None` when no kind matches it.
    pub fn from_type_id(id: &String) -> (r: Option<Self>)
        ensures
            r == protocol_type_of(id@),
    {
        if text_is(id, "DNS") {
            Some(SCNetworkProtocolType::DNS)
        } else if text_is(id, "IPv4") {
            Some(SCNetworkProtocolType::IPv4)
        } else if text_is(id, "IPv6") {
            Some(SCNetworkProtocolType::IPv6)
        } else if text_is(id, "Proxies") {
            Some(SCNetworkProtocolType::Proxies)
        } else if text_is(id, "SMB") {
            Some(SCNetworkProtocolType::SMB)
        } else {
            None
        }
    }

    /// The type identifier of this kind.
    pub fn to_type_id(&self) -> (r: String)
        ensures
            r@ == protocol_type_id(*self),
    {
        let lit: &str = match self {
            SCNetworkProtocolType::DNS => "DNS",
            SCNetworkProtocolType::IPv4 => "IPv4",
            SCNetworkProtocolType::IPv6 => "IPv6",
            SCNetworkProtocolType::Proxies => "Proxies",
            SCNetworkProtocolType::SMB => "SMB",
        };
        lit.to_owned()
    }
}

} // verus!
