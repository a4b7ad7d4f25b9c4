use netconf_reconciler::catalog::{
    add_network_protocol, add_service_to_set, create_bound_service, establish_default_configuration,
    remove_service_from_set, set_protocol_enabled, set_service_enabled,
};
use netconf_reconciler::dictionary::{Dictionary, Value};
use netconf_reconciler::error::{EngineError, Error, StoreOperation};
use netconf_reconciler::kinds::{SCNetworkInterfaceType, SCNetworkProtocolType};
use netconf_reconciler::model::{
    SCNetworkInterface, SCNetworkInterfaceMTU, SCNetworkProtocol, SCNetworkService, u32_into_u16_unchecked,
};
use netconf_reconciler::provisioner::remove_virtual_network_interfaces_bridge;
use netconf_reconciler::store::{Collection, SCPreferences};

fn iface(kind: &str, bsd: &str, protocols: &[&str]) -> SCNetworkInterface {
    SCNetworkInterface {
        type_id: kind.to_string(),
        bsd_name: bsd.to_string(),
        hardware_address: String::new(),
        supported_interface_types: vec!["PPP".to_string()],
        supported_protocol_types: protocols.iter().map(|p| p.to_string()).collect(),
    }
}

#[test]
fn interface_kinds_round_trip() {
    let all = [
        SCNetworkInterfaceType::SixToFour,
        SCNetworkInterfaceType::Bluetooth,
        SCNetworkInterfaceType::Bridge,
        SCNetworkInterfaceType::Bond,
        SCNetworkInterfaceType::Ethernet,
        SCNetworkInterfaceType::FireWire,
        SCNetworkInterfaceType::IEEE80211,
        SCNetworkInterfaceType::IPSec,
        SCNetworkInterfaceType::IrDA,
        SCNetworkInterfaceType::L2TP,
        SCNetworkInterfaceType::Modem,
        SCNetworkInterfaceType::PPP,
        SCNetworkInterfaceType::PPTP,
        SCNetworkInterfaceType::Serial,
        SCNetworkInterfaceType::VLAN,
        SCNetworkInterfaceType::WWAN,
        SCNetworkInterfaceType::IPv4,
    ];
    for k in all.iter() {
        assert_eq!(SCNetworkInterfaceType::from_type_id(&k.to_type_id()), Some(*k));
    }
    assert_eq!(SCNetworkInterfaceType::SixToFour.to_type_id(), "6to4");
    assert_eq!(SCNetworkInterfaceType::from_type_id(&"bridge".to_string()), None);
    assert_eq!(SCNetworkInterfaceType::from_type_id(&String::new()), None);
}

#[test]
fn protocol_kinds_round_trip() {
    for k in [
        SCNetworkProtocolType::DNS,
        SCNetworkProtocolType::IPv4,
        SCNetworkProtocolType::IPv6,
        SCNetworkProtocolType::Proxies,
        SCNetworkProtocolType::SMB,
    ] {
        assert_eq!(SCNetworkProtocolType::from_type_id(&k.to_type_id()), Some(k));
    }
    assert_eq!(SCNetworkProtocolType::from_type_id(&"IPv7".to_string()), None);
    let p = SCNetworkProtocol { type_id: "Proxies".to_string(), enabled: true, configuration: Dictionary::new() };
    assert_eq!(p.protocol_type(), Some(SCNetworkProtocolType::Proxies));
}

#[test]
fn interface_queries() {
    let en0 = iface("Ethernet", "en0", &["IPv4", "IPv6"]);
    assert_eq!(en0.interface_type(), Some(SCNetworkInterfaceType::Ethernet));
    assert!(en0.supports_ipv6());
    assert!(!iface("Ethernet", "en0", &["IPv4"]).supports_ipv6());
    assert!(en0.same_device(&iface("Ethernet", "en0", &[])));
    assert!(!en0.same_device(&iface("Ethernet", "en1", &["IPv4", "IPv6"])));
    let copy = en0.duplicate();
    assert_eq!(copy.supported_protocol_types, en0.supported_protocol_types);
    assert_eq!(copy.supported_interface_types, vec!["PPP".to_string()]);
}

#[test]
fn bridges_are_dropped_from_interface_lists() {
    let mut list = vec![iface("Bridge", "bridge0", &[]), iface("Ethernet", "en0", &[]), iface("Bridge", "bridge1", &[])];
    remove_virtual_network_interfaces_bridge(&mut list);
    assert_eq!(list.len(), 1);
    assert_eq!(list[0].bsd_name, "en0");
}

#[test]
fn dictionary_operations() {
    let mut d = Dictionary::new();
    assert!(!d.contains_key("k"));
    d.set("k".to_string(), Value::Integer(1));
    d.set("k".to_string(), Value::Integer(2));
    d.set("j".to_string(), Value::Bool(false));
    match d.get("k") {
        Some(Value::Integer(n)) => assert_eq!(*n, 2),
        other => panic!("unexpected {:?}", other),
    }
    let copy = d.duplicate();
    d.remove("k");
    assert!(!d.contains_key("k"));
    assert!(d.contains_key("j"));
    assert!(copy.contains_key("k"));
    assert!(d.get("k").is_none());
}

#[test]
fn error_codes_and_messages() {
    assert_eq!(Error::from_code(0).code(), 1);
    assert_eq!(Error::from_code(1004).code(), 1004);
    assert_eq!(Error::from_code(1004).message(), "No such key");
    assert_eq!(Error::from_code(1002).message(), "Invalid argument");
    assert_eq!(Error::from_code(1005).message(), "Key already defined");
    assert_eq!(Error::from_code(7).message(), "Unknown error");
    let e = EngineError::StoreCallFailed { operation: StoreOperation::SetValue, last_error: Error::from_code(1001) };
    assert_ne!(e, EngineError::InvariantViolated);
}

#[test]
fn mtu_and_narrowing() {
    let m = SCNetworkInterfaceMTU::from_reported(1500, -1, 9000);
    assert_eq!(m.mtu_cur_bytes, 1500);
    assert_eq!(m.mtu_min_bytes, None);
    assert_eq!(m.mtu_max_bytes, Some(9000));
    assert_eq!(u32_into_u16_unchecked(65535), 65535u16);
    assert_eq!(u32_into_u16_unchecked(1280), 1280u16);
}

#[test]
fn store_paths_and_ids() {
    let mut prefs = SCPreferences::new();
    let a = prefs.create_unique_child(Collection::NetworkServices).unwrap();
    let b = prefs.create_unique_child(Collection::Sets).unwrap();
    assert_ne!(a, b);
    assert!(prefs.find_service(a).is_some());
    assert!(prefs.find_set(b).is_some());
    assert!(!prefs.set_current(a + 100));
    assert_eq!(prefs.last_error().code(), 1004);
    assert!(prefs.remove_service(a));
    assert!(!prefs.remove_service(a));
    assert!(prefs.remove_set(b));
    assert!(prefs.set_ids().is_empty());
    let dup = SCNetworkService { id: 7, enabled: true, interface: None, protocols: vec![], attributes: Dictionary::new() };
    assert!(prefs.insert_service(dup));
    let again = SCNetworkService { id: 7, enabled: true, interface: None, protocols: vec![], attributes: Dictionary::new() };
    assert!(!prefs.insert_service(again));
    assert_eq!(prefs.last_error().code(), 1005);
    assert!(prefs.create_unique_child(Collection::Sets).unwrap() > 7);
}

#[test]
fn catalog_operations() {
    let mut prefs = SCPreferences::new();
    let id = create_bound_service(&mut prefs, &iface("Ethernet", "en0", &["IPv4", "IPv6", "IPv4"])).unwrap();
    assert!(add_network_protocol(&mut prefs, id, SCNetworkProtocolType::DNS));
    assert!(!add_network_protocol(&mut prefs, id, SCNetworkProtocolType::DNS));
    assert!(establish_default_configuration(&mut prefs, id));
    let kinds: Vec<String> = prefs.find_service(id).unwrap().protocols.iter().map(|p| p.type_id.clone()).collect();
    assert_eq!(kinds, vec!["DNS", "IPv4", "IPv6"]);
    assert!(set_protocol_enabled(&mut prefs, id, SCNetworkProtocolType::IPv4, false));
    assert!(!prefs.find_service(id).unwrap().protocols[1].enabled);
    assert!(!set_protocol_enabled(&mut prefs, id, SCNetworkProtocolType::SMB, true));
    assert!(set_service_enabled(&mut prefs, id, false));
    assert!(!prefs.find_service(id).unwrap().enabled);
    let bare = prefs.create_unique_child(Collection::NetworkServices).unwrap();
    assert!(!establish_default_configuration(&mut prefs, bare));
    assert_eq!(prefs.last_error().code(), 1002);
    let set = prefs.create_unique_child(Collection::Sets).unwrap();
    assert!(add_service_to_set(&mut prefs, set, id));
    assert!(!add_service_to_set(&mut prefs, set, id));
    assert!(!add_service_to_set(&mut prefs, set, 999));
    assert!(remove_service_from_set(&mut prefs, set, id));
    assert!(!remove_service_from_set(&mut prefs, set, id));
    assert!(prefs.find_set(set).unwrap().services.is_empty());
}
