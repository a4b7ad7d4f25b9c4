use netconf_reconciler::catalog::{add_service_to_set, user_defined_name_key};
use netconf_reconciler::dictionary::{Dictionary, Value};
use netconf_reconciler::model::{SCNetworkInterface, SCNetworkProtocol, SCNetworkService, SCNetworkSet};
use netconf_reconciler::store::{Collection, SCPreferences};

fn iface(kind: &str, bsd: &str, protocols: &[&str]) -> SCNetworkInterface {
    SCNetworkInterface {
        type_id: kind.to_string(),
        bsd_name: bsd.to_string(),
        hardware_address: String::new(),
        supported_interface_types: Vec::new(),
        supported_protocol_types: protocols.iter().map(|p| p.to_string()).collect(),
    }
}

fn named(name: &str) -> Dictionary {
    let mut d = Dictionary::new();
    d.set(user_defined_name_key().to_string(), Value::Text(name.to_string()));
    d
}

#[test]
fn network_configuration_test_get_all_interfaces() {
    let mut prefs = SCPreferences::new();
    prefs.add_interface(iface("Ethernet", "en0", &["IPv4", "IPv6"]));
    let _ = prefs.interfaces();
}

#[test]
fn mod_test_get_all_interfaces() {
    let prefs = SCPreferences::new();
    assert!(prefs.interfaces().is_empty());
}

#[test]
fn network_configuration_test_get_type() {
    let mut prefs = SCPreferences::new();
    prefs.add_interface(iface("Ethernet", "en0", &["IPv6"]));
    prefs.add_interface(iface("IEEE80211", "en1", &["IPv6"]));
    prefs.add_interface(iface("Bridge", "bridge0", &[]));
    for i in prefs.interfaces() {
        if i.interface_type().is_none() {
            panic!("Interface  {:?} ({:?}) has unrecognized type {:?}", i.bsd_name, i.bsd_name, i.type_id)
        }
    }
}

#[test]
fn mod_test_get_type() {
    let mut prefs = SCPreferences::new();
    prefs.add_interface(iface("6to4", "stf0", &[]));
    prefs.add_interface(iface("VLAN", "vlan0", &["IPv4"]));
    for i in prefs.interfaces() {
        if i.interface_type().is_none() {
            panic!("Interface  {:?} ({:?}) has unrecognized type {:?}", i.bsd_name, i.bsd_name, i.type_id)
        }
    }
}

fn prefs_with_services() -> SCPreferences {
    let mut prefs = SCPreferences::new();
    for id in [3u64, 9, 12] {
        assert!(prefs.insert_service(SCNetworkService {
            id,
            enabled: true,
            interface: Some(iface("Ethernet", "en0", &["IPv6"])),
            protocols: vec![SCNetworkProtocol {
                type_id: "IPv6".to_string(),
                enabled: true,
                configuration: Dictionary::new(),
            }],
            attributes: named("test"),
        }));
    }
    prefs
}

#[test]
fn network_configuration_test_service_order() {
    let mut prefs = prefs_with_services();
    let services = prefs.service_ids();
    let set_id = prefs.create_unique_child(Collection::Sets).unwrap();
    let set: SCNetworkSet = prefs.find_set(set_id).unwrap();
    let service_order = set.service_order;
    assert!(service_order.iter().all(|service_id| services.iter().any(|id| id == service_id)))
}

#[test]
fn mod_test_service_order() {
    let mut prefs = prefs_with_services();
    let set_id = prefs.create_unique_child(Collection::Sets).unwrap();
    assert!(add_service_to_set(&mut prefs, set_id, 9));
    let services = prefs.service_ids();
    let set = prefs.find_set(set_id).unwrap();
    assert!(set.service_order.iter().all(|service_id| services.iter().any(|id| id == service_id)));
    assert_eq!(set.services, vec![9]);
}
