use netconf_reconciler::catalog::user_defined_name_key;
use netconf_reconciler::cloner::{
    has_ownership_tag, marked_as_owned, shallow_clone_network_service, shallow_clone_network_set,
};
use netconf_reconciler::decisions::{ProtocolModifications, ServiceModifications, apply_modifications};
use netconf_reconciler::dictionary::{Dictionary, Value};
use netconf_reconciler::engine::reconcile;
use netconf_reconciler::error::{EngineError, StoreOperation};
use netconf_reconciler::model::{SCNetworkInterface, SCNetworkProtocol, SCNetworkService, SCNetworkSet};
use netconf_reconciler::ordering::{get_priority_ordered_services, priority_ordered_ids};
use netconf_reconciler::provisioner::{add_missing_services, contains_network_interface, create_service};
use netconf_reconciler::pruner::delete_old_if_exits;
use netconf_reconciler::reconciler::modify_existing_services;
use netconf_reconciler::store::SCPreferences;

fn iface(kind: &str, bsd: &str, protocols: &[&str]) -> SCNetworkInterface {
    SCNetworkInterface {
        type_id: kind.to_string(),
        bsd_name: bsd.to_string(),
        hardware_address: "00:11:22:33:44:55".to_string(),
        supported_interface_types: Vec::new(),
        supported_protocol_types: protocols.iter().map(|p| p.to_string()).collect(),
    }
}

fn proto(kind: &str, enabled: bool) -> SCNetworkProtocol {
    SCNetworkProtocol { type_id: kind.to_string(), enabled, configuration: Dictionary::new() }
}

fn named(name: &str) -> Dictionary {
    let mut d = Dictionary::new();
    d.set(user_defined_name_key().to_string(), Value::Text(name.to_string()));
    d
}

fn owned_named(name: &str) -> Dictionary {
    let mut d = named(name);
    marked_as_owned(&mut d);
    d
}

fn service(id: u64, enabled: bool, interface: Option<SCNetworkInterface>, protocols: Vec<SCNetworkProtocol>, name: &str) -> SCNetworkService {
    SCNetworkService { id, enabled, interface, protocols, attributes: named(name) }
}

fn ethernet_v6(bsd: &str) -> SCNetworkInterface {
    iface("Ethernet", bsd, &["IPv4", "IPv6", "DNS"])
}

fn label(prefs: &SCPreferences, id: u64) -> String {
    let s = prefs.find_service(id).unwrap();
    match s.attributes.get(user_defined_name_key()) {
        Some(Value::Text(t)) => t.clone(),
        _ => String::new(),
    }
}

fn add_set(prefs: &mut SCPreferences, id: u64, members: Vec<u64>, order: Vec<u64>) {
    assert!(prefs.insert_set(SCNetworkSet { id, services: members, service_order: order, attributes: named("Automatic") }));
}

fn has_enabled_ipv6(s: &SCNetworkService) -> bool {
    s.protocols.iter().any(|p| p.type_id == "IPv6" && p.enabled)
}

#[test]
fn clone_leaves_source_unchanged() {
    let mut prefs = SCPreferences::new();
    assert!(prefs.insert_service(service(4, false, Some(ethernet_v6("en0")), vec![proto("IPv4", true)], "Ethernet")));
    let source = prefs.find_service(4).unwrap();
    let clone = shallow_clone_network_service(&mut prefs, &source).unwrap();
    assert_ne!(clone.id, 4);
    assert!(has_ownership_tag(&clone.attributes));
    assert!(!clone.attributes.contains_key(user_defined_name_key()));
    assert_eq!(clone.enabled, false);
    assert_eq!(clone.protocols.len(), 1);
    assert_eq!(clone.interface.as_ref().unwrap().bsd_name, "en0");
    let after = prefs.find_service(4).unwrap();
    assert_eq!(label(&prefs, 4), "Ethernet");
    assert!(!has_ownership_tag(&after.attributes));
    assert_eq!(after.enabled, source.enabled);
    assert_eq!(after.protocols.len(), source.protocols.len());
}

#[test]
fn clone_set_takes_new_name() {
    let mut prefs = SCPreferences::new();
    add_set(&mut prefs, 2, vec![], vec![]);
    let source = prefs.find_set(2).unwrap();
    let clone = shallow_clone_network_set(&mut prefs, &source, "staged".to_string()).unwrap();
    assert_ne!(clone.id, 2);
    assert!(has_ownership_tag(&clone.attributes));
    match clone.attributes.get(user_defined_name_key()) {
        Some(Value::Text(t)) => assert_eq!(t, "staged"),
        _ => panic!("the clone has no name"),
    }
    let after = prefs.find_set(2).unwrap();
    assert!(!has_ownership_tag(&after.attributes));
    assert_eq!(after.name(), Some("Automatic".to_string()));
    assert_eq!(clone.name(), Some("staged".to_string()));
}

#[test]
fn clone_of_missing_service_is_not_found() {
    let mut prefs = SCPreferences::new();
    let ghost_service = service(40, true, None, vec![], "x");
    assert_eq!(shallow_clone_network_service(&mut prefs, &ghost_service).unwrap_err(), EngineError::NotFound);
}

#[test]
fn clone_fails_when_ids_run_out() {
    let mut prefs = SCPreferences::new();
    assert!(prefs.insert_service(service(u64::MAX - 1, true, None, vec![], "last")));
    let source = prefs.find_service(u64::MAX - 1).unwrap();
    match shallow_clone_network_service(&mut prefs, &source) {
        Err(EngineError::StoreCallFailed { operation, last_error }) => {
            assert_eq!(operation, StoreOperation::CreateUniqueChild);
            assert_eq!(last_error.code(), 1001);
            assert_eq!(last_error.message(), "Failed");
        }
        other => panic!("unexpected {:?}", other),
    }
}

#[test]
fn stable_priority_sort() {
    let mut prefs = SCPreferences::new();
    let entries: [(u64, &str); 9] =
        [(7, "a"), (3, "b"), (6, "c"), (100, "d"), (5, "e"), (101, "f"), (1, "g"), (8, "h"), (102, "i")];
    for (id, l) in entries.iter() {
        assert!(prefs.insert_service(service(*id, true, None, vec![], l)));
    }
    add_set(&mut prefs, 200, entries.iter().map(|e| e.0).collect(), vec![1, 2, 3, 4, 5, 6]);
    let set = prefs.find_set(200).unwrap();
    let ordered = get_priority_ordered_services(&prefs, &set);
    let labels: Vec<String> = ordered.iter().map(|s| label(&prefs, s.id)).collect();
    assert_eq!(labels, vec!["g", "b", "e", "c", "a", "d", "f", "h", "i"]);
}

#[test]
fn priority_order_of_ids_keeps_ties_in_place() {
    let ids = vec![9, 4, 8, 2, 4];
    let order = vec![4, 2, 4];
    assert_eq!(priority_ordered_ids(&ids, &order), vec![4, 4, 2, 9, 8]);
    assert_eq!(priority_ordered_ids(&Vec::new(), &order), Vec::<u64>::new());
    assert_eq!(priority_ordered_ids(&vec![3, 1], &Vec::new()), vec![3, 1]);
}

#[test]
fn bridge_service_leaves_the_set() {
    let mut prefs = SCPreferences::new();
    let bridge = iface("Bridge", "bridge0", &["IPv4", "IPv6"]);
    assert!(prefs.insert_service(service(1, true, Some(bridge), vec![proto("IPv6", true)], "Bridge")));
    assert!(prefs.insert_service(service(2, true, Some(ethernet_v6("en0")), vec![proto("IPv6", true)], "Ethernet")));
    add_set(&mut prefs, 10, vec![1, 2], vec![1, 2]);
    let mut set = prefs.find_set(10).unwrap();
    modify_existing_services(&mut prefs, &mut set).unwrap();
    assert_eq!(set.services, vec![2]);
    assert_eq!(set.service_order, vec![2]);
    assert!(prefs.find_service(1).is_some());
}

#[test]
fn ipv6_normalization_clones_the_service() {
    let mut prefs = SCPreferences::new();
    assert!(prefs.insert_service(service(5, false, Some(ethernet_v6("en0")), vec![proto("IPv4", true)], "Ethernet")));
    add_set(&mut prefs, 10, vec![5], vec![5]);
    let mut set = prefs.find_set(10).unwrap();
    modify_existing_services(&mut prefs, &mut set).unwrap();
    assert_eq!(set.services.len(), 1);
    let new_id = set.services[0];
    assert_ne!(new_id, 5);
    let clone = prefs.find_service(new_id).unwrap();
    assert!(clone.enabled);
    assert!(has_enabled_ipv6(&clone));
    assert!(has_ownership_tag(&clone.attributes));
    let source_service = prefs.find_service(5).unwrap();
    assert!(!source_service.enabled);
    assert!(!has_enabled_ipv6(&source_service));
}

#[test]
fn disabled_ipv6_protocol_is_enabled_on_the_clone() {
    let mut prefs = SCPreferences::new();
    assert!(prefs.insert_service(service(5, true, Some(ethernet_v6("en0")), vec![proto("IPv6", false)], "Ethernet")));
    let s = prefs.find_service(5).unwrap();
    assert_eq!(
        ServiceModifications::gather(&s),
        Some(ServiceModifications::Modify { enable: false, protocol: Some(ProtocolModifications::ModifyIPv6 { enable: true }) })
    );
    add_set(&mut prefs, 10, vec![5], vec![]);
    let mut set = prefs.find_set(10).unwrap();
    modify_existing_services(&mut prefs, &mut set).unwrap();
    let clone = prefs.find_service(set.services[0]).unwrap();
    assert_ne!(clone.id, 5);
    assert_eq!(clone.protocols.len(), 1);
    assert!(clone.protocols[0].enabled);
}

#[test]
fn second_reconciliation_changes_nothing() {
    let mut prefs = SCPreferences::new();
    assert!(prefs.insert_service(service(1, false, Some(ethernet_v6("en0")), vec![], "a")));
    assert!(prefs.insert_service(service(2, true, Some(iface("Bridge", "bridge0", &["IPv6"])), vec![], "b")));
    assert!(prefs.insert_service(service(3, true, Some(iface("IEEE80211", "en1", &["IPv6"])), vec![proto("IPv6", false)], "c")));
    assert!(prefs.insert_service(service(4, true, Some(iface("Serial", "s0", &["IPv4"])), vec![], "d")));
    add_set(&mut prefs, 10, vec![1, 2, 3, 4], vec![3, 1]);
    let mut set = prefs.find_set(10).unwrap();
    modify_existing_services(&mut prefs, &mut set).unwrap();
    let first = set.services.clone();
    for id in &first {
        assert_eq!(ServiceModifications::gather(&prefs.find_service(*id).unwrap()), None);
    }
    let before = prefs.service_ids().len();
    assert_eq!(set.service_order, first);
    modify_existing_services(&mut prefs, &mut set).unwrap();
    assert_eq!(set.services, first);
    assert_eq!(set.service_order, first);
    assert_eq!(prefs.service_ids().len(), before);
}

#[test]
fn decision_table() {
    let none = service(1, true, None, vec![], "x");
    assert_eq!(ServiceModifications::gather(&none), None);
    let unknown = service(1, false, Some(iface("Carrier", "c0", &["IPv6"])), vec![], "x");
    assert_eq!(ServiceModifications::gather(&unknown), None);
    let bridge = service(1, false, Some(iface("Bridge", "bridge0", &[])), vec![], "x");
    assert_eq!(ServiceModifications::gather(&bridge), Some(ServiceModifications::Delete));
    let no_v6 = service(1, false, Some(iface("Ethernet", "en0", &["IPv4"])), vec![], "x");
    assert_eq!(ServiceModifications::gather(&no_v6), None);
    let fine = service(1, true, Some(ethernet_v6("en0")), vec![proto("IPv6", true)], "x");
    assert_eq!(ServiceModifications::gather(&fine), None);
    assert_eq!(ProtocolModifications::gather(&fine), None);
    let missing = service(1, true, Some(ethernet_v6("en0")), vec![proto("IPv4", true)], "x");
    assert_eq!(ProtocolModifications::gather(&missing), Some(ProtocolModifications::AddIPv6));
    assert_eq!(
        ServiceModifications::gather(&missing),
        Some(ServiceModifications::Modify { enable: false, protocol: Some(ProtocolModifications::AddIPv6) })
    );
    let disabled = service(1, false, Some(ethernet_v6("en0")), vec![proto("IPv6", true)], "x");
    assert_eq!(ServiceModifications::gather(&disabled), Some(ServiceModifications::Modify { enable: true, protocol: None }));
}

#[test]
fn apply_add_to_service_with_ipv6_fails() {
    let mut prefs = SCPreferences::new();
    assert!(prefs.insert_service(service(1, true, Some(ethernet_v6("en0")), vec![proto("IPv6", true)], "x")));
    let mut s = prefs.find_service(1).unwrap();
    match apply_modifications(&mut prefs, &mut s, false, Some(ProtocolModifications::AddIPv6)) {
        Err(EngineError::StoreCallFailed { operation, last_error }) => {
            assert_eq!(operation, StoreOperation::AddProtocol);
            assert_eq!(last_error.code(), 1005);
        }
        other => panic!("unexpected {:?}", other),
    }
}

#[test]
fn apply_enable_without_ipv6_is_an_invariant_violation() {
    let mut prefs = SCPreferences::new();
    assert!(prefs.insert_service(service(1, true, Some(ethernet_v6("en0")), vec![], "x")));
    let mut s = prefs.find_service(1).unwrap();
    let r = apply_modifications(&mut prefs, &mut s, false, Some(ProtocolModifications::ModifyIPv6 { enable: true }));
    assert_eq!(r, Err(EngineError::InvariantViolated));
}

#[test]
fn apply_enables_and_adds() {
    let mut prefs = SCPreferences::new();
    assert!(prefs.insert_service(service(1, false, Some(ethernet_v6("en0")), vec![proto("DNS", true)], "x")));
    let mut s = prefs.find_service(1).unwrap();
    apply_modifications(&mut prefs, &mut s, true, Some(ProtocolModifications::AddIPv6)).unwrap();
    assert!(s.enabled);
    assert_eq!(s.protocols.len(), 2);
    assert_eq!(s.protocols[1].type_id, "IPv6");
    assert!(prefs.find_service(1).unwrap().enabled);
}

#[test]
fn pruning_scope() {
    let mut prefs = SCPreferences::new();
    let mut tagged_referenced = service(1, true, None, vec![], "a");
    tagged_referenced.attributes = owned_named("a");
    let mut tagged_loose = service(2, true, None, vec![], "b");
    tagged_loose.attributes = owned_named("b");
    let plain_loose = service(3, true, None, vec![], "c");
    let plain_referenced = service(4, true, None, vec![], "d");
    for s in [tagged_referenced, tagged_loose, plain_loose, plain_referenced] {
        assert!(prefs.insert_service(s));
    }
    add_set(&mut prefs, 10, vec![1, 4], vec![1, 4]);
    assert!(prefs.insert_set(SCNetworkSet { id: 11, services: vec![2], service_order: vec![], attributes: owned_named("old") }));
    assert!(prefs.set_current(10));
    delete_old_if_exits(&mut prefs).unwrap();
    assert!(prefs.find_service(1).is_some());
    assert!(prefs.find_service(2).is_none());
    assert!(prefs.find_service(3).is_some());
    assert!(prefs.find_service(4).is_some());
    assert!(prefs.find_set(10).is_some());
    assert!(prefs.find_set(11).is_none());
    assert_eq!(prefs.current_set(), Some(10));
}

#[test]
fn pruning_a_tagged_current_set_keeps_its_services() {
    let mut prefs = SCPreferences::new();
    let mut s = service(1, true, None, vec![], "a");
    s.attributes = owned_named("a");
    assert!(prefs.insert_service(s));
    assert!(prefs.insert_set(SCNetworkSet { id: 10, services: vec![1], service_order: vec![1], attributes: owned_named("x") }));
    assert!(prefs.set_current(10));
    delete_old_if_exits(&mut prefs).unwrap();
    assert!(prefs.find_set(10).is_none());
    assert_eq!(prefs.current_set(), None);
    assert!(prefs.find_service(1).is_some());
}

#[test]
fn provisioning_exclusion() {
    let mut prefs = SCPreferences::new();
    prefs.add_interface(ethernet_v6("en0"));
    prefs.add_interface(iface("Bridge", "bridge0", &["IPv4", "IPv6"]));
    prefs.add_interface(iface("Serial", "s0", &["IPv4"]));
    prefs.add_interface(iface("Carrier", "c0", &["IPv6"]));
    prefs.add_interface(iface("IEEE80211", "en1", &["IPv4", "IPv6", "SMB"]));
    assert!(prefs.insert_service(service(1, true, Some(ethernet_v6("en0")), vec![proto("IPv6", true)], "Ethernet")));
    add_set(&mut prefs, 10, vec![1], vec![1]);
    let mut set = prefs.find_set(10).unwrap();
    assert!(contains_network_interface(&prefs, &set, &ethernet_v6("en0")));
    assert!(!contains_network_interface(&prefs, &set, &iface("IEEE80211", "en1", &[])));
    let added = add_missing_services(&mut prefs, &mut set).unwrap();
    assert_eq!(added.len(), 1);
    let new_service = prefs.find_service(added[0]).unwrap();
    assert_eq!(new_service.interface.as_ref().unwrap().bsd_name, "en1");
    assert!(new_service.enabled);
    assert!(has_ownership_tag(&new_service.attributes));
    assert!(!new_service.attributes.contains_key(user_defined_name_key()));
    let kinds: Vec<String> = new_service.protocols.iter().map(|p| p.type_id.clone()).collect();
    assert_eq!(kinds, vec!["IPv6", "IPv4", "SMB"]);
    assert_eq!(set.services, vec![1, added[0]]);
    assert_eq!(set.service_order, vec![1, added[0]]);
    assert_eq!(ServiceModifications::gather(&new_service), None);
}

#[test]
fn reconcile_without_current_set_is_not_found() {
    let mut prefs = SCPreferences::new();
    add_set(&mut prefs, 10, vec![], vec![]);
    assert_eq!(reconcile(&mut prefs, "staged".to_string()).unwrap_err(), EngineError::NotFound);
}

#[test]
fn reconcile_stages_a_current_clone() {
    let mut prefs = SCPreferences::new();
    prefs.add_interface(ethernet_v6("en0"));
    prefs.add_interface(iface("IEEE80211", "en1", &["IPv4", "IPv6"]));
    prefs.add_interface(iface("Bridge", "bridge0", &["IPv6"]));
    assert!(prefs.insert_service(service(1, false, Some(ethernet_v6("en0")), vec![], "Ethernet")));
    assert!(prefs.insert_service(service(2, true, Some(iface("Bridge", "bridge0", &["IPv6"])), vec![], "Bridge")));
    let mut stale = service(3, true, None, vec![], "old clone");
    stale.attributes = owned_named("old clone");
    assert!(prefs.insert_service(stale));
    add_set(&mut prefs, 10, vec![1, 2], vec![2, 1]);
    assert!(prefs.set_current(10));
    let staged = reconcile(&mut prefs, "staged".to_string()).unwrap();
    assert_ne!(staged.id, 10);
    assert_eq!(prefs.current_set(), Some(staged.id));
    assert!(prefs.find_service(3).is_none());
    assert_eq!(staged.services.len(), 2);
    assert_eq!(staged.services, staged.service_order);
    for id in &staged.services {
        let s = prefs.find_service(*id).unwrap();
        assert_eq!(ServiceModifications::gather(&s), None);
        assert!(has_ownership_tag(&s.attributes));
    }
    let source_service = prefs.find_set(10).unwrap();
    assert_eq!(source_service.services, vec![1, 2]);
    assert!(!prefs.find_service(1).unwrap().enabled);
}

#[test]
fn created_service_is_tagged_and_unnamed() {
    let mut prefs = SCPreferences::new();
    assert!(prefs.insert_service(service(9, true, None, vec![], "existing")));
    let created = create_service(&mut prefs, &ethernet_v6("en3")).unwrap();
    assert_eq!(created.id, 10);
    assert!(has_ownership_tag(&created.attributes));
    assert!(!created.attributes.contains_key(user_defined_name_key()));
    assert!(created.enabled);
    assert!(created.protocols.is_empty());
    assert_eq!(created.interface.as_ref().unwrap().bsd_name, "en3");
    assert!(has_ownership_tag(&prefs.find_service(10).unwrap().attributes));
}

#[test]
fn create_service_fails_when_ids_run_out() {
    let mut prefs = SCPreferences::new();
    assert!(prefs.insert_service(service(u64::MAX - 1, true, None, vec![], "last")));
    match create_service(&mut prefs, &ethernet_v6("en3")) {
        Err(EngineError::StoreCallFailed { operation, last_error }) => {
            assert_eq!(operation, StoreOperation::CreateService);
            assert_eq!(last_error.code(), 1001);
        }
        other => panic!("unexpected {:?}", other),
    }
}

#[test]
fn rebuilt_order_follows_priority_with_clones_in_place() {
    let mut prefs = SCPreferences::new();
    assert!(prefs.insert_service(service(1, true, Some(ethernet_v6("en0")), vec![proto("IPv6", true)], "a")));
    assert!(prefs.insert_service(service(2, false, Some(ethernet_v6("en1")), vec![proto("IPv6", true)], "b")));
    assert!(prefs.insert_service(service(3, true, Some(iface("Bridge", "bridge0", &["IPv6"])), vec![], "c")));
    assert!(prefs.insert_service(service(4, true, Some(iface("Serial", "s0", &[])), vec![], "d")));
    add_set(&mut prefs, 10, vec![1, 2, 3, 4], vec![4, 3, 2]);
    let mut set = prefs.find_set(10).unwrap();
    modify_existing_services(&mut prefs, &mut set).unwrap();
    assert_eq!(set.services, vec![4, 11, 1]);
    assert_eq!(set.service_order, vec![4, 11, 1]);
    assert_eq!(label(&prefs, 11), "");
    assert_eq!(prefs.find_service(11).unwrap().interface.as_ref().unwrap().bsd_name, "en1");
}

#[test]
fn set_members_must_be_known_ids() {
    let mut prefs = SCPreferences::new();
    assert!(!prefs.insert_set(SCNetworkSet { id: 3, services: vec![50], service_order: vec![], attributes: named("x") }));
    assert_eq!(prefs.last_error().code(), 1002);
    assert!(prefs.insert_set(SCNetworkSet { id: 3, services: vec![2], service_order: vec![], attributes: named("x") }));
}

#[test]
fn reconcile_keeps_members_in_priority_order() {
    let mut prefs = SCPreferences::new();
    prefs.add_interface(ethernet_v6("en0"));
    prefs.add_interface(ethernet_v6("en1"));
    prefs.add_interface(ethernet_v6("en2"));
    assert!(prefs.insert_service(service(1, true, Some(ethernet_v6("en0")), vec![proto("IPv6", true)], "a")));
    assert!(prefs.insert_service(service(2, true, Some(ethernet_v6("en1")), vec![], "b")));
    add_set(&mut prefs, 5, vec![1, 2], vec![2, 1]);
    assert!(prefs.set_current(5));
    let staged = reconcile(&mut prefs, "staged".to_string()).unwrap();
    assert_eq!(staged.id, 6);
    assert_eq!(staged.services, vec![7, 1, 8]);
    assert_eq!(staged.name(), Some("staged".to_string()));
    assert!(has_ownership_tag(&staged.attributes));
    assert_eq!(prefs.find_service(8).unwrap().interface.as_ref().unwrap().bsd_name, "en2");
}
