use netplan_api::config_doc::{bootstrap_network, network_from_doc, network_to_doc};
use netplan_api::endpoints::{add_ethernet_ip_address, add_ethernet_nameservers_address,
    add_ethernet_nameservers_search, add_ethernet_route, delete_ethernet_ip_address,
    delete_ethernet_nameservers_search, delete_ethernet_route, delete_ethernet_routes,
    unconfigured_ethernets, update_ethernet, EndpointError};
use netplan_api::custom_types::MTU;
use netplan_api::ethernet::{Ethernet, InterfaceAddress};
use netplan_api::input_models::{InputDevice, InputRoute};
use netplan_api::ip::IpAddress;
use netplan_api::netplan::DiffReport;
use netplan_api::network::{Network, NetworkRenderer};
use netplan_api::route::Route;
use netplan_api::yaml::YamlNode;

fn sample_network() -> Network {
    let mut network = Network::new();
    let mut eth = Ethernet::new(String::from("eth0"));
    eth.set_dhcp4(true);
    eth.set_accept_ra(Some(false));
    eth.set_mtu(MTU::new(1500));
    eth.add_route(&Route::new(
        IpAddress::V6(0x2001, 0xdb8, 0, 0, 0, 0, 0, 1),
        Some(IpAddress::V6(0xfe80, 0, 0, 0, 0, 0, 0, 1)),
        None,
    ));
    eth.add_address(&InterfaceAddress { ip: IpAddress::V4(192, 168, 0, 5), prefix_len: 24 });
    eth.add_nameservers_search(&String::from("example.org"));
    eth.add_nameservers_address(&IpAddress::V4(9, 9, 9, 9));
    network.add_ethernet(eth);
    network.add_ethernet(Ethernet::new(String::from("eth1")));
    network
}

#[test]
fn saving_and_loading_is_the_identity_on_persisted_content() {
    let network = sample_network();
    let doc = network_to_doc(&network);
    let empty_diff: DiffReport = Vec::new();
    let reloaded = network_from_doc(&doc, empty_diff, &Vec::new()).unwrap();
    assert_eq!(reloaded.version, network.version);
    assert_eq!(reloaded.renderer, network.renderer);
    assert_eq!(reloaded.ethernets.len(), network.ethernets.len());
    for (a, b) in network.ethernets.iter().zip(reloaded.ethernets.iter()) {
        assert_eq!(a.name(), b.name());
        assert_eq!(a.get_dhcp4(), b.get_dhcp4());
        assert_eq!(a.get_dhcp6(), b.get_dhcp6());
        assert_eq!(a.get_accept_ra(), b.get_accept_ra());
        assert_eq!(a.get_mtu().map(|m| m.value()), b.get_mtu().map(|m| m.value()));
        assert_eq!(a.get_ipv6_mtu().map(|m| m.value()), b.get_ipv6_mtu().map(|m| m.value()));
        assert_eq!(a.get_routes().len(), b.get_routes().len());
        for (x, y) in a.get_routes().iter().zip(b.get_routes().iter()) {
            assert_eq!(x.id(), y.id());
        }
        assert_eq!(a.get_addresses(), b.get_addresses());
        assert_eq!(a.get_nameservers().search, b.get_nameservers().search);
        assert_eq!(a.get_nameservers().addresses, b.get_nameservers().addresses);
        assert!(b.get_dynamic_addresses().is_empty());
        assert!(b.get_system_state().is_empty());
    }
}

#[test]
fn loading_attaches_the_drift_fragment_and_dynamic_addresses() {
    let network = sample_network();
    let doc = network_to_doc(&network);
    let diff: DiffReport = vec![(
        String::from("eth0"),
        vec![(String::from("missing_dhcp4_address"), YamlNode::Bool(true))],
    )];
    let dynamics = vec![(String::from("eth0"), vec![String::from("24/192.168.0.5(dhcp)")])];
    let reloaded = network_from_doc(&doc, diff, &dynamics).unwrap();
    let eth0 = reloaded.get_ethernet(&String::from("eth0")).unwrap();
    assert_eq!(eth0.get_system_state().len(), 1);
    assert_eq!(eth0.get_system_state()[0].0, "missing_dhcp4_address");
    assert_eq!(
        eth0.get_dynamic_addresses(),
        &vec![String::from("24/192.168.0.5(dhcp)")]
    );
    let eth1 = reloaded.get_ethernet(&String::from("eth1")).unwrap();
    assert!(eth1.get_system_state().is_empty());
    assert!(eth1.get_dynamic_addresses().is_empty());
}

#[test]
fn a_tampered_document_is_refused() {
    let empty_diff: DiffReport = Vec::new();
    let no_network = YamlNode::Dict(vec![(String::from("other"), YamlNode::Null)]);
    assert!(network_from_doc(&no_network, empty_diff, &Vec::new()).is_err());
    let bad_mtu = YamlNode::Dict(vec![(
        String::from("network"),
        YamlNode::Dict(vec![
            (String::from("version"), YamlNode::Int(2)),
            (String::from("renderer"), YamlNode::Text(String::from("NetworkManager"))),
            (
                String::from("ethernets"),
                YamlNode::Dict(vec![(
                    String::from("eth0"),
                    YamlNode::Dict(vec![(String::from("mtu"), YamlNode::Int(30))]),
                )]),
            ),
        ]),
    )]);
    assert!(network_from_doc(&bad_mtu, Vec::new(), &Vec::new()).is_err());
}

#[test]
fn loading_collapses_duplicate_route_entries_onto_one_identity() {
    // On disk the routes are a sequence; two structurally identical routes
    // collapse onto the same identity in memory.
    let route_doc = YamlNode::Dict(vec![(
        String::from("to"),
        YamlNode::Text(String::from("10.0.0.0")),
    )]);
    let route_doc2 = YamlNode::Dict(vec![(
        String::from("to"),
        YamlNode::Text(String::from("10.0.0.0")),
    )]);
    let doc = YamlNode::Dict(vec![(
        String::from("network"),
        YamlNode::Dict(vec![
            (String::from("version"), YamlNode::Int(2)),
            (String::from("renderer"), YamlNode::Text(String::from("networkd"))),
            (
                String::from("ethernets"),
                YamlNode::Dict(vec![(
                    String::from("eth0"),
                    YamlNode::Dict(vec![
                        (String::from("dhcp4"), YamlNode::Bool(false)),
                        (String::from("routes"), YamlNode::List(vec![route_doc, route_doc2])),
                    ]),
                )]),
            ),
        ]),
    )]);
    let loaded = network_from_doc(&doc, Vec::new(), &Vec::new()).unwrap();
    assert_eq!(loaded.renderer, NetworkRenderer::NetworkD);
    let eth0 = loaded.get_ethernet(&String::from("eth0")).unwrap();
    assert_eq!(eth0.get_routes().len(), 1);
    assert_eq!(eth0.get_routes()[0].id(), "from-10.0.0.0-via");
}

#[test]
fn bootstrap_seeds_a_present_eth0_with_dhcp() {
    // No persisted file exists; a physical eth0 is present at rest.
    let network = bootstrap_network(true);
    assert_eq!(network.version, 2);
    assert_eq!(network.renderer, NetworkRenderer::NetworkManager);
    assert_eq!(network.get_ethernets().len(), 1);
    let eth0 = network.get_ethernet(&String::from("eth0")).unwrap();
    assert!(eth0.get_dhcp4());
    assert!(!eth0.get_dhcp6());
    let empty = bootstrap_network(false);
    assert!(empty.get_ethernets().is_empty());
}

#[test]
fn update_ethernet_merges_or_creates() {
    let mut network = sample_network();
    let input = InputDevice {
        accept_ra: None,
        dhcp4: Some(false),
        dhcp6: Some(true),
        mtu: None,
        ipv6_mtu: None,
    };
    let all = vec![String::from("eth0"), String::from("eth7")];
    assert!(update_ethernet(&mut network, &all, &String::from("eth0"), &input).is_ok());
    let eth0 = network.get_ethernet(&String::from("eth0")).unwrap();
    assert!(!eth0.get_dhcp4());
    assert!(eth0.get_dhcp6());
    assert!(eth0.get_mtu().is_none());
    assert_eq!(eth0.get_routes().len(), 1);
    assert!(update_ethernet(&mut network, &all, &String::from("eth7"), &input).is_ok());
    assert_eq!(network.get_ethernets().len(), 3);
    assert_eq!(
        update_ethernet(&mut network, &all, &String::from("eth9"), &input),
        Err(EndpointError::NotFound)
    );
}

#[test]
fn address_endpoints_validate_then_locate() {
    let mut network = sample_network();
    assert_eq!(
        add_ethernet_ip_address(&mut network, &String::from("eth0"), &String::from("oops")),
        Err(EndpointError::BadRequest)
    );
    assert_eq!(
        add_ethernet_ip_address(
            &mut network,
            &String::from("eth9"),
            &String::from("10.1.1.1/16")
        ),
        Err(EndpointError::NotFound)
    );
    assert!(add_ethernet_ip_address(
        &mut network,
        &String::from("eth0"),
        &String::from("10.1.1.1/16")
    )
    .is_ok());
    let eth0 = network.get_ethernet(&String::from("eth0")).unwrap();
    assert_eq!(eth0.get_addresses().len(), 2);
    assert!(delete_ethernet_ip_address(
        &mut network,
        &String::from("eth0"),
        &String::from("10.1.1.1/16")
    )
    .is_ok());
    let eth0 = network.get_ethernet(&String::from("eth0")).unwrap();
    assert_eq!(eth0.get_addresses().len(), 1);
    assert_eq!(
        add_ethernet_ip_address(
            &mut network,
            &String::from("eth0"),
            &String::from("10.1.1.1/99")
        ),
        Err(EndpointError::BadRequest)
    );
}

#[test]
fn nameserver_endpoints_edit_the_right_interface() {
    let mut network = sample_network();
    assert!(add_ethernet_nameservers_search(
        &mut network,
        &String::from("eth1"),
        &String::from("example.net")
    )
    .is_ok());
    assert!(add_ethernet_nameservers_address(
        &mut network,
        &String::from("eth1"),
        &String::from("2001:db8::53")
    )
    .is_ok());
    let eth1 = network.get_ethernet(&String::from("eth1")).unwrap();
    assert!(eth1.get_nameservers().contains_search(&String::from("example.net")));
    assert!(eth1
        .get_nameservers()
        .contains_address(&IpAddress::V6(0x2001, 0xdb8, 0, 0, 0, 0, 0, 0x53)));
    let eth0 = network.get_ethernet(&String::from("eth0")).unwrap();
    assert!(!eth0.get_nameservers().contains_search(&String::from("example.net")));
    assert!(delete_ethernet_nameservers_search(
        &mut network,
        &String::from("eth1"),
        &String::from("example.net")
    )
    .is_ok());
    let eth1 = network.get_ethernet(&String::from("eth1")).unwrap();
    assert!(!eth1.get_nameservers().contains_search(&String::from("example.net")));
}

#[test]
fn route_endpoints_apply_identity_semantics() {
    let mut network = sample_network();
    let input = InputRoute { to: String::from("2001:db8::1"), from: None, via: None };
    assert!(add_ethernet_route(&mut network, &String::from("eth1"), &input).is_ok());
    let again = InputRoute { to: String::from("2001:db8::1"), from: None, via: None };
    assert!(add_ethernet_route(&mut network, &String::from("eth1"), &again).is_ok());
    let eth1 = network.get_ethernet(&String::from("eth1")).unwrap();
    assert_eq!(eth1.get_routes().len(), 1);
    assert!(delete_ethernet_route(
        &mut network,
        &String::from("eth1"),
        &String::from("from-2001:db8::1-via")
    )
    .is_ok());
    let eth1 = network.get_ethernet(&String::from("eth1")).unwrap();
    assert!(eth1.get_routes().is_empty());
    assert!(delete_ethernet_routes(&mut network, &String::from("eth0")).is_ok());
    let eth0 = network.get_ethernet(&String::from("eth0")).unwrap();
    assert!(eth0.get_routes().is_empty());
    let bad = InputRoute { to: String::from("nope"), from: None, via: None };
    assert_eq!(
        add_ethernet_route(&mut network, &String::from("eth0"), &bad),
        Err(EndpointError::BadRequest)
    );
}

#[test]
fn the_full_listing_adds_unconfigured_live_interfaces() {
    let network = sample_network();
    let all = vec![String::from("eth0"), String::from("eth2"), String::from("eth1")];
    let missing = unconfigured_ethernets(&network, &all);
    assert_eq!(missing, vec![String::from("eth2")]);
}
