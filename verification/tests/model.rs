use netplan_api::custom_types::{BoundedU32, MTU, MTUV6};
use netplan_api::ethernet::{Ethernet, InterfaceAddress};
use netplan_api::input_models::InputDevice;
use netplan_api::input_models::InputRoute;
use netplan_api::ip::IpAddress;
use netplan_api::nameservers::Nameservers;
use netplan_api::network::Network;
use netplan_api::route::{Route, RouteParseError};

#[test]
fn bounded_integer_accepts_exactly_its_range() {
    assert!(BoundedU32::<10, 20>::new(9).is_none());
    assert!(BoundedU32::<10, 20>::new(10).is_some());
    assert!(BoundedU32::<10, 20>::new(20).is_some());
    assert!(BoundedU32::<10, 20>::new(21).is_none());
    assert_eq!(BoundedU32::<10, 20>::new(15).unwrap().value(), 15);
}

#[test]
fn mtu_ranges_match_the_device_limits() {
    assert!(MTU::new(67).is_none());
    assert!(MTU::new(68).is_some());
    assert!(MTU::new(64000).is_some());
    assert!(MTU::new(64001).is_none());
    assert!(MTUV6::new(1279).is_none());
    assert!(MTUV6::new(1280).is_some());
    assert!(MTUV6::new(64000).is_some());
    assert!(MTUV6::new(64001).is_none());
}

#[test]
fn set_mtu_seventy_succeeds_and_thirty_is_rejected_at_construction() {
    let mut eth = Ethernet::new(String::from("eth0"));
    let ok = MTU::new(70);
    assert!(ok.is_some());
    eth.set_mtu(ok);
    assert_eq!(eth.get_mtu().unwrap().value(), 70);
    assert!(MTU::new(30).is_none());
}

#[test]
fn route_id_is_a_pure_function_of_the_triple() {
    let to = IpAddress::V6(0x2001, 0xdb8, 0, 0, 0, 0, 0, 1);
    let r1 = Route::new(to, None, None);
    let r2 = Route::new(to, None, None);
    assert_eq!(r1.id(), r2.id());
    assert_eq!(r1.id(), "from-2001:db8::1-via");
}

#[test]
fn route_id_writes_default_for_the_unspecified_target() {
    let r = Route::new(IpAddress::V4(0, 0, 0, 0), None, None);
    assert_eq!(r.id(), "from-default-via");
    let r6 = Route::new(
        IpAddress::V6(0, 0, 0, 0, 0, 0, 0, 0),
        Some(IpAddress::V4(10, 0, 0, 1)),
        None,
    );
    assert_eq!(r6.id(), "from-default-10.0.0.1");
}

#[test]
fn adding_the_same_route_twice_keeps_one_entry() {
    let input = InputRoute { to: String::from("2001:db8::1"), from: None, via: None };
    let route = Route::from_input_route(&input).unwrap();
    let mut eth = Ethernet::new(String::from("eth0"));
    eth.add_route(&route);
    eth.add_route(&route);
    assert_eq!(eth.get_routes().len(), 1);
    assert_eq!(eth.get_routes()[0].id(), "from-2001:db8::1-via");
}

#[test]
fn adding_a_route_with_the_same_identity_overwrites() {
    let mut eth = Ethernet::new(String::from("eth0"));
    let a = Route::new(IpAddress::V4(10, 0, 0, 0), Some(IpAddress::V4(10, 0, 0, 1)), None);
    let b = Route::new(IpAddress::V4(10, 0, 0, 0), Some(IpAddress::V4(10, 0, 0, 1)), None);
    eth.add_route(&a);
    eth.add_route(&b);
    assert_eq!(eth.get_routes().len(), 1);
    let other = Route::new(IpAddress::V4(10, 0, 1, 0), Some(IpAddress::V4(10, 0, 0, 1)), None);
    eth.add_route(&other);
    assert_eq!(eth.get_routes().len(), 2);
}

#[test]
fn from_input_route_reports_the_first_bad_field() {
    let bad_from = InputRoute {
        to: String::from("10.0.0.1"),
        from: Some(String::from("not-an-ip")),
        via: None,
    };
    assert_eq!(Route::from_input_route(&bad_from).unwrap_err(), RouteParseError::InvalidFrom);
    let bad_to = InputRoute { to: String::from("999.0.0.1"), from: None, via: None };
    assert_eq!(Route::from_input_route(&bad_to).unwrap_err(), RouteParseError::InvalidTo);
    let bad_via = InputRoute {
        to: String::from("10.0.0.1"),
        from: None,
        via: Some(String::from("")),
    };
    assert_eq!(Route::from_input_route(&bad_via).unwrap_err(), RouteParseError::InvalidVia);
}

#[test]
fn from_input_route_reads_default_as_the_unspecified_address() {
    let input = InputRoute { to: String::from("default"), from: None, via: None };
    let route = Route::from_input_route(&input).unwrap();
    assert_eq!(route.to, IpAddress::V6(0, 0, 0, 0, 0, 0, 0, 0));
}

#[test]
fn route_display_lists_each_field() {
    let r = Route::new(IpAddress::V4(10, 0, 0, 2), Some(IpAddress::V4(10, 0, 0, 1)), None);
    assert_eq!(r.display(), "Route:\n  Origin: None\n  To: 10.0.0.2\n  Via: 10.0.0.1\n");
}

#[test]
fn nameserver_lists_are_sets() {
    let mut ns = Nameservers::new();
    ns.add_search(&String::from("example.org"));
    ns.add_search(&String::from("example.org"));
    assert_eq!(ns.search.len(), 1);
    assert!(ns.contains_search(&String::from("example.org")));
    assert!(!ns.contains_search(&String::from("example.net")));
    let ip = IpAddress::V4(9, 9, 9, 9);
    ns.add_address(&ip);
    ns.add_address(&ip);
    assert_eq!(ns.addresses.len(), 1);
    assert!(ns.contains_address(&ip));
    assert!(ns.remove_address(&ip));
    assert!(!ns.remove_address(&ip));
    assert!(ns.remove_search(&String::from("example.org")));
    assert!(!ns.remove_search(&String::from("example.org")));
}

#[test]
fn ethernet_addresses_are_sets() {
    let mut eth = Ethernet::new(String::from("eth0"));
    let a = InterfaceAddress { ip: IpAddress::V4(192, 168, 0, 5), prefix_len: 24 };
    eth.add_address(&a);
    eth.add_address(&a);
    assert_eq!(eth.get_addresses().len(), 1);
    assert!(eth.delete_address(&a));
    assert!(!eth.delete_address(&a));
    assert_eq!(eth.get_addresses().len(), 0);
}

#[test]
fn network_add_ethernet_replaces_by_name() {
    let mut network = Network::new();
    assert_eq!(network.version, 2);
    let mut e1 = Ethernet::new(String::from("eth0"));
    e1.set_dhcp4(true);
    network.add_ethernet(e1);
    let mut e2 = Ethernet::new(String::from("eth0"));
    e2.set_dhcp4(false);
    network.add_ethernet(e2);
    assert_eq!(network.get_ethernets().len(), 1);
    assert!(!network.get_ethernet(&String::from("eth0")).unwrap().get_dhcp4());
    network.add_ethernet(Ethernet::new(String::from("eth1")));
    assert_eq!(network.get_ethernets().len(), 2);
    assert!(network.get_ethernet(&String::from("eth2")).is_none());
}

#[test]
fn from_input_device_applies_only_given_fields() {
    let input = InputDevice {
        accept_ra: Some(true),
        dhcp4: Some(true),
        dhcp6: None,
        mtu: MTU::new(1500),
        ipv6_mtu: None,
    };
    let eth = Ethernet::from_input_device("eth0", &input);
    assert_eq!(eth.name(), "eth0");
    assert!(eth.get_dhcp4());
    assert!(!eth.get_dhcp6());
    assert_eq!(eth.get_accept_ra(), Some(true));
    assert_eq!(eth.get_mtu().unwrap().value(), 1500);
    assert!(eth.get_ipv6_mtu().is_none());
}
