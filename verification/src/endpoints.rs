//! The mutations the service accepts, one function per operation.
//!
//! Each function performs the pure read-modify step of one request against
//! the in-memory document: validate the input, find the interface, apply
//! the change.  The surrounding service loads the document before calling
//! in and saves and applies it afterwards.
use crate::config_doc::decode_addr_spec;
use crate::ethernet::{Ethernet, InterfaceAddress};
use crate::input_models::{InputDevice, InputRoute};
use crate::ip::{parse_ip, parse_ip_spec, IpAddress};
use crate::nameservers::Nameservers;
use crate::network::{eth_names, first_eth_index, has_eth, lemma_eth_upsert_push,
    lemma_find_eth_some, lemma_first_eth_index, lemma_network_update_wf, eth_index_of, Network};
use crate::route::{parse_opt_field, parse_route_field, route_remove_id, route_upsert, Route,
    RouteParseError};
use crate::util::{distinct, lemma_distinct_push, remove_first, string_views};
use vstd::prelude::*;

verus! {

/// Why a request was refused before any change was made.
#[derive(Clone, Copy, Debug, PartialEq, Eq, Structural)]
pub enum EndpointError {
    /// The given literal does not parse.
    BadRequest,
    /// No interface of the given name is known.
    NotFound,
}

/// Only the interface at index i changed.
pub open spec fn only_eth_changed(olde: Seq<Ethernet>, newe: Seq<Ethernet>, i: int) -> bool {
    newe.len() == olde.len() && 0 <= i < olde.len() && (forall|j: int|
        0 <= j < olde.len() && j != i ==> newe[j] == olde[j])
}

/// The route an incoming textual route denotes, when all fields parse.
pub open spec fn spec_input_route(ir: InputRoute) -> Option<Route> {
    match (parse_opt_field(ir.from), parse_route_field(ir.to@), parse_opt_field(ir.via)) {
        (Some(f), Some(t), Some(v)) => Some(Route { from: f, to: t, via: v }),
        _ => None,
    }
}

/// Merges device-level settings into the named interface, or creates it;
/// an interface may be created for any name the live system reports, even
/// when the persisted document does not hold it yet.
pub fn update_ethernet(
    network: &mut Network,
    all_names: &Vec<String>,
    ethernet_name: &String,
    ethernet: &InputDevice,
) -> (r: Result<(), EndpointError>)
    ensures
        final (network).version == old(network).version,
        final (network).renderer == old(network).renderer,
        r is Ok <==> has_eth(old(network).ethernets@, ethernet_name@) || string_views(
            all_names@,
        ).contains(ethernet_name@),
        r is Err ==> r == Err::<(), EndpointError>(EndpointError::NotFound) && *final (network)
            == *old(network),
        r is Ok && has_eth(old(network).ethernets@, ethernet_name@) ==> ({
            let i = first_eth_index(old(network).ethernets@, ethernet_name@);
            &&& only_eth_changed(old(network).ethernets@, final (network).ethernets@, i)
            &&& final (network).ethernets@[i] == (Ethernet {
                dhcp4: match ethernet.dhcp4 {
                    Some(b) => b,
                    None => false,
                },
                dhcp6: match ethernet.dhcp6 {
                    Some(b) => b,
                    None => false,
                },
                mtu: ethernet.mtu,
                ipv6_mtu: ethernet.ipv6_mtu,
                accept_ra: ethernet.accept_ra,
                ..old(network).ethernets@[i]
            })
        }),
        r is Ok && !has_eth(old(network).ethernets@, ethernet_name@) ==> ({
            &&& final (network).ethernets@.len() == old(network).ethernets@.len() + 1
            &&& final (network).ethernets@.drop_last() == old(network).ethernets@
            &&& final (network).ethernets@.last().name@ == ethernet_name@
            &&& final (network).ethernets@.last().dhcp4 == (match ethernet.dhcp4 {
                Some(b) => b,
                None => false,
            })
            &&& final (network).ethernets@.last().dhcp6 == (match ethernet.dhcp6 {
                Some(b) => b,
                None => false,
            })
            &&& final (network).ethernets@.last().accept_ra == ethernet.accept_ra
            &&& final (network).ethernets@.last().mtu == ethernet.mtu
            &&& final (network).ethernets@.last().ipv6_mtu == ethernet.ipv6_mtu
            &&& final (network).ethernets@.last().routes@.len() == 0
            &&& final (network).ethernets@.last().addresses@.len() == 0
        }),
        old(network).wf() ==> final (network).wf(),
{
    let ghost olde = network.ethernets@;
    match eth_index_of(&network.ethernets, ethernet_name) {
        Some(i) => {
            proof {
                lemma_first_eth_index(olde, ethernet_name@);
            }
            let new_ethernet = Ethernet::from_input_device(ethernet_name.as_str(), ethernet);
            let e = vstd::std_specs::vec::vec_index_mut(&mut network.ethernets, i);
            e.update_from_device(&new_ethernet);
            proof {
                if old(network).wf() {
                    lemma_network_update_wf(olde, network.ethernets@, i as int);
                }
            }
            Ok(())
        },
        None => {
            if crate::nameservers::contains_string(all_names, ethernet_name) {
                let new_ethernet = Ethernet::from_input_device(ethernet_name.as_str(), ethernet);
                let ghost newe = new_ethernet;
                network.add_ethernet(new_ethernet);
                proof {
                    assert forall|j: int| 0 <= j < olde.len() implies olde[j].name@
                        != newe.name@ by {
                        if olde[j].name@ == newe.name@ {
                            assert(eth_names(olde)[j] == newe.name@);
                        }
                    }
                    lemma_eth_upsert_push(olde, newe);
                    assert(network.ethernets@ =~= olde.push(newe));
                    assert(network.ethernets@.drop_last() =~= olde);
                }
                Ok(())
            } else {
                Err(EndpointError::NotFound)
            }
        },
    }
}

/// Adds an address to the named interface.
pub fn add_ethernet_ip_address(
    network: &mut Network,
    ethernet_name: &String,
    ip_address: &String,
) -> (r: Result<(), EndpointError>)
    ensures
        final (network).version == old(network).version,
        final (network).renderer == old(network).renderer,
        r is Err ==> *final (network) == *old(network),
        r == Err::<(), EndpointError>(EndpointError::BadRequest) <==> decode_addr_spec(
            ip_address@,
        ) is None,
        decode_addr_spec(ip_address@) is Some ==> (r == Err::<(), EndpointError>(
            EndpointError::NotFound,
        ) <==> !has_eth(old(network).ethernets@, ethernet_name@)),
        r is Ok <==> decode_addr_spec(ip_address@) is Some && has_eth(
            old(network).ethernets@,
            ethernet_name@,
        ),
        r is Ok ==> ({
            let i = first_eth_index(old(network).ethernets@, ethernet_name@);
            let a = decode_addr_spec(ip_address@).unwrap();
            let olde = old(network).ethernets@[i];
            &&& only_eth_changed(old(network).ethernets@, final (network).ethernets@, i)
            &&& final (network).ethernets@[i] == (Ethernet {
                addresses: final (network).ethernets@[i].addresses,
                ..olde
            })
            &&& final (network).ethernets@[i].addresses@ == (if olde.addresses@.contains(a) {
                olde.addresses@
            } else {
                olde.addresses@.push(a)
            })
        }),
        old(network).wf() ==> final (network).wf(),
{
    let to_add = match crate::config_doc::addr_from_text(ip_address) {
        Some(a) => a,
        None => {
            return Err(EndpointError::BadRequest);
        },
    };
    let ghost olde = network.ethernets@;
    match eth_index_of(&network.ethernets, ethernet_name) {
        None => Err(EndpointError::NotFound),
        Some(i) => {
            proof {
                lemma_first_eth_index(olde, ethernet_name@);
            }
            let e = vstd::std_specs::vec::vec_index_mut(&mut network.ethernets, i);
            e.add_address(&to_add);
            proof {
                if old(network).wf() {
                    lemma_network_update_wf(olde, network.ethernets@, i as int);
                }
            }
            Ok(())
        },
    }
}

/// Removes an address from the named interface; removing an absent address
/// is accepted and changes nothing.
pub fn delete_ethernet_ip_address(
    network: &mut Network,
    ethernet_name: &String,
    ip_address: &String,
) -> (r: Result<(), EndpointError>)
    ensures
        final (network).version == old(network).version,
        final (network).renderer == old(network).renderer,
        r is Err ==> *final (network) == *old(network),
        r == Err::<(), EndpointError>(EndpointError::BadRequest) <==> decode_addr_spec(
            ip_address@,
        ) is None,
        decode_addr_spec(ip_address@) is Some ==> (r == Err::<(), EndpointError>(
            EndpointError::NotFound,
        ) <==> !has_eth(old(network).ethernets@, ethernet_name@)),
        r is Ok <==> decode_addr_spec(ip_address@) is Some && has_eth(
            old(network).ethernets@,
            ethernet_name@,
        ),
        r is Ok ==> ({
            let i = first_eth_index(old(network).ethernets@, ethernet_name@);
            let a = decode_addr_spec(ip_address@).unwrap();
            let olde = old(network).ethernets@[i];
            &&& only_eth_changed(old(network).ethernets@, final (network).ethernets@, i)
            &&& final (network).ethernets@[i] == (Ethernet {
                addresses: final (network).ethernets@[i].addresses,
                ..olde
            })
            &&& final (network).ethernets@[i].addresses@ == remove_first(olde.addresses@, a)
        }),
        old(network).wf() ==> final (network).wf(),
{
    let to_delete = match crate::config_doc::addr_from_text(ip_address) {
        Some(a) => a,
        None => {
            return Err(EndpointError::BadRequest);
        },
    };
    let ghost olde = network.ethernets@;
    match eth_index_of(&network.ethernets, ethernet_name) {
        None => Err(EndpointError::NotFound),
        Some(i) => {
            proof {
                lemma_first_eth_index(olde, ethernet_name@);
            }
            let e = vstd::std_specs::vec::vec_index_mut(&mut network.ethernets, i);
            e.delete_address(&to_delete);
            proof {
                if old(network).wf() {
                    lemma_network_update_wf(olde, network.ethernets@, i as int);
                }
            }
            Ok(())
        },
    }
}

/// Adds a search domain to the named interface's nameservers.
pub fn add_ethernet_nameservers_search(
    network: &mut Network,
    ethernet_name: &String,
    search: &String,
) -> (r: Result<(), EndpointError>)
    ensures
        final (network).version == old(network).version,
        final (network).renderer == old(network).renderer,
        r is Err ==> r == Err::<(), EndpointError>(EndpointError::NotFound) && *final (network)
            == *old(network),
        r is Ok <==> has_eth(old(network).ethernets@, ethernet_name@),
        r is Ok ==> ({
            let i = first_eth_index(old(network).ethernets@, ethernet_name@);
            let olde = old(network).ethernets@[i];
            &&& only_eth_changed(old(network).ethernets@, final (network).ethernets@, i)
            &&& final (network).ethernets@[i] == (Ethernet {
                nameservers: final (network).ethernets@[i].nameservers,
                ..olde
            })
            &&& final (network).ethernets@[i].nameservers.addresses == olde.nameservers.addresses
            &&& final (network).ethernets@[i].nameservers.spec_search() == (if olde
                .nameservers.spec_search().contains(search@) {
                olde.nameservers.spec_search()
            } else {
                olde.nameservers.spec_search().push(search@)
            })
        }),
        old(network).wf() ==> final (network).wf(),
{
    let ghost olde = network.ethernets@;
    match eth_index_of(&network.ethernets, ethernet_name) {
        None => Err(EndpointError::NotFound),
        Some(i) => {
            proof {
                lemma_first_eth_index(olde, ethernet_name@);
            }
            let e = vstd::std_specs::vec::vec_index_mut(&mut network.ethernets, i);
            e.add_nameservers_search(search);
            proof {
                if old(network).wf() {
                    lemma_network_update_wf(olde, network.ethernets@, i as int);
                }
            }
            Ok(())
        },
    }
}

/// Removes a search domain from the named interface's nameservers.
pub fn delete_ethernet_nameservers_search(
    network: &mut Network,
    ethernet_name: &String,
    search: &String,
) -> (r: Result<(), EndpointError>)
    ensures
        final (network).version == old(network).version,
        final (network).renderer == old(network).renderer,
        r is Err ==> r == Err::<(), EndpointError>(EndpointError::NotFound) && *final (network)
            == *old(network),
        r is Ok <==> has_eth(old(network).ethernets@, ethernet_name@),
        r is Ok ==> ({
            let i = first_eth_index(old(network).ethernets@, ethernet_name@);
            let olde = old(network).ethernets@[i];
            &&& only_eth_changed(old(network).ethernets@, final (network).ethernets@, i)
            &&& final (network).ethernets@[i] == (Ethernet {
                nameservers: final (network).ethernets@[i].nameservers,
                ..olde
            })
            &&& final (network).ethernets@[i].nameservers.addresses == olde.nameservers.addresses
            &&& final (network).ethernets@[i].nameservers.spec_search() == remove_first(
                olde.nameservers.spec_search(),
                search@,
            )
        }),
        old(network).wf() ==> final (network).wf(),
{
    let ghost olde = network.ethernets@;
    match eth_index_of(&network.ethernets, ethernet_name) {
        None => Err(EndpointError::NotFound),
        Some(i) => {
            proof {
                lemma_first_eth_index(olde, ethernet_name@);
            }
            let e = vstd::std_specs::vec::vec_index_mut(&mut network.ethernets, i);
            e.delete_nameservers_search(search);
            proof {
                if old(network).wf() {
                    lemma_network_update_wf(olde, network.ethernets@, i as int);
                }
            }
            Ok(())
        },
    }
}

/// Adds a nameserver address to the named interface.
pub fn add_ethernet_nameservers_address(
    network: &mut Network,
    ethernet_name: &String,
    address: &String,
) -> (r: Result<(), EndpointError>)
    ensures
        final (network).version == old(network).version,
        final (network).renderer == old(network).renderer,
        r is Err ==> *final (network) == *old(network),
        r == Err::<(), EndpointError>(EndpointError::BadRequest) <==> parse_ip_spec(
            address@,
        ) is None,
        parse_ip_spec(address@) is Some ==> (r == Err::<(), EndpointError>(
            EndpointError::NotFound,
        ) <==> !has_eth(old(network).ethernets@, ethernet_name@)),
        r is Ok <==> parse_ip_spec(address@) is Some && has_eth(
            old(network).ethernets@,
            ethernet_name@,
        ),
        r is Ok ==> ({
            let i = first_eth_index(old(network).ethernets@, ethernet_name@);
            let a = parse_ip_spec(address@).unwrap();
            let olde = old(network).ethernets@[i];
            &&& only_eth_changed(old(network).ethernets@, final (network).ethernets@, i)
            &&& final (network).ethernets@[i] == (Ethernet {
                nameservers: final (network).ethernets@[i].nameservers,
                ..olde
            })
            &&& final (network).ethernets@[i].nameservers.search == olde.nameservers.search
            &&& final (network).ethernets@[i].nameservers.spec_addresses() == (if olde
                .nameservers.spec_addresses().contains(a) {
                olde.nameservers.spec_addresses()
            } else {
                olde.nameservers.spec_addresses().push(a)
            })
        }),
        old(network).wf() ==> final (network).wf(),
{
    let parsed = match parse_ip(address.as_str()) {
        Some(a) => a,
        None => {
            return Err(EndpointError::BadRequest);
        },
    };
    let ghost olde = network.ethernets@;
    match eth_index_of(&network.ethernets, ethernet_name) {
        None => Err(EndpointError::NotFound),
        Some(i) => {
            proof {
                lemma_first_eth_index(olde, ethernet_name@);
            }
            let e = vstd::std_specs::vec::vec_index_mut(&mut network.ethernets, i);
            e.add_nameservers_address(&parsed);
            proof {
                if old(network).wf() {
                    lemma_network_update_wf(olde, network.ethernets@, i as int);
                }
            }
            Ok(())
        },
    }
}

/// Removes a nameserver address from the named interface.
pub fn delete_ethernet_nameservers_address(
    network: &mut Network,
    ethernet_name: &String,
    address: &String,
) -> (r: Result<(), EndpointError>)
    ensures
        final (network).version == old(network).version,
        final (network).renderer == old(network).renderer,
        r is Err ==> *final (network) == *old(network),
        r == Err::<(), EndpointError>(EndpointError::BadRequest) <==> parse_ip_spec(
            address@,
        ) is None,
        parse_ip_spec(address@) is Some ==> (r == Err::<(), EndpointError>(
            EndpointError::NotFound,
        ) <==> !has_eth(old(network).ethernets@, ethernet_name@)),
        r is Ok <==> parse_ip_spec(address@) is Some && has_eth(
            old(network).ethernets@,
            ethernet_name@,
        ),
        r is Ok ==> ({
            let i = first_eth_index(old(network).ethernets@, ethernet_name@);
            let a = parse_ip_spec(address@).unwrap();
            let olde = old(network).ethernets@[i];
            &&& only_eth_changed(old(network).ethernets@, final (network).ethernets@, i)
            &&& final (network).ethernets@[i] == (Ethernet {
                nameservers: final (network).ethernets@[i].nameservers,
                ..olde
            })
            &&& final (network).ethernets@[i].nameservers.search == olde.nameservers.search
            &&& final (network).ethernets@[i].nameservers.spec_addresses() == remove_first(
                olde.nameservers.spec_addresses(),
                a,
            )
        }),
        old(network).wf() ==> final (network).wf(),
{
    let parsed = match parse_ip(address.as_str()) {
        Some(a) => a,
        None => {
            return Err(EndpointError::BadRequest);
        },
    };
    let ghost olde = network.ethernets@;
    match eth_index_of(&network.ethernets, ethernet_name) {
        None => Err(EndpointError::NotFound),
        Some(i) => {
            proof {
                lemma_first_eth_index(olde, ethernet_name@);
            }
            let e = vstd::std_specs::vec::vec_index_mut(&mut network.ethernets, i);
            e.delete_nameservers_address(&parsed);
            proof {
                if old(network).wf() {
                    lemma_network_update_wf(olde, network.ethernets@, i as int);
                }
            }
            Ok(())
        },
    }
}

/// Adds a route to the named interface; a route with the identity of an
/// existing one overwrites it, so re-adding the same route is idempotent.
pub fn add_ethernet_route(
    network: &mut Network,
    ethernet_name: &String,
    input_route: &InputRoute,
) -> (r: Result<(), EndpointError>)
    ensures
        final (network).version == old(network).version,
        final (network).renderer == old(network).renderer,
        r is Err ==> *final (network) == *old(network),
        r == Err::<(), EndpointError>(EndpointError::BadRequest) <==> spec_input_route(
            *input_route,
        ) is None,
        spec_input_route(*input_route) is Some ==> (r == Err::<(), EndpointError>(
            EndpointError::NotFound,
        ) <==> !has_eth(old(network).ethernets@, ethernet_name@)),
        r is Ok <==> spec_input_route(*input_route) is Some && has_eth(
            old(network).ethernets@,
            ethernet_name@,
        ),
        r is Ok ==> ({
            let i = first_eth_index(old(network).ethernets@, ethernet_name@);
            let rt = spec_input_route(*input_route).unwrap();
            let olde = old(network).ethernets@[i];
            &&& only_eth_changed(old(network).ethernets@, final (network).ethernets@, i)
            &&& final (network).ethernets@[i] == (Ethernet {
                routes: final (network).ethernets@[i].routes,
                ..olde
            })
            &&& final (network).ethernets@[i].routes@ == route_upsert(olde.routes@, rt)
        }),
        old(network).wf() ==> final (network).wf(),
{
    let route = match Route::from_input_route(input_route) {
        Ok(rt) => rt,
        Err(_) => {
            return Err(EndpointError::BadRequest);
        },
    };
    let ghost olde = network.ethernets@;
    match eth_index_of(&network.ethernets, ethernet_name) {
        None => Err(EndpointError::NotFound),
        Some(i) => {
            proof {
                lemma_first_eth_index(olde, ethernet_name@);
            }
            let e = vstd::std_specs::vec::vec_index_mut(&mut network.ethernets, i);
            e.add_route(&route);
            proof {
                if old(network).wf() {
                    lemma_network_update_wf(olde, network.ethernets@, i as int);
                }
            }
            Ok(())
        },
    }
}

/// Removes the route with the given identity from the named interface;
/// removing an unknown identity is accepted and changes nothing.
pub fn delete_ethernet_route(
    network: &mut Network,
    ethernet_name: &String,
    route_id: &String,
) -> (r: Result<(), EndpointError>)
    ensures
        final (network).version == old(network).version,
        final (network).renderer == old(network).renderer,
        r is Err ==> r == Err::<(), EndpointError>(EndpointError::NotFound) && *final (network)
            == *old(network),
        r is Ok <==> has_eth(old(network).ethernets@, ethernet_name@),
        r is Ok ==> ({
            let i = first_eth_index(old(network).ethernets@, ethernet_name@);
            let olde = old(network).ethernets@[i];
            &&& only_eth_changed(old(network).ethernets@, final (network).ethernets@, i)
            &&& final (network).ethernets@[i] == (Ethernet {
                routes: final (network).ethernets@[i].routes,
                ..olde
            })
            &&& final (network).ethernets@[i].routes@ == route_remove_id(olde.routes@, route_id@)
        }),
        old(network).wf() ==> final (network).wf(),
{
    let ghost olde = network.ethernets@;
    match eth_index_of(&network.ethernets, ethernet_name) {
        None => Err(EndpointError::NotFound),
        Some(i) => {
            proof {
                lemma_first_eth_index(olde, ethernet_name@);
            }
            let e = vstd::std_specs::vec::vec_index_mut(&mut network.ethernets, i);
            e.delete_route(route_id);
            proof {
                if old(network).wf() {
                    lemma_network_update_wf(olde, network.ethernets@, i as int);
                }
            }
            Ok(())
        },
    }
}

/// Drops every route of the named interface.
pub fn delete_ethernet_routes(network: &mut Network, ethernet_name: &String) -> (r: Result<
    (),
    EndpointError,
>)
    ensures
        final (network).version == old(network).version,
        final (network).renderer == old(network).renderer,
        r is Err ==> r == Err::<(), EndpointError>(EndpointError::NotFound) && *final (network)
            == *old(network),
        r is Ok <==> has_eth(old(network).ethernets@, ethernet_name@),
        r is Ok ==> ({
            let i = first_eth_index(old(network).ethernets@, ethernet_name@);
            let olde = old(network).ethernets@[i];
            &&& only_eth_changed(old(network).ethernets@, final (network).ethernets@, i)
            &&& final (network).ethernets@[i] == (Ethernet {
                routes: final (network).ethernets@[i].routes,
                ..olde
            })
            &&& final (network).ethernets@[i].routes@.len() == 0
        }),
        old(network).wf() ==> final (network).wf(),
{
    let ghost olde = network.ethernets@;
    match eth_index_of(&network.ethernets, ethernet_name) {
        None => Err(EndpointError::NotFound),
        Some(i) => {
            proof {
                lemma_first_eth_index(olde, ethernet_name@);
            }
            let e = vstd::std_specs::vec::vec_index_mut(&mut network.ethernets, i);
            e.delete_all_routes();
            proof {
                if old(network).wf() {
                    lemma_network_update_wf(olde, network.ethernets@, i as int);
                }
            }
            Ok(())
        },
    }
}

/// The live interface names the persisted document does not hold yet, in
/// report order; the full interface listing adds these as fresh entries.
pub open spec fn missing_names_spec(all: Seq<Seq<char>>, es: Seq<Ethernet>) -> Seq<Seq<char>>
    decreases all.len(),
{
    if all.len() == 0 {
        Seq::empty()
    } else {
        (if has_eth(es, all[0]) {
            Seq::empty()
        } else {
            seq![all[0]]
        }) + missing_names_spec(all.drop_first(), es)
    }
}

/// The live names not yet present in the document.
pub fn unconfigured_ethernets(network: &Network, all_names: &Vec<String>) -> (r: Vec<String>)
    ensures
        string_views(r@) == missing_names_spec(string_views(all_names@), network.ethernets@),
{
    let ghost av = string_views(all_names@);
    let ghost es = network.ethernets@;
    let mut r: Vec<String> = Vec::new();
    let mut i: usize = 0;
    assert(av.skip(0) =~= av);
    assert(string_views(r@) + missing_names_spec(av, es) =~= missing_names_spec(av, es));
    while i < all_names.len()
        invariant
            i <= all_names.len(),
            av == string_views(all_names@),
            es == network.ethernets@,
            av.len() == all_names@.len(),
            string_views(r@) + missing_names_spec(av.skip(i as int), es) == missing_names_spec(
                av,
                es,
            ),
        decreases all_names.len() - i,
    {
        proof {
            assert(av.skip(i as int)[0] == av[i as int]);
            assert(av[i as int] == all_names@[i as int]@);
            assert(av.skip(i as int).drop_first() =~= av.skip(i + 1));
        }
        let ghost pre = string_views(r@);
        match network.get_ethernet(&all_names[i]) {
            Some(_) => {
                proof {
                    lemma_find_eth_some(es, av[i as int]);
                    assert(string_views(r@) + missing_names_spec(av.skip(i + 1), es)
                        =~= missing_names_spec(av, es));
                }
            },
            None => {
                proof {
                    lemma_find_eth_some(es, av[i as int]);
                }
                r.push(all_names[i].clone());
                assert(string_views(r@) =~= pre.push(av[i as int]));
                assert(string_views(r@) + missing_names_spec(av.skip(i + 1), es)
                    =~= missing_names_spec(av, es));
            },
        }
        i += 1;
    }
    proof {
        assert(av.skip(av.len() as int) =~= Seq::<Seq<char>>::empty());
        assert(string_views(r@) =~= missing_names_spec(av, es));
    }
    r
}

} // verus!
