//! One managed ethernet interface and its settings.
use crate::custom_types::{MTU, MTUV6};
use crate::input_models::InputDevice;
use crate::ip::IpAddress;
use crate::nameservers::Nameservers;
use crate::route::{has_route_id, lemma_route_remove_absent, lemma_route_remove_at,
    lemma_route_upsert_distinct, lemma_route_upsert_push, lemma_route_upsert_update, route_ids,
    route_remove_id, route_upsert, Route};
use crate::util::{distinct, lemma_distinct_push, lemma_remove_first_absent, lemma_remove_first_at,
    lemma_remove_first_distinct, remove_first};
use crate::yaml::YamlNode;
use vstd::prelude::*;

verus! {

/// An interface address: an IP address together with its prefix length.
#[derive(Clone, Copy, Debug, PartialEq, Eq, Structural)]
pub struct InterfaceAddress {
    pub ip: IpAddress,
    pub prefix_len: u8,
}

impl InterfaceAddress {
    /// The prefix length fits the address family.
    pub open spec fn wf(self) -> bool {
        match self.ip {
            IpAddress::V4(_, _, _, _) => self.prefix_len <= 32,
            IpAddress::V6(_, _, _, _, _, _, _, _) => self.prefix_len <= 128,
        }
    }
}

/// One ethernet device: its identity, device-level settings, and the
/// collections hanging off it.  `dynamic_addresses` and `system_state` are
/// derived from the live system on load and never persisted.
pub struct Ethernet {
    pub name: String,
    pub dhcp4: bool,
    pub dhcp6: bool,
    pub mtu: Option<MTU>,
    pub ipv6_mtu: Option<MTUV6>,
    pub accept_ra: Option<bool>,
    pub routes: Vec<Route>,
    pub addresses: Vec<InterfaceAddress>,
    pub nameservers: Nameservers,
    pub dynamic_addresses: Vec<String>,
    pub system_state: Vec<(String, YamlNode)>,
}

impl Ethernet {
    /// Route identities are distinct, addresses are duplicate-free, and the
    /// nameserver lists are well formed.
    pub open spec fn wf(self) -> bool {
        distinct(route_ids(self.routes@)) && distinct(self.addresses@) && self.nameservers.wf()
    }

    pub fn new(name: String) -> (r: Self)
        ensures
            r.name == name,
            r.dhcp4 == false,
            r.dhcp6 == false,
            r.mtu is None,
            r.ipv6_mtu is None,
            r.accept_ra is None,
            r.routes@ =~= Seq::<Route>::empty(),
            r.addresses@ =~= Seq::<InterfaceAddress>::empty(),
            r.nameservers.spec_search() =~= Seq::<Seq<char>>::empty(),
            r.nameservers.spec_addresses() =~= Seq::<IpAddress>::empty(),
            r.dynamic_addresses@ =~= Seq::<String>::empty(),
            r.system_state@ =~= Seq::<(String, YamlNode)>::empty(),
            r.wf(),
    {
        Ethernet {
            name,
            dhcp4: false,
            dhcp6: false,
            mtu: None,
            ipv6_mtu: None,
            accept_ra: None,
            routes: Vec::new(),
            addresses: Vec::new(),
            nameservers: Nameservers::new(),
            dynamic_addresses: Vec::new(),
            system_state: Vec::new(),
        }
    }

    pub fn name(&self) -> (r: String)
        ensures
            r == self.name,
    {
        self.name.clone()
    }

    /// A fresh interface carrying the device-level settings of the input;
    /// absent dhcp fields fall back to the defaults.
    pub fn from_input_device(name: &str, input_device: &InputDevice) -> (r: Self)
        ensures
            r.name@ == name@,
            r.dhcp4 == (match input_device.dhcp4 {
                Some(b) => b,
                None => false,
            }),
            r.dhcp6 == (match input_device.dhcp6 {
                Some(b) => b,
                None => false,
            }),
            r.accept_ra == input_device.accept_ra,
            r.mtu == input_device.mtu,
            r.ipv6_mtu == input_device.ipv6_mtu,
            r.routes@ =~= Seq::<Route>::empty(),
            r.addresses@ =~= Seq::<InterfaceAddress>::empty(),
            r.nameservers.spec_search() =~= Seq::<Seq<char>>::empty(),
            r.nameservers.spec_addresses() =~= Seq::<IpAddress>::empty(),
            r.wf(),
    {
        let mut result = Self::new(String::from_str(name));
        if let Some(dhcp) = input_device.dhcp4 {
            result.set_dhcp4(dhcp);
        }
        if let Some(dhcp6) = input_device.dhcp6 {
            result.set_dhcp6(dhcp6);
        }
        result.set_accept_ra(input_device.accept_ra);
        result.set_mtu(input_device.mtu);
        result.set_ipv6_mtu(input_device.ipv6_mtu);
        result
    }

    /// Takes over the device-level settings of another interface, keeping
    /// identity, collections and derived state.
    pub fn update_from_device(&mut self, other: &Ethernet)
        ensures
            *final (self) == (Ethernet {
                dhcp4: other.dhcp4,
                dhcp6: other.dhcp6,
                mtu: other.mtu,
                ipv6_mtu: other.ipv6_mtu,
                accept_ra: other.accept_ra,
                ..*old(self)
            }),
    {
        self.dhcp4 = other.dhcp4;
        self.dhcp6 = other.dhcp6;
        self.mtu = other.mtu;
        self.ipv6_mtu = other.ipv6_mtu;
        self.accept_ra = other.accept_ra;
    }

    pub fn set_dhcp4(&mut self, set: bool)
        ensures
            *final (self) == (Ethernet { dhcp4: set, ..*old(self) }),
    {
        self.dhcp4 = set;
    }

    pub fn get_dhcp4(&self) -> (r: bool)
        ensures
            r == self.dhcp4,
    {
        self.dhcp4
    }

    pub fn get_dhcp6(&self) -> (r: bool)
        ensures
            r == self.dhcp6,
    {
        self.dhcp6
    }

    pub fn set_dhcp6(&mut self, set: bool)
        ensures
            *final (self) == (Ethernet { dhcp6: set, ..*old(self) }),
    {
        self.dhcp6 = set;
    }

    pub fn set_accept_ra(&mut self, set: Option<bool>)
        ensures
            *final (self) == (Ethernet { accept_ra: set, ..*old(self) }),
    {
        self.accept_ra = set;
    }

    pub fn get_accept_ra(&self) -> (r: Option<bool>)
        ensures
            r == self.accept_ra,
    {
        self.accept_ra
    }

    pub fn get_mtu(&self) -> (r: Option<MTU>)
        ensures
            r == self.mtu,
    {
        self.mtu
    }

    pub fn set_mtu(&mut self, mtu: Option<MTU>)
        ensures
            *final (self) == (Ethernet { mtu, ..*old(self) }),
    {
        self.mtu = mtu;
    }

    pub fn set_ipv6_mtu(&mut self, mtu: Option<MTUV6>)
        ensures
            *final (self) == (Ethernet { ipv6_mtu: mtu, ..*old(self) }),
    {
        self.ipv6_mtu = mtu;
    }

    pub fn get_ipv6_mtu(&self) -> (r: Option<MTUV6>)
        ensures
            r == self.ipv6_mtu,
    {
        self.ipv6_mtu
    }

    pub fn get_addresses(&self) -> (r: &Vec<InterfaceAddress>)
        ensures
            r@ == self.addresses@,
    {
        &self.addresses
    }

    /// Adds an address unless it is already present.
    pub fn add_address(&mut self, address: &InterfaceAddress)
        ensures
            *final (self) == (Ethernet { addresses: final (self).addresses, ..*old(self) }),
            final (self).addresses@ == if old(self).addresses@.contains(*address) {
                old(self).addresses@
            } else {
                old(self).addresses@.push(*address)
            },
            old(self).wf() ==> final (self).wf(),
    {
        if !contains_interface_address(&self.addresses, address) {
            proof {
                if old(self).wf() {
                    lemma_distinct_push(self.addresses@, *address);
                }
            }
            self.addresses.push(*address);
        }
    }

    /// Removes an address; reports whether it was present.
    pub fn delete_address(&mut self, address: &InterfaceAddress) -> (r: bool)
        ensures
            *final (self) == (Ethernet { addresses: final (self).addresses, ..*old(self) }),
            r == old(self).addresses@.contains(*address),
            final (self).addresses@ == remove_first(old(self).addresses@, *address),
            old(self).wf() ==> final (self).wf(),
    {
        proof {
            if old(self).wf() {
                lemma_remove_first_distinct(self.addresses@, *address);
            }
        }
        let ghost pre = self.addresses@;
        let mut i: usize = 0;
        while i < self.addresses.len()
            invariant
                i <= self.addresses.len(),
                *self == *old(self),
                pre == self.addresses@,
                forall|j: int| 0 <= j < i ==> self.addresses@[j] != *address,
            decreases self.addresses.len() - i,
        {
            if self.addresses[i] == *address {
                proof {
                    lemma_remove_first_at(pre, *address, i as int);
                    assert(pre.contains(*address));
                }
                self.addresses.remove(i);
                return true;
            }
            i += 1;
        }
        proof {
            lemma_remove_first_absent(pre, *address);
        }
        false
    }

    pub fn get_nameservers(&self) -> (r: &Nameservers)
        ensures
            *r == self.nameservers,
    {
        &self.nameservers
    }

    /// Replaces the nameserver settings wholesale.
    pub fn add_nameservers(&mut self, nameservers: Nameservers)
        ensures
            *final (self) == (Ethernet { nameservers, ..*old(self) }),
    {
        self.nameservers = nameservers;
    }

    pub fn add_nameservers_search(&mut self, search: &String)
        ensures
            *final (self) == (Ethernet { nameservers: final (self).nameservers, ..*old(self) }),
            final (self).nameservers.addresses == old(self).nameservers.addresses,
            final (self).nameservers.spec_search() == if old(
                self,
            ).nameservers.spec_search().contains(search@) {
                old(self).nameservers.spec_search()
            } else {
                old(self).nameservers.spec_search().push(search@)
            },
            old(self).wf() ==> final (self).wf(),
    {
        self.nameservers.add_search(search);
    }

    pub fn add_nameservers_address(&mut self, address: &IpAddress)
        ensures
            *final (self) == (Ethernet { nameservers: final (self).nameservers, ..*old(self) }),
            final (self).nameservers.search == old(self).nameservers.search,
            final (self).nameservers.spec_addresses() == if old(
                self,
            ).nameservers.spec_addresses().contains(*address) {
                old(self).nameservers.spec_addresses()
            } else {
                old(self).nameservers.spec_addresses().push(*address)
            },
            old(self).wf() ==> final (self).wf(),
    {
        self.nameservers.add_address(address);
    }

    pub fn delete_nameservers_search(&mut self, search: &String) -> (r: bool)
        ensures
            *final (self) == (Ethernet { nameservers: final (self).nameservers, ..*old(self) }),
            final (self).nameservers.addresses == old(self).nameservers.addresses,
            r == old(self).nameservers.spec_search().contains(search@),
            final (self).nameservers.spec_search() == remove_first(
                old(self).nameservers.spec_search(),
                search@,
            ),
            old(self).wf() ==> final (self).wf(),
    {
        self.nameservers.remove_search(search)
    }

    pub fn delete_nameservers_address(&mut self, address: &IpAddress) -> (r: bool)
        ensures
            *final (self) == (Ethernet { nameservers: final (self).nameservers, ..*old(self) }),
            final (self).nameservers.search == old(self).nameservers.search,
            r == old(self).nameservers.spec_addresses().contains(*address),
            final (self).nameservers.spec_addresses() == remove_first(
                old(self).nameservers.spec_addresses(),
                *address,
            ),
            old(self).wf() ==> final (self).wf(),
    {
        self.nameservers.remove_address(address)
    }

    pub fn get_routes(&self) -> (r: &Vec<Route>)
        ensures
            r@ == self.routes@,
    {
        &self.routes
    }

    /// Sets the route under its identity: an entry with the same identity is
    /// overwritten, otherwise the route is appended.
    pub fn add_route(&mut self, route: &Route)
        ensures
            *final (self) == (Ethernet { routes: final (self).routes, ..*old(self) }),
            final (self).routes@ == route_upsert(old(self).routes@, *route),
            old(self).wf() ==> final (self).wf(),
    {
        crate::route::upsert_route_vec(&mut self.routes, route);
    }

    /// Removes the route with the given identity; reports whether one was
    /// present.
    pub fn delete_route(&mut self, route_id: &String) -> (r: bool)
        ensures
            *final (self) == (Ethernet { routes: final (self).routes, ..*old(self) }),
            r == has_route_id(old(self).routes@, route_id@),
            final (self).routes@ == route_remove_id(old(self).routes@, route_id@),
            old(self).wf() ==> final (self).wf(),
    {
        let ghost pre = self.routes@;
        let mut i: usize = 0;
        while i < self.routes.len()
            invariant
                i <= self.routes.len(),
                *self == *old(self),
                pre == self.routes@,
                forall|j: int| 0 <= j < i ==> self.routes@[j].id_seq() != route_id@,
            decreases self.routes.len() - i,
        {
            let eid = self.routes[i].id();
            if eid == *route_id {
                proof {
                    lemma_route_remove_at(pre, route_id@, i as int);
                    assert(route_ids(pre)[i as int] == route_id@);
                    assert(has_route_id(pre, route_id@));
                    if old(self).wf() {
                        let post = pre.subrange(0, i as int) + pre.subrange(
                            i + 1,
                            pre.len() as int,
                        );
                        assert forall|a: int, b: int|
                            0 <= a < b < post.len() implies route_ids(post)[a] != route_ids(
                            post,
                        )[b] by {
                            let a0 = if a < i { a } else { a + 1 };
                            let b0 = if b < i { b } else { b + 1 };
                            assert(post[a] == pre[a0] && post[b] == pre[b0]);
                            assert(route_ids(pre)[a0] != route_ids(pre)[b0]);
                        }
                    }
                }
                self.routes.remove(i);
                return true;
            }
            i += 1;
        }
        proof {
            assert(!has_route_id(pre, route_id@)) by {
                if has_route_id(pre, route_id@) {
                    let k = choose|k: int|
                        0 <= k < route_ids(pre).len() && route_ids(pre)[k] == route_id@;
                    assert(pre[k].id_seq() == route_id@);
                }
            }
            lemma_route_remove_absent(pre, route_id@);
        }
        false
    }

    /// Drops every route.
    pub fn delete_all_routes(&mut self)
        ensures
            *final (self) == (Ethernet { routes: final (self).routes, ..*old(self) }),
            final (self).routes@ =~= Seq::<Route>::empty(),
            old(self).wf() ==> final (self).wf(),
    {
        self.routes = Vec::new();
    }

    pub fn get_dynamic_addresses(&self) -> (r: &Vec<String>)
        ensures
            r@ == self.dynamic_addresses@,
    {
        &self.dynamic_addresses
    }

    pub fn set_dynamic_addresses(&mut self, addresses: Vec<String>)
        ensures
            *final (self) == (Ethernet { dynamic_addresses: addresses, ..*old(self) }),
    {
        self.dynamic_addresses = addresses;
    }

    pub fn get_system_state(&self) -> (r: &Vec<(String, YamlNode)>)
        ensures
            r@ == self.system_state@,
    {
        &self.system_state
    }

    pub fn set_system_state(&mut self, state: Vec<(String, YamlNode)>)
        ensures
            *final (self) == (Ethernet { system_state: state, ..*old(self) }),
    {
        self.system_state = state;
    }
}

/// Whether the vector holds the given interface address.
pub fn contains_interface_address(v: &Vec<InterfaceAddress>, x: &InterfaceAddress) -> (r: bool)
    ensures
        r == v@.contains(*x),
{
    let mut i: usize = 0;
    while i < v.len()
        invariant
            i <= v.len(),
            forall|j: int| 0 <= j < i ==> v@[j] != *x,
        decreases v.len() - i,
    {
        if v[i] == *x {
            return true;
        }
        i += 1;
    }
    false
}

} // verus!
