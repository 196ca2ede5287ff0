//! The persisted document: how a Network is written as YAML and how the
//! written form is read back.
//!
//! On disk each interface's routes are a sequence; in memory they are keyed
//! by the deterministic route identity.  This module performs that
//! adaptation at the load/save boundary, injects the interface name and the
//! observed `system_state` and dynamic addresses on load, and nothing else
//! of the model depends on the file format's shape.
use crate::custom_types::BoundedU32;
use crate::ethernet::{Ethernet, InterfaceAddress};
use crate::ip::{dec_of, dec_string, dec_val, ip_text, parse_ip, parse_ip_spec, split_char,
    str_to_chars, valid_dec, IpAddress};
use crate::nameservers::Nameservers;
use crate::network::{Network, NetworkRenderer};
use crate::route::Route;
use crate::yaml::{dict_get_spec, YamlNode};
use vstd::prelude::*;

verus! {

/// How an address field of a route is written: the unspecified address of
/// either family becomes the word "default".
pub open spec fn ip_serial(ip: IpAddress) -> Seq<char> {
    if ip.spec_is_unspecified() {
        "default"@
    } else {
        ip_text(ip)
    }
}

/// How a written address field is read back: the word "default" names the
/// unspecified IPv4 address.
pub open spec fn parse_persisted_ip(s: Seq<char>) -> Option<IpAddress> {
    if s == "default"@ {
        Some(IpAddress::V4(0u8, 0u8, 0u8, 0u8))
    } else {
        parse_ip_spec(s)
    }
}

/// How an interface address is written: address, slash, prefix length.
pub open spec fn addr_text(a: InterfaceAddress) -> Seq<char> {
    ip_text(a.ip) + seq!['/'] + dec_of(a.prefix_len as nat)
}

/// How a written interface address is read back.
pub open spec fn decode_addr_spec(s: Seq<char>) -> Option<InterfaceAddress> {
    let parts = split_char(s, '/');
    if parts.len() == 2 {
        match (parse_ip_spec(parts[0]), crate::ip::parse_octet(parts[1])) {
            (Some(ip), Some(p)) => {
                let a = InterfaceAddress { ip, prefix_len: p };
                if a.wf() {
                    Some(a)
                } else {
                    None
                }
            },
            _ => None,
        }
    } else {
        None
    }
}

/// The node is the given text.
pub open spec fn node_is_text(n: YamlNode, s: Seq<char>) -> bool {
    match n {
        YamlNode::Text(t) => t@ == s,
        _ => false,
    }
}

/// A route's document form: its present fields in the order from, to, via,
/// each as serialized address text.
pub open spec fn route_doc_encodes(r: Route, d: YamlNode) -> bool {
    match d {
        YamlNode::Dict(es) => {
            let k: int = if r.from is Some {
                1
            } else {
                0
            };
            let m: int = if r.via is Some {
                1
            } else {
                0
            };
            &&& es@.len() == k + 1 + m
            &&& (match r.from {
                Some(ip) => es@[0].0@ == "from"@ && node_is_text(es@[0].1, ip_serial(ip)),
                None => true,
            })
            &&& es@[k].0@ == "to"@
            &&& node_is_text(es@[k].1, ip_serial(r.to))
            &&& (match r.via {
                Some(ip) => es@[k + 1].0@ == "via"@ && node_is_text(es@[k + 1].1, ip_serial(ip)),
                None => true,
            })
        },
        _ => false,
    }
}

/// An optional address field read back: absent or null is none, text must
/// parse, anything else is an error.
pub open spec fn decode_opt_ip(o: Option<YamlNode>) -> Option<Option<IpAddress>> {
    match o {
        None => Some(None),
        Some(n) => match n {
            YamlNode::Null => Some(None),
            YamlNode::Text(s) => match parse_persisted_ip(s@) {
                Some(ip) => Some(Some(ip)),
                None => None,
            },
            _ => None,
        },
    }
}

/// A route read back from its document form; fields are found by key.
pub open spec fn decode_route_spec(d: YamlNode) -> Option<Route> {
    match d.spec_entries() {
        None => None,
        Some(es) => {
            let fo = decode_opt_ip(dict_get_spec(es, "from"@));
            let vo = decode_opt_ip(dict_get_spec(es, "via"@));
            let to = match dict_get_spec(es, "to"@) {
                Some(n) => match n {
                    YamlNode::Text(t) => parse_persisted_ip(t@),
                    _ => None,
                },
                None => None,
            };
            match (fo, to, vo) {
                (Some(f), Some(t), Some(v)) => Some(Route { from: f, to: t, via: v }),
                _ => None,
            }
        },
    }
}

/// The serialized form of one route address field.
pub fn ip_serial_string(ip: &IpAddress) -> (s: String)
    ensures
        s@ == ip_serial(*ip),
{
    if ip.is_unspecified() {
        String::from_str("default")
    } else {
        ip.to_text()
    }
}

/// Writes one route in its document form.
pub fn route_to_doc(r: &Route) -> (d: YamlNode)
    ensures
        route_doc_encodes(*r, d),
{
    let mut es: Vec<(String, YamlNode)> = Vec::new();
    match r.from {
        Some(ip) => {
            es.push((String::from_str("from"), YamlNode::Text(ip_serial_string(&ip))));
        },
        None => {},
    }
    es.push((String::from_str("to"), YamlNode::Text(ip_serial_string(&r.to))));
    match r.via {
        Some(ip) => {
            es.push((String::from_str("via"), YamlNode::Text(ip_serial_string(&ip))));
        },
        None => {},
    }
    YamlNode::Dict(es)
}

/// Reads one route from its document form.
pub fn route_from_doc(d: &YamlNode) -> (r: Option<Route>)
    ensures
        r == decode_route_spec(*d),
{
    match d.entries() {
        None => None,
        Some(es) => {
            let from_key = String::from_str("from");
            let to_key = String::from_str("to");
            let via_key = String::from_str("via");
            let fo = match crate::yaml::dict_lookup(es, &from_key) {
                None => Some(None),
                Some(n) => match n {
                    YamlNode::Null => Some(None),
                    YamlNode::Text(s) => match parse_persisted_ip_exec(s) {
                        Some(ip) => Some(Some(ip)),
                        None => None,
                    },
                    _ => None,
                },
            };
            let vo = match crate::yaml::dict_lookup(es, &via_key) {
                None => Some(None),
                Some(n) => match n {
                    YamlNode::Null => Some(None),
                    YamlNode::Text(s) => match parse_persisted_ip_exec(s) {
                        Some(ip) => Some(Some(ip)),
                        None => None,
                    },
                    _ => None,
                },
            };
            let to = match crate::yaml::dict_lookup(es, &to_key) {
                Some(n) => match n {
                    YamlNode::Text(t) => parse_persisted_ip_exec(t),
                    _ => None,
                },
                None => None,
            };
            match (fo, to, vo) {
                (Some(f), Some(t), Some(v)) => Some(Route { from: f, to: t, via: v }),
                _ => None,
            }
        },
    }
}

/// Reads one written address field.
fn parse_persisted_ip_exec(s: &String) -> (r: Option<IpAddress>)
    ensures
        r == parse_persisted_ip(s@),
{
    let d = String::from_str("default");
    if *s == d {
        Some(IpAddress::unspecified_v4())
    } else {
        parse_ip(s.as_str())
    }
}

/// The written form of one interface address.
pub fn addr_to_text(a: &InterfaceAddress) -> (s: String)
    ensures
        s@ == addr_text(*a),
{
    let mut s = a.ip.to_text();
    proof {
        reveal_strlit("/");
    }
    s.append("/");
    s.append(dec_string(a.prefix_len as u32).as_str());
    s
}

/// Reads one written interface address.
pub fn addr_from_text(s: &String) -> (r: Option<InterfaceAddress>)
    ensures
        r == decode_addr_spec(s@),
{
    let v = str_to_chars(s.as_str());
    let parts = crate::ip::split_slash(&v);
    if parts.len() != 2 {
        return None;
    }
    proof {
        assert(crate::ip::views_of(parts@)[0] == parts@[0]@);
        assert(crate::ip::views_of(parts@)[1] == parts@[1]@);
    }
    let ip = match crate::ip::parse_ip_chars(&parts[0]) {
        Some(ip) => ip,
        None => {
            return None;
        },
    };
    let pl = match crate::ip::parse_prefix_len(&parts[1]) {
        Some(p) => p,
        None => {
            return None;
        },
    };
    let a = InterfaceAddress { ip, prefix_len: pl };
    let ok = match a.ip {
        IpAddress::V4(_, _, _, _) => pl <= 32,
        IpAddress::V6(_, _, _, _, _, _, _, _) => pl <= 128,
    };
    if ok {
        Some(a)
    } else {
        None
    }
}

} // verus!

verus! {

/// The node is a list of exactly these texts.
pub open spec fn texts_list_encodes(xs: Seq<Seq<char>>, n: YamlNode) -> bool {
    match n {
        YamlNode::List(items) => items@.len() == xs.len() && forall|i: int|
            0 <= i < xs.len() ==> node_is_text(#[trigger] items@[i], xs[i]),
        _ => false,
    }
}

/// The plain texts of nameserver addresses.
pub open spec fn ip_texts(ips: Seq<IpAddress>) -> Seq<Seq<char>> {
    Seq::new(ips.len(), |i: int| ip_text(ips[i]))
}

/// The written texts of interface addresses.
pub open spec fn addr_texts(addrs: Seq<InterfaceAddress>) -> Seq<Seq<char>> {
    Seq::new(addrs.len(), |i: int| addr_text(addrs[i]))
}

/// The nameserver block: its nonempty member lists, search first.
pub open spec fn ns_doc_encodes(ns: Nameservers, d: YamlNode) -> bool {
    match d {
        YamlNode::Dict(es) => {
            let s1: int = if ns.search@.len() > 0 {
                1
            } else {
                0
            };
            let a1: int = if ns.addresses@.len() > 0 {
                1
            } else {
                0
            };
            &&& es@.len() == s1 + a1
            &&& (ns.search@.len() > 0 ==> es@[0].0@ == "search"@ && texts_list_encodes(
                ns.spec_search(),
                es@[0].1,
            ))
            &&& (ns.addresses@.len() > 0 ==> es@[s1].0@ == "addresses"@ && texts_list_encodes(
                ip_texts(ns.addresses@),
                es@[s1].1,
            ))
        },
        _ => false,
    }
}

/// The node is a list of exactly the documents of these routes.
pub open spec fn routes_list_encodes(rs: Seq<Route>, n: YamlNode) -> bool {
    match n {
        YamlNode::List(items) => items@.len() == rs.len() && forall|i: int|
            0 <= i < rs.len() ==> route_doc_encodes(rs[i], #[trigger] items@[i]),
        _ => false,
    }
}

/// An optional integer member: null when absent.
pub open spec fn node_is_opt_int(n: YamlNode, o: Option<int>) -> bool {
    match n {
        YamlNode::Null => o is None,
        YamlNode::Int(x) => o == Some(x as int),
        _ => false,
    }
}

/// An optional boolean member: null when absent.
pub open spec fn node_is_opt_bool(n: YamlNode, o: Option<bool>) -> bool {
    match n {
        YamlNode::Null => o is None,
        YamlNode::Bool(b) => o == Some(b),
        _ => false,
    }
}

/// The wrapped value of an optional bounded integer.
pub open spec fn bounded_opt_val<const MIN: u32, const MAX: u32>(
    o: Option<BoundedU32<MIN, MAX>>,
) -> Option<int> {
    match o {
        None => None,
        Some(b) => Some(b.spec_value() as int),
    }
}

/// One interface's document body: device members in declaration order,
/// routes and addresses only when nonempty, nameservers always; identity
/// and derived state are never written.
pub open spec fn eth_doc_encodes(e: Ethernet, d: YamlNode) -> bool {
    match d {
        YamlNode::Dict(es) => {
            let nr: int = if e.routes@.len() > 0 {
                1
            } else {
                0
            };
            let na: int = if e.addresses@.len() > 0 {
                1
            } else {
                0
            };
            &&& es@.len() == 6 + nr + na
            &&& es@[0].0@ == "dhcp4"@
            &&& es@[0].1 == YamlNode::Bool(e.dhcp4)
            &&& es@[1].0@ == "dhcp6"@
            &&& es@[1].1 == YamlNode::Bool(e.dhcp6)
            &&& es@[2].0@ == "mtu"@
            &&& node_is_opt_int(es@[2].1, bounded_opt_val(e.mtu))
            &&& es@[3].0@ == "ipv6-mtu"@
            &&& node_is_opt_int(es@[3].1, bounded_opt_val(e.ipv6_mtu))
            &&& es@[4].0@ == "accept-ra"@
            &&& node_is_opt_bool(es@[4].1, e.accept_ra)
            &&& (e.routes@.len() > 0 ==> es@[5].0@ == "routes"@ && routes_list_encodes(
                e.routes@,
                es@[5].1,
            ))
            &&& (e.addresses@.len() > 0 ==> es@[5 + nr].0@ == "addresses"@ && texts_list_encodes(
                addr_texts(e.addresses@),
                es@[5 + nr].1,
            ))
            &&& es@[5 + nr + na].0@ == "nameservers"@
            &&& ns_doc_encodes(e.nameservers, es@[5 + nr + na].1)
        },
        _ => false,
    }
}

/// The written name of the renderer.
pub open spec fn renderer_text(r: NetworkRenderer) -> Seq<char> {
    match r {
        NetworkRenderer::NetworkD => "networkd"@,
        NetworkRenderer::NetworkManager => "NetworkManager"@,
    }
}

/// The whole document: one `network` mapping holding version, renderer and
/// the name-keyed interface bodies in order.
pub open spec fn network_doc_encodes(n: Network, d: YamlNode) -> bool {
    match d {
        YamlNode::Dict(top) => top@.len() == 1 && top@[0].0@ == "network"@ && match top@[0].1 {
            YamlNode::Dict(body) => {
                &&& body@.len() == 3
                &&& body@[0].0@ == "version"@
                &&& body@[0].1 == YamlNode::Int(n.version as i64)
                &&& body@[1].0@ == "renderer"@
                &&& node_is_text(body@[1].1, renderer_text(n.renderer))
                &&& body@[2].0@ == "ethernets"@
                &&& match body@[2].1 {
                    YamlNode::Dict(eths) => eths@.len() == n.ethernets@.len() && forall|i: int|
                        0 <= i < n.ethernets@.len() ==> (#[trigger] eths@[i]).0@
                            == n.ethernets@[i].name@ && eth_doc_encodes(
                            n.ethernets@[i],
                            eths@[i].1,
                        ),
                    _ => false,
                }
            },
            _ => false,
        },
        _ => false,
    }
}

/// Writes the nameserver block.
pub fn ns_to_doc(ns: &Nameservers) -> (d: YamlNode)
    ensures
        ns_doc_encodes(*ns, d),
{
    let mut es: Vec<(String, YamlNode)> = Vec::new();
    if ns.search.len() > 0 {
        let mut items: Vec<YamlNode> = Vec::new();
        let mut i: usize = 0;
        while i < ns.search.len()
            invariant
                i <= ns.search.len(),
                items@.len() == i,
                forall|j: int|
                    0 <= j < i ==> node_is_text(#[trigger] items@[j], ns.spec_search()[j]),
            decreases ns.search.len() - i,
        {
            items.push(YamlNode::Text(ns.search[i].clone()));
            i += 1;
        }
        es.push((String::from_str("search"), YamlNode::List(items)));
    }
    if ns.addresses.len() > 0 {
        let mut items: Vec<YamlNode> = Vec::new();
        let mut i: usize = 0;
        while i < ns.addresses.len()
            invariant
                i <= ns.addresses.len(),
                items@.len() == i,
                forall|j: int|
                    0 <= j < i ==> node_is_text(#[trigger] items@[j], ip_texts(ns.addresses@)[j]),
            decreases ns.addresses.len() - i,
        {
            items.push(YamlNode::Text(ns.addresses[i].to_text()));
            i += 1;
        }
        es.push((String::from_str("addresses"), YamlNode::List(items)));
    }
    YamlNode::Dict(es)
}

/// Writes one interface's document body.
pub fn eth_to_doc(e: &Ethernet) -> (d: YamlNode)
    ensures
        eth_doc_encodes(*e, d),
{
    let mut es: Vec<(String, YamlNode)> = Vec::new();
    es.push((String::from_str("dhcp4"), YamlNode::Bool(e.dhcp4)));
    es.push((String::from_str("dhcp6"), YamlNode::Bool(e.dhcp6)));
    let mtu_node = match &e.mtu {
        Some(m) => YamlNode::Int(m.value() as i64),
        None => YamlNode::Null,
    };
    es.push((String::from_str("mtu"), mtu_node));
    let mtu6_node = match &e.ipv6_mtu {
        Some(m) => YamlNode::Int(m.value() as i64),
        None => YamlNode::Null,
    };
    es.push((String::from_str("ipv6-mtu"), mtu6_node));
    let ara_node = match e.accept_ra {
        Some(b) => YamlNode::Bool(b),
        None => YamlNode::Null,
    };
    es.push((String::from_str("accept-ra"), ara_node));
    if e.routes.len() > 0 {
        let mut items: Vec<YamlNode> = Vec::new();
        let mut i: usize = 0;
        while i < e.routes.len()
            invariant
                i <= e.routes.len(),
                items@.len() == i,
                forall|j: int|
                    0 <= j < i ==> route_doc_encodes(e.routes@[j], #[trigger] items@[j]),
            decreases e.routes.len() - i,
        {
            items.push(route_to_doc(&e.routes[i]));
            i += 1;
        }
        es.push((String::from_str("routes"), YamlNode::List(items)));
    }
    if e.addresses.len() > 0 {
        let mut items: Vec<YamlNode> = Vec::new();
        let mut i: usize = 0;
        while i < e.addresses.len()
            invariant
                i <= e.addresses.len(),
                items@.len() == i,
                forall|j: int|
                    0 <= j < i ==> node_is_text(#[trigger] items@[j], addr_texts(e.addresses@)[j]),
            decreases e.addresses.len() - i,
        {
            items.push(YamlNode::Text(addr_to_text(&e.addresses[i])));
            i += 1;
        }
        es.push((String::from_str("addresses"), YamlNode::List(items)));
    }
    es.push((String::from_str("nameservers"), ns_to_doc(&e.nameservers)));
    YamlNode::Dict(es)
}

/// Writes the whole document for the persisted file.
pub fn network_to_doc(n: &Network) -> (d: YamlNode)
    ensures
        network_doc_encodes(*n, d),
{
    let mut body: Vec<(String, YamlNode)> = Vec::new();
    body.push((String::from_str("version"), YamlNode::Int(n.version as i64)));
    let rname = match n.renderer {
        NetworkRenderer::NetworkD => String::from_str("networkd"),
        NetworkRenderer::NetworkManager => String::from_str("NetworkManager"),
    };
    body.push((String::from_str("renderer"), YamlNode::Text(rname)));
    let mut eths: Vec<(String, YamlNode)> = Vec::new();
    let mut i: usize = 0;
    while i < n.ethernets.len()
        invariant
            i <= n.ethernets.len(),
            eths@.len() == i,
            forall|j: int|
                0 <= j < i ==> (#[trigger] eths@[j]).0@ == n.ethernets@[j].name@
                    && eth_doc_encodes(n.ethernets@[j], eths@[j].1),
        decreases n.ethernets.len() - i,
    {
        let e = &n.ethernets[i];
        eths.push((e.name.clone(), eth_to_doc(e)));
        i += 1;
    }
    body.push((String::from_str("ethernets"), YamlNode::Dict(eths)));
    let mut top: Vec<(String, YamlNode)> = Vec::new();
    top.push((String::from_str("network"), YamlNode::Dict(body)));
    YamlNode::Dict(top)
}

} // verus!

verus! {

/// Reading the persisted document failed: an invariant violation, since
/// only this engine writes the file.
#[derive(Clone, Copy, Debug, PartialEq, Eq, Structural)]
pub struct DecodeError;

/// A boolean member; absent means false.
pub open spec fn field_bool(es: Seq<(String, YamlNode)>, key: Seq<char>) -> Option<bool> {
    match dict_get_spec(es, key) {
        None => Some(false),
        Some(n) => match n {
            YamlNode::Bool(b) => Some(b),
            _ => None,
        },
    }
}

/// An optional boolean member; absent or null means unset.
pub open spec fn field_opt_bool(es: Seq<(String, YamlNode)>, key: Seq<char>) -> Option<
    Option<bool>,
> {
    match dict_get_spec(es, key) {
        None => Some(None),
        Some(n) => match n {
            YamlNode::Null => Some(None),
            YamlNode::Bool(b) => Some(Some(b)),
            _ => None,
        },
    }
}

/// An optional bounded integer member; out-of-range values are rejected.
pub open spec fn field_opt_bounded(
    es: Seq<(String, YamlNode)>,
    key: Seq<char>,
    lo: int,
    hi: int,
) -> Option<Option<int>> {
    match dict_get_spec(es, key) {
        None => Some(None),
        Some(n) => match n {
            YamlNode::Null => Some(None),
            YamlNode::Int(v) => if lo <= v <= hi {
                Some(Some(v as int))
            } else {
                None
            },
            _ => None,
        },
    }
}

/// A list member; absent means empty.
pub open spec fn field_list(es: Seq<(String, YamlNode)>, key: Seq<char>) -> Option<Seq<YamlNode>> {
    match dict_get_spec(es, key) {
        None => Some(Seq::empty()),
        Some(n) => match n {
            YamlNode::List(items) => Some(items@),
            _ => None,
        },
    }
}

/// The routes read from a document list.
pub open spec fn decode_routes_spec(items: Seq<YamlNode>) -> Option<Seq<Route>>
    decreases items.len(),
{
    if items.len() == 0 {
        Some(Seq::empty())
    } else {
        match (decode_route_spec(items[0]), decode_routes_spec(items.drop_first())) {
            (Some(r), Some(rs)) => Some(seq![r] + rs),
            _ => None,
        }
    }
}

/// The interface addresses read from a document list.
pub open spec fn decode_addrs_spec(items: Seq<YamlNode>) -> Option<Seq<InterfaceAddress>>
    decreases items.len(),
{
    if items.len() == 0 {
        Some(Seq::empty())
    } else {
        let hd = match items[0] {
            YamlNode::Text(s) => decode_addr_spec(s@),
            _ => None,
        };
        match (hd, decode_addrs_spec(items.drop_first())) {
            (Some(a), Some(rs)) => Some(seq![a] + rs),
            _ => None,
        }
    }
}

/// The nameserver addresses read from a document list.
pub open spec fn decode_ips_spec(items: Seq<YamlNode>) -> Option<Seq<IpAddress>>
    decreases items.len(),
{
    if items.len() == 0 {
        Some(Seq::empty())
    } else {
        let hd = match items[0] {
            YamlNode::Text(s) => parse_ip_spec(s@),
            _ => None,
        };
        match (hd, decode_ips_spec(items.drop_first())) {
            (Some(a), Some(rs)) => Some(seq![a] + rs),
            _ => None,
        }
    }
}

/// The nameserver block read back; absent means empty lists.
pub open spec fn ns_pieces(es: Seq<(String, YamlNode)>) -> Option<(Seq<Seq<char>>, Seq<IpAddress>)> {
    match dict_get_spec(es, "nameservers"@) {
        None => Some((Seq::empty(), Seq::empty())),
        Some(n) => match n.spec_entries() {
            None => None,
            Some(nses) => match (field_list(nses, "search"@), field_list(nses, "addresses"@)) {
                (Some(si), Some(ai)) => match (crate::netplan::flags_texts(si), decode_ips_spec(
                    ai,
                )) {
                    (Some(s), Some(a)) => Some((s, a)),
                    _ => None,
                },
                _ => None,
            },
        },
    }
}

/// The raw members one interface body decodes to, before the keyed
/// collapse of routes and the set collapse of the list members.
pub struct EthPieces {
    pub dhcp4: bool,
    pub dhcp6: bool,
    pub mtu: Option<int>,
    pub ipv6_mtu: Option<int>,
    pub accept_ra: Option<bool>,
    pub routes: Seq<Route>,
    pub addresses: Seq<InterfaceAddress>,
    pub search: Seq<Seq<char>>,
    pub ns_addresses: Seq<IpAddress>,
}

/// Reads the members of one interface body.
pub open spec fn eth_pieces(body: YamlNode) -> Option<EthPieces> {
    match body.spec_entries() {
        None => None,
        Some(es) => {
            match (field_bool(es, "dhcp4"@), field_bool(es, "dhcp6"@), field_opt_bounded(
                es,
                "mtu"@,
                68,
                64000,
            ), field_opt_bounded(es, "ipv6-mtu"@, 1280, 64000), field_opt_bool(
                es,
                "accept-ra"@,
            )) {
                (Some(d4), Some(d6), Some(mtu), Some(m6), Some(ara)) => {
                    match (field_list(es, "routes"@), field_list(es, "addresses"@)) {
                        (Some(ritems), Some(aitems)) => match (decode_routes_spec(ritems),
                        decode_addrs_spec(aitems)) {
                            (Some(rs), Some(addrs)) => match ns_pieces(es) {
                                Some(nsp) => Some(
                                    EthPieces {
                                        dhcp4: d4,
                                        dhcp6: d6,
                                        mtu,
                                        ipv6_mtu: m6,
                                        accept_ra: ara,
                                        routes: rs,
                                        addresses: addrs,
                                        search: nsp.0,
                                        ns_addresses: nsp.1,
                                    },
                                ),
                                None => None,
                            },
                            _ => None,
                        },
                        _ => None,
                    }
                },
                _ => None,
            }
        },
    }
}

/// Routes folded under their identities, in document order; a later route
/// with the identity of an earlier one overwrites it.
pub open spec fn routes_fold(rs: Seq<Route>) -> Seq<Route>
    decreases rs.len(),
{
    if rs.len() == 0 {
        Seq::empty()
    } else {
        crate::route::route_upsert(routes_fold(rs.drop_last()), rs.last())
    }
}

/// A list folded to set semantics: duplicates collapse onto their first
/// occurrence.
pub open spec fn addrs_fold(xs: Seq<InterfaceAddress>) -> Seq<InterfaceAddress>
    decreases xs.len(),
{
    if xs.len() == 0 {
        Seq::empty()
    } else {
        let p = addrs_fold(xs.drop_last());
        if p.contains(xs.last()) {
            p
        } else {
            p.push(xs.last())
        }
    }
}

pub open spec fn texts_fold(xs: Seq<Seq<char>>) -> Seq<Seq<char>>
    decreases xs.len(),
{
    if xs.len() == 0 {
        Seq::empty()
    } else {
        let p = texts_fold(xs.drop_last());
        if p.contains(xs.last()) {
            p
        } else {
            p.push(xs.last())
        }
    }
}

pub open spec fn ips_fold(xs: Seq<IpAddress>) -> Seq<IpAddress>
    decreases xs.len(),
{
    if xs.len() == 0 {
        Seq::empty()
    } else {
        let p = ips_fold(xs.drop_last());
        if p.contains(xs.last()) {
            p
        } else {
            p.push(xs.last())
        }
    }
}

/// One decoded interface: its members are the body's members, with routes
/// keyed by identity, the list members as sets, and the given derived
/// state attached.
pub open spec fn eth_decodes(
    name: Seq<char>,
    body: YamlNode,
    dynv: Seq<Seq<char>>,
    state: Seq<(String, YamlNode)>,
    e: Ethernet,
) -> bool {
    match eth_pieces(body) {
        None => false,
        Some(p) => {
            &&& e.name@ == name
            &&& e.dhcp4 == p.dhcp4
            &&& e.dhcp6 == p.dhcp6
            &&& bounded_opt_val(e.mtu) == p.mtu
            &&& bounded_opt_val(e.ipv6_mtu) == p.ipv6_mtu
            &&& e.accept_ra == p.accept_ra
            &&& e.routes@ == routes_fold(p.routes)
            &&& e.addresses@ == addrs_fold(p.addresses)
            &&& e.nameservers.spec_search() == texts_fold(p.search)
            &&& e.nameservers.spec_addresses() == ips_fold(p.ns_addresses)
            &&& crate::util::string_views(e.dynamic_addresses@) == dynv
            &&& e.system_state@ == state
        },
    }
}

/// The renderer a written name denotes.
pub open spec fn renderer_of_text(s: Seq<char>) -> Option<NetworkRenderer> {
    if s == "networkd"@ {
        Some(NetworkRenderer::NetworkD)
    } else if s == "NetworkManager"@ {
        Some(NetworkRenderer::NetworkManager)
    } else {
        None
    }
}

/// The dynamic addresses reported for this name; empty when none are.
pub open spec fn dyn_for(dynv: Seq<(Seq<char>, Seq<Seq<char>>)>, name: Seq<char>) -> Seq<Seq<char>>
    decreases dynv.len(),
{
    if dynv.len() == 0 {
        Seq::empty()
    } else if dynv[0].0 == name {
        dynv[0].1
    } else {
        dyn_for(dynv.drop_first(), name)
    }
}

/// The first nonempty drift fragment reported for this name; empty when
/// none is.
pub open spec fn state_for(
    diffv: Seq<(Seq<char>, Seq<(String, YamlNode)>)>,
    name: Seq<char>,
) -> Seq<(String, YamlNode)>
    decreases diffv.len(),
{
    if diffv.len() == 0 {
        Seq::empty()
    } else if diffv[0].0 == name && diffv[0].1.len() > 0 {
        diffv[0].1
    } else {
        state_for(diffv.drop_first(), name)
    }
}

/// Whether some nonempty drift fragment is reported for this name.
pub open spec fn has_state(
    diffv: Seq<(Seq<char>, Seq<(String, YamlNode)>)>,
    name: Seq<char>,
) -> bool {
    exists|i: int| 0 <= i < diffv.len() && diffv[i].0 == name && diffv[i].1.len() > 0
}

/// The persisted document is readable: the network body is present with a
/// valid version and renderer, and every interface body decodes, under
/// distinct names.
pub open spec fn network_doc_ok(doc: YamlNode) -> bool {
    match doc.spec_get("network"@) {
        None => false,
        Some(body) => match body.spec_entries() {
            None => false,
            Some(bes) => {
                &&& (match dict_get_spec(bes, "version"@) {
                    Some(n) => match n {
                        YamlNode::Int(v) => 0 <= v <= u32::MAX,
                        _ => false,
                    },
                    None => false,
                })
                &&& (match dict_get_spec(bes, "renderer"@) {
                    Some(n) => match n.spec_as_text() {
                        Some(t) => renderer_of_text(t) is Some,
                        None => false,
                    },
                    None => false,
                })
                &&& (match dict_get_spec(bes, "ethernets"@) {
                    None => true,
                    Some(en) => match en.spec_entries() {
                        None => false,
                        Some(ees) => crate::util::distinct(
                            Seq::new(ees.len(), |i: int| ees[i].0@),
                        ) && forall|i: int|
                            0 <= i < ees.len() ==> eth_pieces((#[trigger] ees[i]).1) is Some,
                    },
                })
            },
        },
    }
}

/// The decoded network against the document and the injected live state.
pub open spec fn network_decodes(
    doc: YamlNode,
    diffv: Seq<(Seq<char>, Seq<(String, YamlNode)>)>,
    dynv: Seq<(Seq<char>, Seq<Seq<char>>)>,
    n: Network,
) -> bool {
    match doc.spec_get("network"@) {
        None => false,
        Some(body) => match body.spec_entries() {
            None => false,
            Some(bes) => {
                &&& (match dict_get_spec(bes, "version"@) {
                    Some(vn) => match vn {
                        YamlNode::Int(v) => 0 <= v <= u32::MAX && n.version == v as u32,
                        _ => false,
                    },
                    None => false,
                })
                &&& (match dict_get_spec(bes, "renderer"@) {
                    Some(rn) => match rn.spec_as_text() {
                        Some(t) => renderer_of_text(t) == Some(n.renderer),
                        None => false,
                    },
                    None => false,
                })
                &&& (match dict_get_spec(bes, "ethernets"@) {
                    None => n.ethernets@.len() == 0,
                    Some(en) => match en.spec_entries() {
                        None => false,
                        Some(ees) => n.ethernets@.len() == ees.len() && forall|i: int|
                            0 <= i < ees.len() ==> eth_decodes(
                                (#[trigger] ees[i]).0@,
                                ees[i].1,
                                dyn_for(dynv, ees[i].0@),
                                state_for(diffv, ees[i].0@),
                                n.ethernets@[i],
                            ),
                    },
                })
            },
        },
    }
}

} // verus!

verus! {

/// Copies a vector of strings.
fn clone_strings(v: &Vec<String>) -> (r: Vec<String>)
    ensures
        r@ == v@,
{
    let mut r: Vec<String> = Vec::new();
    let mut i: usize = 0;
    while i < v.len()
        invariant
            i <= v.len(),
            r@ == v@.subrange(0, i as int),
        decreases v.len() - i,
    {
        r.push(v[i].clone());
        assert(r@ =~= v@.subrange(0, i + 1 as int));
        i += 1;
    }
    assert(r@ =~= v@);
    r
}

/// The routes read from items[i..] of a document list.
fn decode_routes_from(items: &Vec<YamlNode>, i: usize) -> (r: Result<Vec<Route>, DecodeError>)
    requires
        i <= items.len(),
    ensures
        match r {
            Ok(rs) => decode_routes_spec(items@.skip(i as int)) == Some(rs@),
            Err(_) => decode_routes_spec(items@.skip(i as int)) is None,
        },
    decreases items.len() - i,
{
    if i == items.len() {
        let rs: Vec<Route> = Vec::new();
        assert(items@.skip(i as int) =~= Seq::<YamlNode>::empty());
        Ok(rs)
    } else {
        proof {
            assert(items@.skip(i as int)[0] == items@[i as int]);
            assert(items@.skip(i as int).drop_first() =~= items@.skip(i + 1));
        }
        match route_from_doc(&items[i]) {
            None => Err(DecodeError),
            Some(rt) => match decode_routes_from(items, i + 1) {
                Err(er) => Err(er),
                Ok(mut rest) => {
                    let ghost restview = rest@;
                    rest.insert(0, rt);
                    assert(rest@ =~= seq![rt] + restview);
                    Ok(rest)
                },
            },
        }
    }
}

/// The interface addresses read from items[i..] of a document list.
fn decode_addrs_from(items: &Vec<YamlNode>, i: usize) -> (r: Result<
    Vec<InterfaceAddress>,
    DecodeError,
>)
    requires
        i <= items.len(),
    ensures
        match r {
            Ok(addrs) => decode_addrs_spec(items@.skip(i as int)) == Some(addrs@),
            Err(_) => decode_addrs_spec(items@.skip(i as int)) is None,
        },
    decreases items.len() - i,
{
    if i == items.len() {
        let addrs: Vec<InterfaceAddress> = Vec::new();
        assert(items@.skip(i as int) =~= Seq::<YamlNode>::empty());
        Ok(addrs)
    } else {
        proof {
            assert(items@.skip(i as int)[0] == items@[i as int]);
            assert(items@.skip(i as int).drop_first() =~= items@.skip(i + 1));
        }
        let hd = match &items[i] {
            YamlNode::Text(s) => addr_from_text(s),
            _ => None,
        };
        match hd {
            None => Err(DecodeError),
            Some(a) => match decode_addrs_from(items, i + 1) {
                Err(er) => Err(er),
                Ok(mut rest) => {
                    let ghost restview = rest@;
                    rest.insert(0, a);
                    assert(rest@ =~= seq![a] + restview);
                    Ok(rest)
                },
            },
        }
    }
}

/// The nameserver addresses read from items[i..] of a document list.
fn decode_ips_from(items: &Vec<YamlNode>, i: usize) -> (r: Result<Vec<IpAddress>, DecodeError>)
    requires
        i <= items.len(),
    ensures
        match r {
            Ok(ips) => decode_ips_spec(items@.skip(i as int)) == Some(ips@),
            Err(_) => decode_ips_spec(items@.skip(i as int)) is None,
        },
    decreases items.len() - i,
{
    if i == items.len() {
        let ips: Vec<IpAddress> = Vec::new();
        assert(items@.skip(i as int) =~= Seq::<YamlNode>::empty());
        Ok(ips)
    } else {
        proof {
            assert(items@.skip(i as int)[0] == items@[i as int]);
            assert(items@.skip(i as int).drop_first() =~= items@.skip(i + 1));
        }
        let hd = match &items[i] {
            YamlNode::Text(s) => parse_ip(s.as_str()),
            _ => None,
        };
        match hd {
            None => Err(DecodeError),
            Some(a) => match decode_ips_from(items, i + 1) {
                Err(er) => Err(er),
                Ok(mut rest) => {
                    let ghost restview = rest@;
                    rest.insert(0, a);
                    assert(rest@ =~= seq![a] + restview);
                    Ok(rest)
                },
            },
        }
    }
}

/// Folds decoded routes under their identities.
fn fold_routes(xs: &Vec<Route>) -> (r: Vec<Route>)
    ensures
        r@ == routes_fold(xs@),
        crate::util::distinct(crate::route::route_ids(r@)),
{
    let mut r: Vec<Route> = Vec::new();
    let mut i: usize = 0;
    assert(xs@.subrange(0, 0) =~= Seq::<Route>::empty());
    while i < xs.len()
        invariant
            i <= xs.len(),
            r@ == routes_fold(xs@.subrange(0, i as int)),
            crate::util::distinct(crate::route::route_ids(r@)),
        decreases xs.len() - i,
    {
        crate::route::upsert_route_vec(&mut r, &xs[i]);
        proof {
            assert(xs@.subrange(0, i + 1 as int).drop_last() =~= xs@.subrange(0, i as int));
            assert(xs@.subrange(0, i + 1 as int).last() == xs@[i as int]);
        }
        i += 1;
    }
    assert(xs@.subrange(0, xs@.len() as int) =~= xs@);
    r
}

/// Folds decoded addresses to set semantics.
fn fold_addrs(xs: &Vec<InterfaceAddress>) -> (r: Vec<InterfaceAddress>)
    ensures
        r@ == addrs_fold(xs@),
        crate::util::distinct(r@),
{
    let mut r: Vec<InterfaceAddress> = Vec::new();
    let mut i: usize = 0;
    assert(xs@.subrange(0, 0) =~= Seq::<InterfaceAddress>::empty());
    while i < xs.len()
        invariant
            i <= xs.len(),
            r@ == addrs_fold(xs@.subrange(0, i as int)),
            crate::util::distinct(r@),
        decreases xs.len() - i,
    {
        if !crate::ethernet::contains_interface_address(&r, &xs[i]) {
            proof {
                crate::util::lemma_distinct_push(r@, xs@[i as int]);
            }
            r.push(xs[i]);
        }
        proof {
            assert(xs@.subrange(0, i + 1 as int).drop_last() =~= xs@.subrange(0, i as int));
            assert(xs@.subrange(0, i + 1 as int).last() == xs@[i as int]);
        }
        i += 1;
    }
    assert(xs@.subrange(0, xs@.len() as int) =~= xs@);
    r
}

/// Folds decoded search domains to set semantics.
fn fold_texts(xs: &Vec<String>) -> (r: Vec<String>)
    ensures
        crate::util::string_views(r@) == texts_fold(crate::util::string_views(xs@)),
        crate::util::distinct(crate::util::string_views(r@)),
{
    let ghost xv = crate::util::string_views(xs@);
    let mut r: Vec<String> = Vec::new();
    let mut i: usize = 0;
    assert(crate::util::string_views(r@) =~= texts_fold(xv.subrange(0, 0))) by {
        assert(xv.subrange(0, 0) =~= Seq::<Seq<char>>::empty());
    }
    while i < xs.len()
        invariant
            i <= xs.len(),
            xv == crate::util::string_views(xs@),
            xv.len() == xs@.len(),
            crate::util::string_views(r@) == texts_fold(xv.subrange(0, i as int)),
            crate::util::distinct(crate::util::string_views(r@)),
        decreases xs.len() - i,
    {
        let ghost pre = crate::util::string_views(r@);
        if !crate::nameservers::contains_string(&r, &xs[i]) {
            proof {
                assert(xv[i as int] == xs@[i as int]@);
                crate::util::lemma_distinct_push(pre, xs@[i as int]@);
            }
            r.push(xs[i].clone());
            assert(crate::util::string_views(r@) =~= pre.push(xv[i as int]));
        }
        proof {
            assert(xv.subrange(0, i + 1 as int).drop_last() =~= xv.subrange(0, i as int));
            assert(xv.subrange(0, i + 1 as int).last() == xv[i as int]);
            assert(xv[i as int] == xs@[i as int]@);
        }
        i += 1;
    }
    assert(xv.subrange(0, xv.len() as int) =~= xv);
    r
}

/// Folds decoded nameserver addresses to set semantics.
fn fold_ips(xs: &Vec<IpAddress>) -> (r: Vec<IpAddress>)
    ensures
        r@ == ips_fold(xs@),
        crate::util::distinct(r@),
{
    let mut r: Vec<IpAddress> = Vec::new();
    let mut i: usize = 0;
    assert(xs@.subrange(0, 0) =~= Seq::<IpAddress>::empty());
    while i < xs.len()
        invariant
            i <= xs.len(),
            r@ == ips_fold(xs@.subrange(0, i as int)),
            crate::util::distinct(r@),
        decreases xs.len() - i,
    {
        if !crate::nameservers::contains_ip(&r, &xs[i]) {
            proof {
                crate::util::lemma_distinct_push(r@, xs@[i as int]);
            }
            r.push(xs[i]);
        }
        proof {
            assert(xs@.subrange(0, i + 1 as int).drop_last() =~= xs@.subrange(0, i as int));
            assert(xs@.subrange(0, i + 1 as int).last() == xs@[i as int]);
        }
        i += 1;
    }
    assert(xs@.subrange(0, xs@.len() as int) =~= xs@);
    r
}

/// Reads one interface from its document body, attaching the given dynamic
/// addresses; the observed drift fragment is attached separately.
pub fn eth_from_body(name: &String, body: &YamlNode, dyn_addrs: Vec<String>) -> (r: Result<
    Ethernet,
    DecodeError,
>)
    ensures
        r is Ok <==> eth_pieces(*body) is Some,
        r matches Ok(e) ==> eth_decodes(
            name@,
            *body,
            crate::util::string_views(dyn_addrs@),
            Seq::<(String, YamlNode)>::empty(),
            e,
        ) && e.wf() && e.system_state@.len() == 0,
{
    let es = match body.entries() {
        Some(es) => es,
        None => {
            return Err(DecodeError);
        },
    };
    let k_dhcp4 = String::from_str("dhcp4");
    let dhcp4: bool = match crate::yaml::dict_lookup(es, &k_dhcp4) {
        None => false,
        Some(n) => match n {
            YamlNode::Bool(b) => *b,
            _ => {
                return Err(DecodeError);
            },
        },
    };
    let k_dhcp6 = String::from_str("dhcp6");
    let dhcp6: bool = match crate::yaml::dict_lookup(es, &k_dhcp6) {
        None => false,
        Some(n) => match n {
            YamlNode::Bool(b) => *b,
            _ => {
                return Err(DecodeError);
            },
        },
    };
    let k_mtu = String::from_str("mtu");
    let mtu: Option<crate::custom_types::MTU> = match crate::yaml::dict_lookup(es, &k_mtu) {
        None => None,
        Some(n) => match n {
            YamlNode::Null => None,
            YamlNode::Int(v) => {
                if 68 <= *v && *v <= 64000 {
                    match BoundedU32::new(*v as u32) {
                        Some(m) => Some(m),
                        None => {
                            return Err(DecodeError);
                        },
                    }
                } else {
                    return Err(DecodeError);
                }
            },
            _ => {
                return Err(DecodeError);
            },
        },
    };
    let k_mtu6 = String::from_str("ipv6-mtu");
    let ipv6_mtu: Option<crate::custom_types::MTUV6> = match crate::yaml::dict_lookup(es, &k_mtu6) {
        None => None,
        Some(n) => match n {
            YamlNode::Null => None,
            YamlNode::Int(v) => {
                if 1280 <= *v && *v <= 64000 {
                    match BoundedU32::new(*v as u32) {
                        Some(m) => Some(m),
                        None => {
                            return Err(DecodeError);
                        },
                    }
                } else {
                    return Err(DecodeError);
                }
            },
            _ => {
                return Err(DecodeError);
            },
        },
    };
    let k_ara = String::from_str("accept-ra");
    let accept_ra: Option<bool> = match crate::yaml::dict_lookup(es, &k_ara) {
        None => None,
        Some(n) => match n {
            YamlNode::Null => None,
            YamlNode::Bool(b) => Some(*b),
            _ => {
                return Err(DecodeError);
            },
        },
    };
    let k_routes = String::from_str("routes");
    let raw_routes: Vec<Route> = match crate::yaml::dict_lookup(es, &k_routes) {
        None => Vec::new(),
        Some(n) => match n {
            YamlNode::List(items) => {
                assert(items@.skip(0) =~= items@);
                match decode_routes_from(items, 0) {
                    Ok(rs) => rs,
                    Err(er) => {
                        return Err(er);
                    },
                }
            },
            _ => {
                return Err(DecodeError);
            },
        },
    };
    let k_addrs = String::from_str("addresses");
    let raw_addrs: Vec<InterfaceAddress> = match crate::yaml::dict_lookup(es, &k_addrs) {
        None => Vec::new(),
        Some(n) => match n {
            YamlNode::List(items) => {
                assert(items@.skip(0) =~= items@);
                match decode_addrs_from(items, 0) {
                    Ok(addrs) => addrs,
                    Err(er) => {
                        return Err(er);
                    },
                }
            },
            _ => {
                return Err(DecodeError);
            },
        },
    };
    let k_ns = String::from_str("nameservers");
    let (raw_search, raw_ns_addrs): (Vec<String>, Vec<IpAddress>) = match crate::yaml::dict_lookup(
        es,
        &k_ns,
    ) {
        None => (Vec::new(), Vec::new()),
        Some(n) => match n.entries() {
            None => {
                return Err(DecodeError);
            },
            Some(nses) => {
                let k_search = String::from_str("search");
                let srch: Vec<String> = match crate::yaml::dict_lookup(nses, &k_search) {
                    None => Vec::new(),
                    Some(sn) => match sn {
                        YamlNode::List(items) => {
                            assert(items@.skip(0) =~= items@);
                            match crate::netplan::flags_texts_from(items, 0) {
                                Ok(ts) => ts,
                                Err(_) => {
                                    return Err(DecodeError);
                                },
                            }
                        },
                        _ => {
                            return Err(DecodeError);
                        },
                    },
                };
                let k_nsaddrs = String::from_str("addresses");
                let nsa: Vec<IpAddress> = match crate::yaml::dict_lookup(nses, &k_nsaddrs) {
                    None => Vec::new(),
                    Some(an) => match an {
                        YamlNode::List(items) => {
                            assert(items@.skip(0) =~= items@);
                            match decode_ips_from(items, 0) {
                                Ok(ips) => ips,
                                Err(er) => {
                                    return Err(er);
                                },
                            }
                        },
                        _ => {
                            return Err(DecodeError);
                        },
                    },
                };
                (srch, nsa)
            },
        },
    };
    let routes = fold_routes(&raw_routes);
    let addresses = fold_addrs(&raw_addrs);
    let search = fold_texts(&raw_search);
    let ns_addresses = fold_ips(&raw_ns_addrs);
    let e = Ethernet {
        name: name.clone(),
        dhcp4,
        dhcp6,
        mtu,
        ipv6_mtu,
        accept_ra,
        routes,
        addresses,
        nameservers: Nameservers { search, addresses: ns_addresses },
        dynamic_addresses: dyn_addrs,
        system_state: Vec::new(),
    };
    Ok(e)
}

} // verus!

verus! {

/// The selected fragment is nonempty exactly when some nonempty fragment
/// carries the name.
pub proof fn lemma_state_for_nonempty(
    p: Seq<(Seq<char>, Seq<(String, YamlNode)>)>,
    name: Seq<char>,
)
    ensures
        has_state(p, name) <==> state_for(p, name).len() > 0,
    decreases p.len(),
{
    if p.len() > 0 {
        lemma_state_for_nonempty(p.drop_first(), name);
        if p[0].0 == name && p[0].1.len() > 0 {
        } else {
            assert(has_state(p, name) <==> has_state(p.drop_first(), name)) by {
                if has_state(p, name) {
                    let i = choose|i: int|
                        0 <= i < p.len() && p[i].0 == name && p[i].1.len() > 0;
                    assert(i > 0);
                    assert(p.drop_first()[i - 1] == p[i]);
                }
                if has_state(p.drop_first(), name) {
                    let i = choose|i: int|
                        0 <= i < p.drop_first().len() && p.drop_first()[i].0 == name
                            && p.drop_first()[i].1.len() > 0;
                    assert(p[i + 1] == p.drop_first()[i]);
                }
            }
        }
    }
}

/// Appending one observation only matters for a name that no earlier
/// nonempty fragment carries.
pub proof fn lemma_state_for_extend(
    p: Seq<(Seq<char>, Seq<(String, YamlNode)>)>,
    e: (Seq<char>, Seq<(String, YamlNode)>),
    name: Seq<char>,
)
    ensures
        state_for(p.push(e), name) == if has_state(p, name) {
            state_for(p, name)
        } else if e.0 == name && e.1.len() > 0 {
            e.1
        } else {
            Seq::<(String, YamlNode)>::empty()
        },
    decreases p.len(),
{
    lemma_state_for_nonempty(p, name);
    if p.len() == 0 {
        assert(p.push(e)[0] == e);
        assert(p.push(e).drop_first() =~= Seq::<(Seq<char>, Seq<(String, YamlNode)>)>::empty());
        assert(state_for(p.push(e).drop_first(), name) =~= Seq::<(String, YamlNode)>::empty());
        assert(!has_state(p, name));
    } else {
        assert(p.push(e)[0] == p[0]);
        assert(p.push(e).drop_first() =~= p.drop_first().push(e));
        lemma_state_for_extend(p.drop_first(), e, name);
        lemma_state_for_nonempty(p.drop_first(), name);
        if p[0].0 == name && p[0].1.len() > 0 {
            assert(state_for(p, name) == p[0].1);
            assert(state_for(p.push(e), name) == p[0].1);
            assert(has_state(p, name));
        } else {
            assert(has_state(p, name) <==> has_state(p.drop_first(), name)) by {
                if has_state(p, name) {
                    let i = choose|i: int|
                        0 <= i < p.len() && p[i].0 == name && p[i].1.len() > 0;
                    assert(i > 0);
                    assert(p.drop_first()[i - 1] == p[i]);
                }
                if has_state(p.drop_first(), name) {
                    let i = choose|i: int|
                        0 <= i < p.drop_first().len() && p.drop_first()[i].0 == name
                            && p.drop_first()[i].1.len() > 0;
                    assert(p[i + 1] == p.drop_first()[i]);
                }
            }
        }
    }
}

/// The first interface with the given name, if any, with everything before
/// it differing.
fn find_eth_index(eths: &Vec<Ethernet>, name: &String) -> (r: Option<usize>)
    ensures
        match r {
            Some(i) => i < eths@.len() && eths@[i as int].name@ == name@ && forall|j: int|
                0 <= j < i ==> eths@[j].name@ != name@,
            None => forall|j: int| 0 <= j < eths@.len() ==> eths@[j].name@ != name@,
        },
{
    let mut i: usize = 0;
    while i < eths.len()
        invariant
            i <= eths.len(),
            forall|j: int| 0 <= j < i ==> eths@[j].name@ != name@,
        decreases eths.len() - i,
    {
        if eths[i].name == *name {
            return Some(i);
        }
        i += 1;
    }
    None
}

/// The dynamic addresses reported for this name among d[i..].
fn dyn_lookup_from(d: &Vec<(String, Vec<String>)>, name: &String, i: usize) -> (r: Vec<String>)
    requires
        i <= d.len(),
    ensures
        crate::util::string_views(r@) == dyn_for(
            crate::netplan::dyn_views(d@).skip(i as int),
            name@,
        ),
    decreases d.len() - i,
{
    let ghost dv = crate::netplan::dyn_views(d@);
    if i == d.len() {
        let r: Vec<String> = Vec::new();
        assert(dv.skip(i as int) =~= Seq::<(Seq<char>, Seq<Seq<char>>)>::empty());
        assert(crate::util::string_views(r@) =~= Seq::<Seq<char>>::empty());
        r
    } else {
        proof {
            assert(dv.skip(i as int)[0] == dv[i as int]);
            assert(dv[i as int] == (d@[i as int].0@, crate::util::string_views(d@[i as int].1@)));
            assert(dv.skip(i as int).drop_first() =~= dv.skip(i + 1));
        }
        let e: &(String, Vec<String>) = &d[i];
        if e.0 == *name {
            clone_strings(&e.1)
        } else {
            dyn_lookup_from(d, name, i + 1)
        }
    }
}

/// Builds the default document for a host whose persisted file is absent:
/// schema version 2, NetworkManager, and — when a physical eth0 is present
/// at rest — that one interface with dhcp4 enabled.
pub fn bootstrap_network(eth0_present: bool) -> (n: Network)
    ensures
        n.version == 2,
        n.renderer == NetworkRenderer::NetworkManager,
        eth0_present ==> n.ethernets@.len() == 1 && n.ethernets@[0].name@ == "eth0"@
            && n.ethernets@[0].dhcp4 == true && n.ethernets@[0].dhcp6 == false
            && n.ethernets@[0].mtu is None && n.ethernets@[0].ipv6_mtu is None
            && n.ethernets@[0].accept_ra is None && n.ethernets@[0].routes@.len() == 0
            && n.ethernets@[0].addresses@.len() == 0 && n.ethernets@[0].nameservers.spec_search()
            =~= Seq::<Seq<char>>::empty() && n.ethernets@[0].nameservers.spec_addresses()
            =~= Seq::<IpAddress>::empty(),
        !eth0_present ==> n.ethernets@.len() == 0,
        n.wf(),
{
    let mut n = Network::new();
    if eth0_present {
        let mut iface = Ethernet::new(String::from_str("eth0"));
        iface.set_dhcp4(true);
        n.add_ethernet(iface);
    }
    n
}

/// Reads the persisted document, re-keying each interface's on-disk route
/// sequence by route identity, and attaches the observed drift fragments
/// and dynamic addresses to the interfaces they name.
#[verifier::rlimit(80)]
pub fn network_from_doc(
    doc: &YamlNode,
    diff: crate::netplan::DiffReport,
    dynamics: &Vec<(String, Vec<String>)>,
) -> (r: Result<Network, DecodeError>)
    ensures
        r is Ok <==> network_doc_ok(*doc),
        r matches Ok(n) ==> network_decodes(
            *doc,
            crate::netplan::diff_views(diff@),
            crate::netplan::dyn_views(dynamics@),
            n,
        ) && n.wf(),
{
    let k_network = String::from_str("network");
    let body = match doc.get(&k_network) {
        Some(b) => b,
        None => {
            return Err(DecodeError);
        },
    };
    let bes = match body.entries() {
        Some(bes) => bes,
        None => {
            return Err(DecodeError);
        },
    };
    let k_version = String::from_str("version");
    let version: u32 = match crate::yaml::dict_lookup(bes, &k_version) {
        Some(n) => match n {
            YamlNode::Int(v) => {
                if 0 <= *v && *v <= 0xffff_ffff {
                    *v as u32
                } else {
                    return Err(DecodeError);
                }
            },
            _ => {
                return Err(DecodeError);
            },
        },
        None => {
            return Err(DecodeError);
        },
    };
    let k_renderer = String::from_str("renderer");
    let renderer: NetworkRenderer = match crate::yaml::dict_lookup(bes, &k_renderer) {
        Some(n) => match n.as_text() {
            Some(t) => {
                let networkd = String::from_str("networkd");
                let nm = String::from_str("NetworkManager");
                if *t == networkd {
                    NetworkRenderer::NetworkD
                } else if *t == nm {
                    NetworkRenderer::NetworkManager
                } else {
                    return Err(DecodeError);
                }
            },
            None => {
                return Err(DecodeError);
            },
        },
        None => {
            return Err(DecodeError);
        },
    };
    let k_eths = String::from_str("ethernets");
    let mut eths: Vec<Ethernet> = Vec::new();
    let ghost dynv = crate::netplan::dyn_views(dynamics@);
    match crate::yaml::dict_lookup(bes, &k_eths) {
        None => {},
        Some(en) => match en.entries() {
            None => {
                return Err(DecodeError);
            },
            Some(ees) => {
                let mut i: usize = 0;
                while i < ees.len()
                    invariant
                        i <= ees.len(),
                        eths@.len() == i,
                        dynv == crate::netplan::dyn_views(dynamics@),
                        doc.spec_get("network"@) == Some(*body),
                        body.spec_entries() == Some(bes@),
                        dict_get_spec(bes@, "ethernets"@) == Some(*en),
                        en.spec_entries() == Some(ees@),
                        forall|j: int| 0 <= j < i ==> eths@[j].name@ == ees@[j].0@,
                        forall|a: int, b: int|
                            0 <= a < b < i ==> ees@[a].0@ != ees@[b].0@,
                        forall|j: int|
                            0 <= j < i ==> eth_decodes(
                                ees@[j].0@,
                                ees@[j].1,
                                dyn_for(dynv, ees@[j].0@),
                                Seq::<(String, YamlNode)>::empty(),
                                #[trigger] eths@[j],
                            ),
                        forall|j: int|
                            0 <= j < i ==> (#[trigger] eths@[j]).wf()
                                && eths@[j].system_state@.len() == 0,
                    decreases ees.len() - i,
                {
                    let entry: &(String, YamlNode) = &ees[i];
                    match find_eth_index(&eths, &entry.0) {
                        Some(fidx) => {
                            proof {
                                let names = Seq::new(ees@.len(), |t: int| ees@[t].0@);
                                assert(eths@[fidx as int].name@ == ees@[fidx as int].0@);
                                assert(names[fidx as int] == names[i as int]);
                                assert(!crate::util::distinct(names));
                            }
                            return Err(DecodeError);
                        },
                        None => {},
                    }
                    let dyn_addrs = dyn_lookup_from(dynamics, &entry.0, 0);
                    proof {
                        assert(dynv.skip(0) =~= dynv);
                    }
                    let e = match eth_from_body(&entry.0, &entry.1, dyn_addrs) {
                        Ok(e) => e,
                        Err(er) => {
                            return Err(er);
                        },
                    };
                    eths.push(e);
                    i += 1;
                }
            },
        },
    }
    assert(network_doc_ok(*doc));
    let ghost eths0 = eths@;
    let ghost odv = diff@;
    let mut diff = diff;
    let initial_len = diff.len();
    assert(initial_len == odv.len());
    let ghost diffv = crate::netplan::diff_views(odv);
    let mut k: usize = 0;
    assert(diff_prefix_ok(eths@, eths0, diffv, 0)) by {
        assert(diffv.subrange(0, 0) =~= Seq::<(Seq<char>, Seq<(String, YamlNode)>)>::empty());
        assert forall|j: int| 0 <= j < eths0.len() implies eths0[j].system_state@
            =~= state_for(diffv.subrange(0, 0), eths0[j].name@) by {}
    }
    while diff.len() > 0
        invariant
            k <= diffv.len(),
            diff@ =~= odv.skip(k as int),
            diffv == crate::netplan::diff_views(odv),
            eths@.len() == eths0.len(),
            odv.len() <= usize::MAX,
            forall|a: int, b: int|
                0 <= a < b < eths0.len() ==> eths0[a].name@ != eths0[b].name@,
            forall|j: int|
                0 <= j < eths0.len() ==> #[trigger] eths@[j] == (Ethernet {
                    system_state: eths@[j].system_state,
                    ..eths0[j]
                }),
            diff_prefix_ok(eths@, eths0, diffv, k as int),
        decreases diff.len(),
    {
        let ghost pre = eths@;
        proof {
            assert(odv.skip(k as int).len() == odv.len() - k);
            assert(k < diffv.len());
        }
        let (nm, frag) = diff.remove(0);
        proof {
            assert(odv.skip(k as int)[0] == odv[k as int]);
            assert(diff@ =~= odv.skip(k + 1));
            assert(diffv[k as int] == (odv[k as int].0@, odv[k as int].1@));
            assert(nm@ == diffv[k as int].0 && frag@ == diffv[k as int].1);
        }
        if frag.len() > 0 {
            match find_eth_index(&eths, &nm) {
                None => {
                    proof {
                        step_states_unmatched(pre, eths0, diffv, k as int, nm@);
                    }
                },
                Some(idx) => {
                    if eths[idx].system_state.len() == 0 {
                        proof {
                            lemma_state_for_nonempty(
                                diffv.subrange(0, k as int),
                                eths0[idx as int].name@,
                            );
                        }
                        let fragv = frag;
                        let e = vstd::std_specs::vec::vec_index_mut(&mut eths, idx);
                        e.set_system_state(fragv);
                        proof {
                            step_states_set(pre, eths@, eths0, diffv, k as int, idx as int);
                        }
                    } else {
                        proof {
                            lemma_state_for_nonempty(
                                diffv.subrange(0, k as int),
                                eths0[idx as int].name@,
                            );
                            step_states_kept(pre, eths0, diffv, k as int, idx as int);
                        }
                    }
                },
            }
        } else {
            proof {
                step_states_emptyfrag(pre, eths0, diffv, k as int);
            }
        }
        k += 1;
    }
    proof {
        assert(diffv.subrange(0, k as int) =~= diffv);
    }
    let n = Network { version, renderer, ethernets: eths };
    Ok(n)
}

/// Every interface's attached fragment matches the first k observations.
pub open spec fn diff_prefix_ok(
    eths: Seq<Ethernet>,
    eths0: Seq<Ethernet>,
    diffv: Seq<(Seq<char>, Seq<(String, YamlNode)>)>,
    k: int,
) -> bool {
    forall|j: int|
        0 <= j < eths0.len() ==> (#[trigger] eths[j]).system_state@ == state_for(
            diffv.subrange(0, k),
            eths0[j].name@,
        )
}

/// One observation whose name no interface carries changes nothing.
proof fn step_states_unmatched(
    eths: Seq<Ethernet>,
    eths0: Seq<Ethernet>,
    diffv: Seq<(Seq<char>, Seq<(String, YamlNode)>)>,
    k: int,
    nm: Seq<char>,
)
    requires
        0 <= k < diffv.len(),
        eths.len() == eths0.len(),
        diffv[k].0 == nm,
        forall|j: int| 0 <= j < eths.len() ==> (#[trigger] eths[j]).name@ == eths0[j].name@,
        forall|j: int| 0 <= j < eths.len() ==> (#[trigger] eths[j]).name@ != nm,
        diff_prefix_ok(eths, eths0, diffv, k),
    ensures
        diff_prefix_ok(eths, eths0, diffv, k + 1),
{
    assert forall|j: int| 0 <= j < eths0.len() implies (#[trigger] eths[j]).system_state@
        == state_for(diffv.subrange(0, k + 1), eths0[j].name@) by {
        assert(diffv.subrange(0, k + 1) =~= diffv.subrange(0, k).push(diffv[k]));
        lemma_state_for_extend(diffv.subrange(0, k), diffv[k], eths0[j].name@);
        lemma_state_for_nonempty(diffv.subrange(0, k), eths0[j].name@);
    }
}

/// An observation with an empty fragment changes nothing.
proof fn step_states_emptyfrag(
    eths: Seq<Ethernet>,
    eths0: Seq<Ethernet>,
    diffv: Seq<(Seq<char>, Seq<(String, YamlNode)>)>,
    k: int,
)
    requires
        0 <= k < diffv.len(),
        eths.len() == eths0.len(),
        diffv[k].1.len() == 0,
        diff_prefix_ok(eths, eths0, diffv, k),
    ensures
        diff_prefix_ok(eths, eths0, diffv, k + 1),
{
    assert forall|j: int| 0 <= j < eths0.len() implies (#[trigger] eths[j]).system_state@
        == state_for(diffv.subrange(0, k + 1), eths0[j].name@) by {
        assert(diffv.subrange(0, k + 1) =~= diffv.subrange(0, k).push(diffv[k]));
        lemma_state_for_extend(diffv.subrange(0, k), diffv[k], eths0[j].name@);
        lemma_state_for_nonempty(diffv.subrange(0, k), eths0[j].name@);
    }
}

/// Setting the matched interface's empty state to the fragment realizes
/// the first-nonempty-fragment rule.
proof fn step_states_set(
    pre: Seq<Ethernet>,
    post: Seq<Ethernet>,
    eths0: Seq<Ethernet>,
    diffv: Seq<(Seq<char>, Seq<(String, YamlNode)>)>,
    k: int,
    idx: int,
)
    requires
        0 <= k < diffv.len(),
        pre.len() == eths0.len(),
        post.len() == eths0.len(),
        0 <= idx < eths0.len(),
        forall|j: int| 0 <= j < pre.len() ==> (#[trigger] pre[j]).name@ == eths0[j].name@,
        forall|a: int, b: int| 0 <= a < b < eths0.len() ==> eths0[a].name@ != eths0[b].name@,
        pre[idx].name@ == diffv[k].0,
        diffv[k].1.len() > 0,
        pre[idx].system_state@.len() == 0,
        forall|j: int| j != idx && 0 <= j < post.len() ==> post[j] == pre[j],
        post[idx].system_state@ == diffv[k].1,
        post[idx].name@ == pre[idx].name@,
        diff_prefix_ok(pre, eths0, diffv, k),
    ensures
        diff_prefix_ok(post, eths0, diffv, k + 1),
{
    assert forall|j: int| 0 <= j < eths0.len() implies (#[trigger] post[j]).system_state@
        == state_for(diffv.subrange(0, k + 1), eths0[j].name@) by {
        assert(diffv.subrange(0, k + 1) =~= diffv.subrange(0, k).push(diffv[k]));
        lemma_state_for_extend(diffv.subrange(0, k), diffv[k], eths0[j].name@);
        lemma_state_for_nonempty(diffv.subrange(0, k), eths0[j].name@);
        if j == idx {
        } else {
            assert(eths0[j].name@ != eths0[idx].name@);
        }
    }
}

/// An interface that already carries a fragment keeps it.
proof fn step_states_kept(
    eths: Seq<Ethernet>,
    eths0: Seq<Ethernet>,
    diffv: Seq<(Seq<char>, Seq<(String, YamlNode)>)>,
    k: int,
    idx: int,
)
    requires
        0 <= k < diffv.len(),
        eths.len() == eths0.len(),
        0 <= idx < eths0.len(),
        forall|j: int| 0 <= j < eths.len() ==> (#[trigger] eths[j]).name@ == eths0[j].name@,
        forall|a: int, b: int| 0 <= a < b < eths0.len() ==> eths0[a].name@ != eths0[b].name@,
        eths[idx].name@ == diffv[k].0,
        eths[idx].system_state@.len() > 0,
        diff_prefix_ok(eths, eths0, diffv, k),
    ensures
        diff_prefix_ok(eths, eths0, diffv, k + 1),
{
    assert forall|j: int| 0 <= j < eths0.len() implies (#[trigger] eths[j]).system_state@
        == state_for(diffv.subrange(0, k + 1), eths0[j].name@) by {
        assert(diffv.subrange(0, k + 1) =~= diffv.subrange(0, k).push(diffv[k]));
        lemma_state_for_extend(diffv.subrange(0, k), diffv[k], eths0[j].name@);
        lemma_state_for_nonempty(diffv.subrange(0, k), eths0[j].name@);
        if j == idx {
        } else {
            assert(eths0[j].name@ != eths0[idx].name@);
        }
    }
}

} // verus!

verus! {

/// The address survives its plain text form.
pub open spec fn ip_roundtrips(ip: IpAddress) -> bool {
    parse_ip_spec(ip_text(ip)) == Some(ip)
}

/// The address survives its route-field form, where the unspecified
/// address is written as "default".
pub open spec fn serial_roundtrips(ip: IpAddress) -> bool {
    parse_persisted_ip(ip_serial(ip)) == Some(ip)
}

/// The interface address survives its written form.
pub open spec fn addr_roundtrips(a: InterfaceAddress) -> bool {
    decode_addr_spec(addr_text(a)) == Some(a)
}

/// Every address field of the route survives its written form.
pub open spec fn route_stable(r: Route) -> bool {
    &&& (match r.from {
        Some(ip) => serial_roundtrips(ip),
        None => true,
    })
    &&& serial_roundtrips(r.to)
    &&& (match r.via {
        Some(ip) => serial_roundtrips(ip),
        None => true,
    })
}

/// Every written value of the interface survives its text form, and its
/// bounded integers are in bounds.
pub open spec fn eth_stable(e: Ethernet) -> bool {
    &&& (forall|i: int| 0 <= i < e.routes@.len() ==> route_stable(#[trigger] e.routes@[i]))
    &&& (forall|i: int|
        0 <= i < e.addresses@.len() ==> addr_roundtrips(#[trigger] e.addresses@[i]))
    &&& (forall|i: int|
        0 <= i < e.nameservers.addresses@.len() ==> ip_roundtrips(
            #[trigger] e.nameservers.addresses@[i],
        ))
    &&& (match e.mtu {
        Some(m) => m.in_bounds(),
        None => true,
    })
    &&& (match e.ipv6_mtu {
        Some(m) => m.in_bounds(),
        None => true,
    })
}

/// Every interface of the document is stable under the written form.
pub open spec fn network_stable(n: Network) -> bool {
    forall|i: int| 0 <= i < n.ethernets@.len() ==> eth_stable(#[trigger] n.ethernets@[i])
}

/// Skipping entries whose keys all differ does not change a lookup.
proof fn lemma_dict_get_skip(es: Seq<(String, YamlNode)>, k: Seq<char>, j: int)
    requires
        0 <= j <= es.len(),
        forall|t: int| 0 <= t < j ==> es[t].0@ != k,
    ensures
        dict_get_spec(es, k) == dict_get_spec(es.skip(j), k),
    decreases j,
{
    if j > 0 {
        assert(es[0].0@ != k);
        let t = es.drop_first();
        assert(forall|u: int| 0 <= u < j - 1 ==> t[u] == es[u + 1] && t[u].0@ != k);
        lemma_dict_get_skip(t, k, j - 1);
        assert(t.skip(j - 1) =~= es.skip(j));
    } else {
        assert(es.skip(0) =~= es);
    }
}

/// A written route reads back as itself.
proof fn lemma_route_doc_roundtrip(r: Route, d: YamlNode)
    requires
        route_doc_encodes(r, d),
        route_stable(r),
    ensures
        decode_route_spec(d) == Some(r),
{
    reveal_strlit("from");
    reveal_strlit("to");
    reveal_strlit("via");
    assert("from"@.len() == 4 && "to"@.len() == 2 && "via"@.len() == 3);
    match d {
        YamlNode::Dict(es) => {
            let k: int = if r.from is Some {
                1
            } else {
                0
            };
            match r.from {
                Some(ip) => {
                    assert(dict_get_spec(es@, "from"@) == Some(es@[0].1));
                },
                None => {
                    assert(es@[0].0@ == "to"@);
                    assert(forall|t: int| 0 <= t < es@.len() ==> es@[t].0@ != "from"@);
                    assert(dict_get_spec(es@, "from"@) is None) by {
                        lemma_dict_get_skip(es@, "from"@, es@.len() as int);
                        assert(es@.skip(es@.len() as int)
                            =~= Seq::<(String, YamlNode)>::empty());
                    }
                },
            }
            assert(dict_get_spec(es@, "to"@) == Some(es@[k].1)) by {
                lemma_dict_get_skip(es@, "to"@, k);
                assert(es@.skip(k)[0] == es@[k]);
            }
            match r.via {
                Some(ip) => {
                    assert(dict_get_spec(es@, "via"@) == Some(es@[k + 1].1)) by {
                        lemma_dict_get_skip(es@, "via"@, k + 1);
                        assert(es@.skip(k + 1)[0] == es@[k + 1]);
                    }
                },
                None => {
                    assert(dict_get_spec(es@, "via"@) is None) by {
                        lemma_dict_get_skip(es@, "via"@, es@.len() as int);
                        assert(es@.skip(es@.len() as int)
                            =~= Seq::<(String, YamlNode)>::empty());
                    }
                },
            }
        },
        _ => {},
    }
}

/// A written route list reads back as the same routes.
proof fn lemma_routes_items_roundtrip(rs: Seq<Route>, items: Seq<YamlNode>)
    requires
        items.len() == rs.len(),
        forall|i: int| 0 <= i < rs.len() ==> route_doc_encodes(rs[i], #[trigger] items[i]),
        forall|i: int| 0 <= i < rs.len() ==> route_stable(#[trigger] rs[i]),
    ensures
        decode_routes_spec(items) == Some(rs),
    decreases rs.len(),
{
    if rs.len() > 0 {
        lemma_route_doc_roundtrip(rs[0], items[0]);
        assert(forall|i: int|
            0 <= i < rs.drop_first().len() ==> rs.drop_first()[i] == rs[i + 1]
                && items.drop_first()[i] == items[i + 1]);
        lemma_routes_items_roundtrip(rs.drop_first(), items.drop_first());
        assert(seq![rs[0]] + rs.drop_first() =~= rs);
    }
}

/// A written text list reads back as the same texts.
proof fn lemma_texts_items_roundtrip(xs: Seq<Seq<char>>, items: Seq<YamlNode>)
    requires
        items.len() == xs.len(),
        forall|i: int| 0 <= i < xs.len() ==> node_is_text(#[trigger] items[i], xs[i]),
    ensures
        crate::netplan::flags_texts(items) == Some(xs),
    decreases xs.len(),
{
    if xs.len() > 0 {
        assert(forall|i: int|
            0 <= i < xs.drop_first().len() ==> xs.drop_first()[i] == xs[i + 1]
                && items.drop_first()[i] == items[i + 1]);
        lemma_texts_items_roundtrip(xs.drop_first(), items.drop_first());
        assert(seq![xs[0]] + xs.drop_first() =~= xs);
    }
}

/// A written address list reads back as the same addresses.
proof fn lemma_addrs_items_roundtrip(addrs: Seq<InterfaceAddress>, items: Seq<YamlNode>)
    requires
        items.len() == addrs.len(),
        forall|i: int|
            0 <= i < addrs.len() ==> node_is_text(#[trigger] items[i], addr_text(addrs[i])),
        forall|i: int| 0 <= i < addrs.len() ==> addr_roundtrips(#[trigger] addrs[i]),
    ensures
        decode_addrs_spec(items) == Some(addrs),
    decreases addrs.len(),
{
    if addrs.len() > 0 {
        assert(forall|i: int|
            0 <= i < addrs.drop_first().len() ==> addrs.drop_first()[i] == addrs[i + 1]
                && items.drop_first()[i] == items[i + 1]);
        lemma_addrs_items_roundtrip(addrs.drop_first(), items.drop_first());
        assert(seq![addrs[0]] + addrs.drop_first() =~= addrs);
    }
}

/// A written nameserver-address list reads back as the same addresses.
proof fn lemma_ips_items_roundtrip(ips: Seq<IpAddress>, items: Seq<YamlNode>)
    requires
        items.len() == ips.len(),
        forall|i: int| 0 <= i < ips.len() ==> node_is_text(#[trigger] items[i], ip_text(ips[i])),
        forall|i: int| 0 <= i < ips.len() ==> ip_roundtrips(#[trigger] ips[i]),
    ensures
        decode_ips_spec(items) == Some(ips),
    decreases ips.len(),
{
    if ips.len() > 0 {
        assert(forall|i: int|
            0 <= i < ips.drop_first().len() ==> ips.drop_first()[i] == ips[i + 1]
                && items.drop_first()[i] == items[i + 1]);
        lemma_ips_items_roundtrip(ips.drop_first(), items.drop_first());
        assert(seq![ips[0]] + ips.drop_first() =~= ips);
    }
}

/// Folding routes whose identities are already distinct changes nothing.
proof fn lemma_routes_fold_identity(rs: Seq<Route>)
    requires
        crate::util::distinct(crate::route::route_ids(rs)),
    ensures
        routes_fold(rs) == rs,
    decreases rs.len(),
{
    if rs.len() > 0 {
        let p = rs.drop_last();
        assert(crate::util::distinct(crate::route::route_ids(p))) by {
            assert(forall|i: int, j: int|
                0 <= i < j < p.len() ==> crate::route::route_ids(p)[i] == crate::route::route_ids(
                    rs,
                )[i] && crate::route::route_ids(p)[j] == crate::route::route_ids(rs)[j]);
        }
        lemma_routes_fold_identity(p);
        assert(forall|j: int|
            0 <= j < p.len() ==> crate::route::route_ids(rs)[j] != crate::route::route_ids(rs)[
                p.len() as int] && p[j].id_seq() == crate::route::route_ids(rs)[j]);
        assert(rs.last().id_seq() == crate::route::route_ids(rs)[p.len() as int]);
        crate::route::lemma_route_upsert_push(p, rs.last());
        assert(p.push(rs.last()) =~= rs);
    }
}

/// Set-folding an already duplicate-free list changes nothing.
proof fn lemma_addrs_fold_identity(xs: Seq<InterfaceAddress>)
    requires
        crate::util::distinct(xs),
    ensures
        addrs_fold(xs) == xs,
    decreases xs.len(),
{
    if xs.len() > 0 {
        let p = xs.drop_last();
        assert(crate::util::distinct(p));
        lemma_addrs_fold_identity(p);
        assert(!p.contains(xs.last())) by {
            if p.contains(xs.last()) {
                let i = choose|i: int| 0 <= i < p.len() && p[i] == xs.last();
                assert(xs[i] == xs[xs.len() - 1]);
            }
        }
        assert(p.push(xs.last()) =~= xs);
    }
}

proof fn lemma_texts_fold_identity(xs: Seq<Seq<char>>)
    requires
        crate::util::distinct(xs),
    ensures
        texts_fold(xs) == xs,
    decreases xs.len(),
{
    if xs.len() > 0 {
        let p = xs.drop_last();
        assert(crate::util::distinct(p));
        lemma_texts_fold_identity(p);
        assert(!p.contains(xs.last())) by {
            if p.contains(xs.last()) {
                let i = choose|i: int| 0 <= i < p.len() && p[i] == xs.last();
                assert(xs[i] == xs[xs.len() - 1]);
            }
        }
        assert(p.push(xs.last()) =~= xs);
    }
}

proof fn lemma_ips_fold_identity(xs: Seq<IpAddress>)
    requires
        crate::util::distinct(xs),
    ensures
        ips_fold(xs) == xs,
    decreases xs.len(),
{
    if xs.len() > 0 {
        let p = xs.drop_last();
        assert(crate::util::distinct(p));
        lemma_ips_fold_identity(p);
        assert(!p.contains(xs.last())) by {
            if p.contains(xs.last()) {
                let i = choose|i: int| 0 <= i < p.len() && p[i] == xs.last();
                assert(xs[i] == xs[xs.len() - 1]);
            }
        }
        assert(p.push(xs.last()) =~= xs);
    }
}

/// A written interface body reads back as the interface's own members.
#[verifier::rlimit(100)]
#[verifier::spinoff_prover]
proof fn lemma_eth_doc_roundtrip(e: Ethernet, d: YamlNode)
    requires
        e.wf(),
        eth_stable(e),
        eth_doc_encodes(e, d),
    ensures
        eth_pieces(d) matches Some(p) && p.dhcp4 == e.dhcp4 && p.dhcp6 == e.dhcp6 && p.mtu
            == bounded_opt_val(e.mtu) && p.ipv6_mtu == bounded_opt_val(e.ipv6_mtu) && p.accept_ra
            == e.accept_ra && p.routes == e.routes@ && p.addresses == e.addresses@ && p.search
            == e.nameservers.spec_search() && p.ns_addresses == e.nameservers.spec_addresses(),
{
    reveal_strlit("dhcp4");
    reveal_strlit("dhcp6");
    reveal_strlit("mtu");
    reveal_strlit("ipv6-mtu");
    reveal_strlit("accept-ra");
    reveal_strlit("routes");
    reveal_strlit("addresses");
    reveal_strlit("nameservers");
    reveal_strlit("search");
    assert("dhcp4"@.len() == 5 && "dhcp6"@.len() == 5 && "mtu"@.len() == 3 && "ipv6-mtu"@.len()
        == 8 && "accept-ra"@.len() == 9 && "routes"@.len() == 6 && "addresses"@.len() == 9
        && "nameservers"@.len() == 11 && "search"@.len() == 6);
    assert("dhcp4"@ != "dhcp6"@) by {
        assert("dhcp4"@[4] == '4');
        assert("dhcp6"@[4] == '6');
    }
    assert("accept-ra"@ != "addresses"@) by {
        assert("accept-ra"@[1] == 'c');
        assert("addresses"@[1] == 'd');
    }
    match d {
        YamlNode::Dict(es) => {
            let nr: int = if e.routes@.len() > 0 {
                1
            } else {
                0
            };
            let na: int = if e.addresses@.len() > 0 {
                1
            } else {
                0
            };
            assert(dict_get_spec(es@, "dhcp4"@) == Some(es@[0].1));
            assert(dict_get_spec(es@, "dhcp6"@) == Some(es@[1].1)) by {
                lemma_dict_get_skip(es@, "dhcp6"@, 1);
                assert(es@.skip(1)[0] == es@[1]);
            }
            assert(dict_get_spec(es@, "mtu"@) == Some(es@[2].1)) by {
                lemma_dict_get_skip(es@, "mtu"@, 2);
                assert(es@.skip(2)[0] == es@[2]);
            }
            assert(dict_get_spec(es@, "ipv6-mtu"@) == Some(es@[3].1)) by {
                lemma_dict_get_skip(es@, "ipv6-mtu"@, 3);
                assert(es@.skip(3)[0] == es@[3]);
            }
            assert(dict_get_spec(es@, "accept-ra"@) == Some(es@[4].1)) by {
                lemma_dict_get_skip(es@, "accept-ra"@, 4);
                assert(es@.skip(4)[0] == es@[4]);
            }
            if e.routes@.len() > 0 {
                assert(dict_get_spec(es@, "routes"@) == Some(es@[5].1)) by {
                    lemma_dict_get_skip(es@, "routes"@, 5);
                    assert(es@.skip(5)[0] == es@[5]);
                }
            } else {
                assert(dict_get_spec(es@, "routes"@) is None) by {
                    lemma_dict_get_skip(es@, "routes"@, es@.len() as int);
                    assert(es@.skip(es@.len() as int) =~= Seq::<(String, YamlNode)>::empty());
                }
            }
            if e.addresses@.len() > 0 {
                assert(dict_get_spec(es@, "addresses"@) == Some(es@[5 + nr].1)) by {
                    lemma_dict_get_skip(es@, "addresses"@, 5 + nr);
                    assert(es@.skip(5 + nr)[0] == es@[5 + nr]);
                }
            } else {
                assert(dict_get_spec(es@, "addresses"@) is None) by {
                    lemma_dict_get_skip(es@, "addresses"@, es@.len() as int);
                    assert(es@.skip(es@.len() as int) =~= Seq::<(String, YamlNode)>::empty());
                }
            }
            assert(dict_get_spec(es@, "nameservers"@) == Some(es@[5 + nr + na].1)) by {
                lemma_dict_get_skip(es@, "nameservers"@, 5 + nr + na);
                assert(es@.skip(5 + nr + na)[0] == es@[5 + nr + na]);
            }
            if e.routes@.len() > 0 {
                match es@[5].1 {
                    YamlNode::List(items) => {
                        lemma_routes_items_roundtrip(e.routes@, items@);
                    },
                    _ => {
                        assert(false);
                    },
                }
            } else {
                assert(decode_routes_spec(Seq::<YamlNode>::empty()) =~= Some(
                    Seq::<Route>::empty(),
                ));
            }
            if e.addresses@.len() > 0 {
                match es@[5 + nr].1 {
                    YamlNode::List(items) => {
                        lemma_addrs_items_roundtrip(e.addresses@, items@);
                    },
                    _ => {
                        assert(false);
                    },
                }
            }
            match es@[5 + nr + na].1 {
                YamlNode::Dict(nses) => {
                    let s1: int = if e.nameservers.search@.len() > 0 {
                        1
                    } else {
                        0
                    };
                    if e.nameservers.search@.len() > 0 {
                        assert(dict_get_spec(nses@, "search"@) == Some(nses@[0].1));
                        match nses@[0].1 {
                            YamlNode::List(items) => {
                                lemma_texts_items_roundtrip(e.nameservers.spec_search(), items@);
                            },
                            _ => {
                                assert(false);
                            },
                        }
                    } else {
                        assert(dict_get_spec(nses@, "search"@) is None) by {
                            lemma_dict_get_skip(nses@, "search"@, nses@.len() as int);
                            assert(nses@.skip(nses@.len() as int) =~= Seq::<
                                (String, YamlNode),
                            >::empty());
                        }
                        assert(e.nameservers.spec_search() =~= Seq::<Seq<char>>::empty());
                    }
                    if e.nameservers.addresses@.len() > 0 {
                        assert(dict_get_spec(nses@, "addresses"@) == Some(nses@[s1].1)) by {
                            lemma_dict_get_skip(nses@, "addresses"@, s1);
                            assert(nses@.skip(s1)[0] == nses@[s1]);
                        }
                        match nses@[s1].1 {
                            YamlNode::List(items) => {
                                lemma_ips_items_roundtrip(e.nameservers.spec_addresses(), items@);
                            },
                            _ => {
                                assert(false);
                            },
                        }
                    } else {
                        assert(dict_get_spec(nses@, "addresses"@) is None) by {
                            lemma_dict_get_skip(nses@, "addresses"@, nses@.len() as int);
                            assert(nses@.skip(nses@.len() as int) =~= Seq::<
                                (String, YamlNode),
                            >::empty());
                        }
                        assert(e.nameservers.spec_addresses() =~= Seq::<IpAddress>::empty());
                    }
                },
                _ => {
                    assert(false);
                },
            }
        },
        _ => {
            assert(false);
        },
    }
}

/// With an empty diff and no dynamic addresses, writing the document and
/// reading it back is the identity on everything that is persisted: the
/// version, the renderer, and each interface's name, settings, routes,
/// addresses and nameservers — the on-disk route sequence re-keys to the
/// identical in-memory mapping.  The derived members of the reloaded
/// document are empty.
pub proof fn lemma_save_load_fixed_point(n: Network, d: YamlNode, n2: Network)
    requires
        n.wf(),
        network_stable(n),
        network_doc_encodes(n, d),
        network_decodes(
            d,
            Seq::<(Seq<char>, Seq<(String, YamlNode)>)>::empty(),
            Seq::<(Seq<char>, Seq<Seq<char>>)>::empty(),
            n2,
        ),
    ensures
        n2.version == n.version,
        n2.renderer == n.renderer,
        n2.ethernets@.len() == n.ethernets@.len(),
        forall|i: int|
            0 <= i < n.ethernets@.len() ==> {
                let a = n.ethernets@[i];
                let b = #[trigger] n2.ethernets@[i];
                &&& b.name@ == a.name@
                &&& b.dhcp4 == a.dhcp4
                &&& b.dhcp6 == a.dhcp6
                &&& b.mtu == a.mtu
                &&& b.ipv6_mtu == a.ipv6_mtu
                &&& b.accept_ra == a.accept_ra
                &&& b.routes@ == a.routes@
                &&& b.addresses@ == a.addresses@
                &&& b.nameservers.spec_search() == a.nameservers.spec_search()
                &&& b.nameservers.spec_addresses() == a.nameservers.spec_addresses()
                &&& b.dynamic_addresses@.len() == 0
                &&& b.system_state@.len() == 0
            },
{
    reveal_strlit("network");
    reveal_strlit("version");
    reveal_strlit("renderer");
    reveal_strlit("ethernets");
    reveal_strlit("networkd");
    reveal_strlit("NetworkManager");
    assert("network"@.len() == 7 && "version"@.len() == 7 && "renderer"@.len() == 8
        && "ethernets"@.len() == 9 && "networkd"@.len() == 8 && "NetworkManager"@.len() == 14);
    assert("version"@ != "renderer"@);
    assert("version"@ != "ethernets"@);
    assert("renderer"@ != "ethernets"@);
    match d {
        YamlNode::Dict(top) => {
            assert(dict_get_spec(top@, "network"@) == Some(top@[0].1));
            assert(d.spec_get("network"@) == Some(top@[0].1));
            match top@[0].1 {
                YamlNode::Dict(body) => {
                    assert(dict_get_spec(body@, "version"@) == Some(body@[0].1));
                    assert(dict_get_spec(body@, "renderer"@) == Some(body@[1].1)) by {
                        lemma_dict_get_skip(body@, "renderer"@, 1);
                        assert(body@.skip(1)[0] == body@[1]);
                    }
                    assert(dict_get_spec(body@, "ethernets"@) == Some(body@[2].1)) by {
                        lemma_dict_get_skip(body@, "ethernets"@, 2);
                        assert(body@.skip(2)[0] == body@[2]);
                    }
                    assert(renderer_of_text(renderer_text(n.renderer)) == Some(n.renderer));
                    match body@[2].1 {
                        YamlNode::Dict(eths) => {
                            assert forall|i: int| 0 <= i < n.ethernets@.len() implies {
                                let a = n.ethernets@[i];
                                let b = #[trigger] n2.ethernets@[i];
                                &&& b.name@ == a.name@
                                &&& b.dhcp4 == a.dhcp4
                                &&& b.dhcp6 == a.dhcp6
                                &&& b.mtu == a.mtu
                                &&& b.ipv6_mtu == a.ipv6_mtu
                                &&& b.accept_ra == a.accept_ra
                                &&& b.routes@ == a.routes@
                                &&& b.addresses@ == a.addresses@
                                &&& b.nameservers.spec_search() == a.nameservers.spec_search()
                                &&& b.nameservers.spec_addresses()
                                    == a.nameservers.spec_addresses()
                                &&& b.dynamic_addresses@.len() == 0
                                &&& b.system_state@.len() == 0
                            } by {
                                let a = n.ethernets@[i];
                                let b = n2.ethernets@[i];
                                assert(a.wf() && eth_stable(a));
                                assert(eth_doc_encodes(a, eths@[i].1));
                                assert(eth_decodes(
                                    eths@[i].0@,
                                    eths@[i].1,
                                    dyn_for(Seq::<(Seq<char>, Seq<Seq<char>>)>::empty(), eths@[i].0@),
                                    state_for(
                                        Seq::<(Seq<char>, Seq<(String, YamlNode)>)>::empty(),
                                        eths@[i].0@,
                                    ),
                                    b,
                                ));
                                lemma_eth_doc_roundtrip(a, eths@[i].1);
                                lemma_routes_fold_identity(a.routes@);
                                lemma_addrs_fold_identity(a.addresses@);
                                lemma_texts_fold_identity(a.nameservers.spec_search());
                                lemma_ips_fold_identity(a.nameservers.spec_addresses());
                                match (a.mtu, b.mtu) {
                                    (Some(x), Some(y)) => {
                                        crate::custom_types::lemma_bounded_eq(x, y);
                                    },
                                    _ => {},
                                }
                                match (a.ipv6_mtu, b.ipv6_mtu) {
                                    (Some(x), Some(y)) => {
                                        crate::custom_types::lemma_bounded_eq(x, y);
                                    },
                                    _ => {},
                                }
                                assert(crate::util::string_views(b.dynamic_addresses@).len() == 0);
                            }
                        },
                        _ => {
                            assert(false);
                        },
                    }
                },
                _ => {
                    assert(false);
                },
            }
        },
        _ => {
            assert(false);
        },
    }
}

} // verus!

verus! {

/// Every address survives its plain text form.
pub proof fn lemma_ip_roundtrips(ip: IpAddress)
    ensures
        ip_roundtrips(ip),
{
    crate::ip::lemma_ip_text_roundtrip(ip);
}

/// An address whose written route field reads back as itself: everything
/// but the unspecified IPv6 address, whose written form "default" reads
/// back as the unspecified IPv4 address.
pub open spec fn serial_distinct(ip: IpAddress) -> bool {
    ip == IpAddress::V4(0u8, 0u8, 0u8, 0u8) || !ip.spec_is_unspecified()
}

/// A route field survives its written form unless it is the unspecified
/// IPv6 address.
pub proof fn lemma_serial_roundtrips(ip: IpAddress)
    requires
        serial_distinct(ip),
    ensures
        serial_roundtrips(ip),
{
    reveal_strlit("default");
    assert("default"@.len() == 7);
    assert("default"@[4] == 'u');
    if ip.spec_is_unspecified() {
    } else {
        crate::ip::lemma_ip_text_roundtrip(ip);
        assert(ip_text(ip) != "default"@) by {
            if ip_text(ip) == "default"@ {
                assert(ip_text(ip)[4] == 'u');
                assert(crate::ip::ip_char_ok(ip_text(ip)[4]));
                assert(crate::ip::hex_val('u') == 16);
                assert(false);
            }
        }
    }
}

/// A well-formed interface address survives its written form.
pub proof fn lemma_addr_roundtrips(a: InterfaceAddress)
    requires
        a.wf(),
    ensures
        addr_roundtrips(a),
{
    crate::ip::lemma_ip_text_roundtrip(a.ip);
    crate::ip::lemma_dec_of_roundtrip(a.prefix_len as nat);
    let t = ip_text(a.ip);
    let p = dec_of(a.prefix_len as nat);
    assert(forall|k: int| 0 <= k < t.len() ==> #[trigger] t[k] != '/');
    crate::ip::lemma_split_sep(t, '/', p);
    crate::ip::lemma_split_nosep(p, '/');
    let parts = split_char(addr_text(a), '/');
    assert(addr_text(a) =~= t + seq!['/'] + p);
    assert(parts =~= seq![t, p]);
    assert(crate::ip::parse_octet(p) == Some(a.prefix_len)) by {
        crate::ip::lemma_octet_roundtrip(a.prefix_len as nat);
    }
}

} // verus!

verus! {

/// A document whose written form loses nothing: no route field is the
/// unspecified IPv6 address, every interface address is well formed, and
/// the bounded integers are in bounds.
pub open spec fn persistable(n: Network) -> bool {
    forall|i: int|
        0 <= i < n.ethernets@.len() ==> {
            let e = #[trigger] n.ethernets@[i];
            &&& (forall|j: int|
                0 <= j < e.routes@.len() ==> {
                    let r = #[trigger] e.routes@[j];
                    &&& (match r.from {
                        Some(ip) => serial_distinct(ip),
                        None => true,
                    })
                    &&& serial_distinct(r.to)
                    &&& (match r.via {
                        Some(ip) => serial_distinct(ip),
                        None => true,
                    })
                })
            &&& (forall|j: int| 0 <= j < e.addresses@.len() ==> (#[trigger] e.addresses@[j]).wf())
            &&& (match e.mtu {
                Some(m) => m.in_bounds(),
                None => true,
            })
            &&& (match e.ipv6_mtu {
                Some(m) => m.in_bounds(),
                None => true,
            })
        }
}

/// A persistable document is stable under the written form.
pub proof fn lemma_persistable_stable(n: Network)
    requires
        persistable(n),
    ensures
        network_stable(n),
{
    assert forall|i: int| 0 <= i < n.ethernets@.len() implies eth_stable(
        #[trigger] n.ethernets@[i],
    ) by {
        let e = n.ethernets@[i];
        assert forall|j: int| 0 <= j < e.routes@.len() implies route_stable(
            #[trigger] e.routes@[j],
        ) by {
            let r = e.routes@[j];
            match r.from {
                Some(ip) => lemma_serial_roundtrips(ip),
                None => {},
            }
            lemma_serial_roundtrips(r.to);
            match r.via {
                Some(ip) => lemma_serial_roundtrips(ip),
                None => {},
            }
        }
        assert forall|j: int| 0 <= j < e.addresses@.len() implies addr_roundtrips(
            #[trigger] e.addresses@[j],
        ) by {
            lemma_addr_roundtrips(e.addresses@[j]);
        }
        assert forall|j: int|
            0 <= j < e.nameservers.addresses@.len() implies ip_roundtrips(
            #[trigger] e.nameservers.addresses@[j],
        ) by {
            lemma_ip_roundtrips(e.nameservers.addresses@[j]);
        }
    }
}

/// Saving and loading a well-formed, persistable document is the identity
/// on everything that is persisted, with the derived members of the
/// reloaded document empty.
pub proof fn lemma_save_load_round_trip(n: Network, d: YamlNode, n2: Network)
    requires
        n.wf(),
        persistable(n),
        network_doc_encodes(n, d),
        network_decodes(
            d,
            Seq::<(Seq<char>, Seq<(String, YamlNode)>)>::empty(),
            Seq::<(Seq<char>, Seq<Seq<char>>)>::empty(),
            n2,
        ),
    ensures
        n2.version == n.version,
        n2.renderer == n.renderer,
        n2.ethernets@.len() == n.ethernets@.len(),
        forall|i: int|
            0 <= i < n.ethernets@.len() ==> {
                let a = n.ethernets@[i];
                let b = #[trigger] n2.ethernets@[i];
                &&& b.name@ == a.name@
                &&& b.dhcp4 == a.dhcp4
                &&& b.dhcp6 == a.dhcp6
                &&& b.mtu == a.mtu
                &&& b.ipv6_mtu == a.ipv6_mtu
                &&& b.accept_ra == a.accept_ra
                &&& b.routes@ == a.routes@
                &&& b.addresses@ == a.addresses@
                &&& b.nameservers.spec_search() == a.nameservers.spec_search()
                &&& b.nameservers.spec_addresses() == a.nameservers.spec_addresses()
                &&& b.dynamic_addresses@.len() == 0
                &&& b.system_state@.len() == 0
            },
{
    lemma_persistable_stable(n);
    lemma_save_load_fixed_point(n, d, n2);
}

} // verus!

verus! {

/// What `save` writes, `load` accepts: the document written for a
/// well-formed, persistable configuration is readable, so reading back
/// the saved file succeeds by the reader's own contract.
pub proof fn lemma_written_doc_ok(n: Network, d: YamlNode)
    requires
        n.wf(),
        persistable(n),
        network_doc_encodes(n, d),
    ensures
        network_doc_ok(d),
{
    reveal_strlit("network");
    reveal_strlit("version");
    reveal_strlit("renderer");
    reveal_strlit("ethernets");
    reveal_strlit("networkd");
    reveal_strlit("NetworkManager");
    assert("network"@.len() == 7 && "version"@.len() == 7 && "renderer"@.len() == 8
        && "ethernets"@.len() == 9 && "networkd"@.len() == 8 && "NetworkManager"@.len() == 14);
    assert("version"@ != "renderer"@);
    assert("version"@ != "ethernets"@);
    assert("renderer"@ != "ethernets"@);
    lemma_persistable_stable(n);
    match d {
        YamlNode::Dict(top) => {
            assert(dict_get_spec(top@, "network"@) == Some(top@[0].1));
            assert(d.spec_get("network"@) == Some(top@[0].1));
            match top@[0].1 {
                YamlNode::Dict(body) => {
                    assert(dict_get_spec(body@, "version"@) == Some(body@[0].1));
                    assert(dict_get_spec(body@, "renderer"@) == Some(body@[1].1)) by {
                        lemma_dict_get_skip(body@, "renderer"@, 1);
                        assert(body@.skip(1)[0] == body@[1]);
                    }
                    assert(dict_get_spec(body@, "ethernets"@) == Some(body@[2].1)) by {
                        lemma_dict_get_skip(body@, "ethernets"@, 2);
                        assert(body@.skip(2)[0] == body@[2]);
                    }
                    assert(renderer_of_text(renderer_text(n.renderer)) is Some);
                    match body@[2].1 {
                        YamlNode::Dict(eths) => {
                            let names = Seq::new(eths@.len(), |i: int| eths@[i].0@);
                            assert(crate::util::distinct(names)) by {
                                assert forall|a: int, b: int|
                                    0 <= a < b < names.len() implies names[a] != names[b] by {
                                    assert(names[a] == n.ethernets@[a].name@);
                                    assert(names[b] == n.ethernets@[b].name@);
                                    assert(crate::network::eth_names(n.ethernets@)[a]
                                        != crate::network::eth_names(n.ethernets@)[b]);
                                }
                            }
                            assert forall|i: int|
                                0 <= i < eths@.len() implies eth_pieces(
                                (#[trigger] eths@[i]).1,
                            ) is Some by {
                                assert(n.ethernets@[i].wf() && eth_stable(n.ethernets@[i]));
                                lemma_eth_doc_roundtrip(n.ethernets@[i], eths@[i].1);
                            }
                        },
                        _ => {
                            assert(false);
                        },
                    }
                },
                _ => {
                    assert(false);
                },
            }
        },
        _ => {
            assert(false);
        },
    }
}

} // verus!
