//! Routes and their identities.
//!
//! A route's identity is a pure function of its (from, to, via) triple, so
//! structurally identical routes collapse onto one entry instead of
//! duplicating.
use crate::input_models::InputRoute;
use crate::ip::{ip_text, parse_ip, parse_ip_spec, IpAddress};
use crate::util::distinct;
use vstd::prelude::VecAdditionalExecFns;
use vstd::prelude::*;

verus! {

#[derive(Clone, Copy, Debug)]
pub struct Route {
    pub from: Option<IpAddress>,
    pub to: IpAddress,
    pub via: Option<IpAddress>,
}

/// Which textual field of an incoming route failed to parse.
#[derive(Clone, Copy, Debug, PartialEq, Eq, Structural)]
pub enum RouteParseError {
    InvalidFrom,
    InvalidTo,
    InvalidVia,
}

/// A textual route field: the word "default" names the unspecified IPv6
/// address, anything else must be an address literal.
pub open spec fn parse_route_field(s: Seq<char>) -> Option<IpAddress> {
    if s == "default"@ {
        Some(IpAddress::V6(0u16, 0u16, 0u16, 0u16, 0u16, 0u16, 0u16, 0u16))
    } else {
        parse_ip_spec(s)
    }
}

/// An optional textual route field; the outer None marks a parse failure.
pub open spec fn parse_opt_field(o: Option<String>) -> Option<Option<IpAddress>> {
    match o {
        None => Some(None),
        Some(s) => match parse_route_field(s@) {
            Some(ip) => Some(Some(ip)),
            None => None,
        },
    }
}

impl Route {
    pub fn new(to: IpAddress, via: Option<IpAddress>, from: Option<IpAddress>) -> (r: Self)
        ensures
            r == (Route { from, to, via }),
    {
        Route { from, to, via }
    }

    /// The deterministic identity of the triple:
    /// `{from|"from"}-{to or "default"}-{via|"via"}`.
    pub open spec fn id_seq(self) -> Seq<char> {
        (match self.from {
            Some(ip) => ip_text(ip),
            None => "from"@,
        }) + seq!['-'] + (if self.to.spec_is_unspecified() {
            "default"@
        } else {
            ip_text(self.to)
        }) + seq!['-'] + (match self.via {
            Some(ip) => ip_text(ip),
            None => "via"@,
        })
    }

    pub fn id(&self) -> (s: String)
        ensures
            s@ == self.id_seq(),
    {
        let mut s = match self.from {
            Some(ip) => ip.to_text(),
            None => String::from_str(from_word()),
        };
        s.append(hyphen_str());
        if self.to.is_unspecified() {
            s.append(default_word());
        } else {
            s.append(self.to.to_text().as_str());
        }
        s.append(hyphen_str());
        match self.via {
            Some(ip) => s.append(ip.to_text().as_str()),
            None => s.append(via_word()),
        }
        s
    }

    /// Reads a route from its textual form, taking the fields in the order
    /// from, to, via and reporting the first that does not parse.
    pub fn from_input_route(input_route: &InputRoute) -> (r: Result<Self, RouteParseError>)
        ensures
            r is Ok <==> parse_opt_field(input_route.from) is Some && parse_route_field(
                input_route.to@,
            ) is Some && parse_opt_field(input_route.via) is Some,
            r matches Ok(rt) ==> parse_opt_field(input_route.from) == Some(rt.from)
                && parse_route_field(input_route.to@) == Some(rt.to) && parse_opt_field(
                input_route.via,
            ) == Some(rt.via),
            r == Err::<Route, RouteParseError>(RouteParseError::InvalidFrom) <==> parse_opt_field(
                input_route.from,
            ) is None,
            r == Err::<Route, RouteParseError>(RouteParseError::InvalidTo) <==> (parse_opt_field(
                input_route.from,
            ) is Some && parse_route_field(input_route.to@) is None),
            r == Err::<Route, RouteParseError>(RouteParseError::InvalidVia) <==> (parse_opt_field(
                input_route.from,
            ) is Some && parse_route_field(input_route.to@) is Some && parse_opt_field(
                input_route.via,
            ) is None),
    {
        let from: Option<IpAddress> = match &input_route.from {
            None => None,
            Some(s) => match parse_field(s) {
                Some(ip) => Some(ip),
                None => {
                    return Err(RouteParseError::InvalidFrom);
                },
            },
        };
        let to: IpAddress = match parse_field(&input_route.to) {
            Some(ip) => ip,
            None => {
                return Err(RouteParseError::InvalidTo);
            },
        };
        let via: Option<IpAddress> = match &input_route.via {
            None => None,
            Some(s) => match parse_field(s) {
                Some(ip) => Some(ip),
                None => {
                    return Err(RouteParseError::InvalidVia);
                },
            },
        };
        Ok(Route { from, to, via })
    }

    /// The lines a human-readable dump of the route consists of.
    pub open spec fn display_text(self) -> Seq<char> {
        "Route:\n"@ + (match self.from {
            Some(ip) => "  From: "@ + ip_text(ip) + "\n"@,
            None => "  Origin: None\n"@,
        }) + "  To: "@ + ip_text(self.to) + "\n"@ + (match self.via {
            Some(ip) => "  Via: "@ + ip_text(ip) + "\n"@,
            None => "  Via: None\n"@,
        })
    }

    /// Renders the route for display, one field per line.
    pub fn display(&self) -> (s: String)
        ensures
            s@ == self.display_text(),
    {
        let mut s = String::from_str("Route:\n");
        match self.from {
            Some(ip) => {
                s.append("  From: ");
                s.append(ip.to_text().as_str());
                s.append("\n");
            },
            None => {
                s.append("  Origin: None\n");
            },
        }
        s.append("  To: ");
        s.append(self.to.to_text().as_str());
        s.append("\n");
        match self.via {
            Some(ip) => {
                s.append("  Via: ");
                s.append(ip.to_text().as_str());
                s.append("\n");
            },
            None => {
                s.append("  Via: None\n");
            },
        }
        s
    }
}

/// One textual route field.
fn parse_field(s: &String) -> (r: Option<IpAddress>)
    ensures
        r == parse_route_field(s@),
{
    let d = String::from_str(default_word());
    if *s == d {
        Some(IpAddress::unspecified_v6())
    } else {
        parse_ip(s.as_str())
    }
}

fn hyphen_str() -> (s: &'static str)
    ensures
        s@ =~= seq!['-'],
{
    proof {
        reveal_strlit("-");
    }
    "-"
}

fn from_word() -> (s: &'static str)
    ensures
        s@ == "from"@,
{
    "from"
}

fn via_word() -> (s: &'static str)
    ensures
        s@ == "via"@,
{
    "via"
}

fn default_word() -> (s: &'static str)
    ensures
        s@ == "default"@,
{
    "default"
}

/// The identities of the routes, in order.
pub open spec fn route_ids(rs: Seq<Route>) -> Seq<Seq<char>> {
    Seq::new(rs.len(), |i: int| rs[i].id_seq())
}

pub open spec fn has_route_id(rs: Seq<Route>, id: Seq<char>) -> bool {
    route_ids(rs).contains(id)
}

/// rs with r set under its identity: the first entry of the same identity
/// is replaced, otherwise r is appended.
pub open spec fn route_upsert(rs: Seq<Route>, r: Route) -> Seq<Route>
    decreases rs.len(),
{
    if rs.len() == 0 {
        seq![r]
    } else if rs[0].id_seq() == r.id_seq() {
        seq![r] + rs.drop_first()
    } else {
        seq![rs[0]] + route_upsert(rs.drop_first(), r)
    }
}

/// rs with the first route of the given identity removed.
pub open spec fn route_remove_id(rs: Seq<Route>, id: Seq<char>) -> Seq<Route>
    decreases rs.len(),
{
    if rs.len() == 0 {
        rs
    } else if rs[0].id_seq() == id {
        rs.drop_first()
    } else {
        seq![rs[0]] + route_remove_id(rs.drop_first(), id)
    }
}

/// Replacing at the first matching index realizes the upsert.
pub proof fn lemma_route_upsert_update(rs: Seq<Route>, r: Route, i: int)
    requires
        0 <= i < rs.len(),
        rs[i].id_seq() == r.id_seq(),
        forall|j: int| 0 <= j < i ==> rs[j].id_seq() != r.id_seq(),
    ensures
        route_upsert(rs, r) == rs.update(i, r),
    decreases i,
{
    if i == 0 {
        assert(seq![r] + rs.drop_first() =~= rs.update(0, r));
    } else {
        let t = rs.drop_first();
        assert(t[i - 1] == rs[i]);
        assert(forall|j: int| 0 <= j < i - 1 ==> t[j] == rs[j + 1] && t[j].id_seq()
            != r.id_seq());
        lemma_route_upsert_update(t, r, i - 1);
        assert(seq![rs[0]] + t.update(i - 1, r) =~= rs.update(i, r));
    }
}

/// Appending realizes the upsert when no identity matches.
pub proof fn lemma_route_upsert_push(rs: Seq<Route>, r: Route)
    requires
        forall|j: int| 0 <= j < rs.len() ==> rs[j].id_seq() != r.id_seq(),
    ensures
        route_upsert(rs, r) == rs.push(r),
    decreases rs.len(),
{
    if rs.len() == 0 {
        assert(route_upsert(rs, r) =~= rs.push(r));
    } else {
        let t = rs.drop_first();
        assert(forall|j: int| 0 <= j < t.len() ==> t[j] == rs[j + 1] && t[j].id_seq()
            != r.id_seq());
        lemma_route_upsert_push(t, r);
        assert(seq![rs[0]] + t.push(r) =~= rs.push(r));
    }
}

/// Re-adding a route with the same triple overwrites its entry: a second
/// add changes nothing.
pub proof fn lemma_route_upsert_idempotent(rs: Seq<Route>, r: Route)
    ensures
        route_upsert(route_upsert(rs, r), r) == route_upsert(rs, r),
    decreases rs.len(),
{
    if rs.len() == 0 {
        let u = seq![r];
        assert(route_upsert(u, r) =~= u);
    } else if rs[0].id_seq() == r.id_seq() {
        let u = seq![r] + rs.drop_first();
        assert(u[0] == r);
        assert(route_upsert(u, r) =~= u) by {
            assert(u.drop_first() =~= rs.drop_first());
        }
    } else {
        let u = seq![rs[0]] + route_upsert(rs.drop_first(), r);
        assert(u[0] == rs[0]);
        assert(u.drop_first() =~= route_upsert(rs.drop_first(), r));
        lemma_route_upsert_idempotent(rs.drop_first(), r);
        assert(route_upsert(u, r) =~= u);
    }
}

/// The identity of a route depends on its triple alone: equal fields give
/// equal identities.
pub proof fn lemma_route_id_pure(r1: Route, r2: Route)
    requires
        r1.from == r2.from,
        r1.to == r2.to,
        r1.via == r2.via,
    ensures
        r1.id_seq() == r2.id_seq(),
{
}

/// Every identity present after an upsert was present before or is the new
/// route's.
pub proof fn lemma_route_upsert_ids(rs: Seq<Route>, r: Route)
    ensures
        forall|id: Seq<char>|
            has_route_id(route_upsert(rs, r), id) ==> has_route_id(rs, id) || id == r.id_seq(),
    decreases rs.len(),
{
    let u = route_upsert(rs, r);
    if rs.len() == 0 {
        assert forall|id: Seq<char>| has_route_id(u, id) implies has_route_id(rs, id) || id
            == r.id_seq() by {
            let k = choose|k: int| 0 <= k < u.len() && u[k].id_seq() == id;
        }
    } else if rs[0].id_seq() == r.id_seq() {
        assert forall|id: Seq<char>| has_route_id(u, id) implies has_route_id(rs, id) || id
            == r.id_seq() by {
            let k = choose|k: int| 0 <= k < u.len() && u[k].id_seq() == id;
            if k > 0 {
                assert(u[k] == rs.drop_first()[k - 1]);
                assert(rs[k].id_seq() == id);
                assert(route_ids(rs)[k] == id);
            }
        }
    } else {
        lemma_route_upsert_ids(rs.drop_first(), r);
        assert forall|id: Seq<char>| has_route_id(u, id) implies has_route_id(rs, id) || id
            == r.id_seq() by {
            let k = choose|k: int| 0 <= k < u.len() && u[k].id_seq() == id;
            if k == 0 {
                assert(route_ids(rs)[0] == id);
            } else {
                assert(u[k] == route_upsert(rs.drop_first(), r)[k - 1]);
                assert(route_ids(route_upsert(rs.drop_first(), r))[k - 1] == id);
                assert(has_route_id(route_upsert(rs.drop_first(), r), id));
                if has_route_id(rs.drop_first(), id) {
                    let m = choose|m: int|
                        0 <= m < rs.drop_first().len() && rs.drop_first()[m].id_seq() == id;
                    assert(rs[m + 1].id_seq() == id);
                    assert(route_ids(rs)[m + 1] == id);
                }
            }
        }
    }
}

/// An upsert keeps route identities distinct.
pub proof fn lemma_route_upsert_distinct(rs: Seq<Route>, r: Route)
    requires
        distinct(route_ids(rs)),
    ensures
        distinct(route_ids(route_upsert(rs, r))),
    decreases rs.len(),
{
    let u = route_upsert(rs, r);
    let t = rs.drop_first();
    if rs.len() == 0 {
    } else {
        assert(distinct(route_ids(t))) by {
            assert(forall|i: int, j: int|
                0 <= i < j < t.len() ==> route_ids(t)[i] == route_ids(rs)[i + 1] && route_ids(
                    t,
                )[j] == route_ids(rs)[j + 1]);
        }
        if rs[0].id_seq() == r.id_seq() {
            assert forall|i: int, j: int| 0 <= i < j < u.len() implies route_ids(u)[i]
                != route_ids(u)[j] by {
                if i == 0 {
                    assert(u[j] == t[j - 1]);
                    assert(route_ids(rs)[0] != route_ids(rs)[j]);
                } else {
                    assert(u[i] == t[i - 1] && u[j] == t[j - 1]);
                    assert(route_ids(rs)[i] != route_ids(rs)[j]);
                }
            }
        } else {
            lemma_route_upsert_distinct(t, r);
            lemma_route_upsert_ids(t, r);
            assert forall|i: int, j: int| 0 <= i < j < u.len() implies route_ids(u)[i]
                != route_ids(u)[j] by {
                if i == 0 {
                    assert(u[j] == route_upsert(t, r)[j - 1]);
                    assert(route_ids(route_upsert(t, r))[j - 1] == u[j].id_seq());
                    assert(has_route_id(route_upsert(t, r), u[j].id_seq()));
                    if u[j].id_seq() == rs[0].id_seq() {
                        if has_route_id(t, u[j].id_seq()) {
                            let m = choose|m: int|
                                0 <= m < t.len() && t[m].id_seq() == u[j].id_seq();
                            assert(route_ids(rs)[m + 1] == route_ids(rs)[0]);
                            assert(false);
                        } else {
                            assert(u[j].id_seq() == r.id_seq());
                            assert(false);
                        }
                    }
                } else {
                    assert(u[i] == route_upsert(t, r)[i - 1]);
                    assert(u[j] == route_upsert(t, r)[j - 1]);
                    assert(route_ids(route_upsert(t, r))[i - 1] != route_ids(
                        route_upsert(t, r),
                    )[j - 1]);
                }
            }
        }
    }
}

/// Removal at the first matching index realizes the keyed removal.
pub proof fn lemma_route_remove_at(rs: Seq<Route>, id: Seq<char>, i: int)
    requires
        0 <= i < rs.len(),
        rs[i].id_seq() == id,
        forall|j: int| 0 <= j < i ==> rs[j].id_seq() != id,
    ensures
        route_remove_id(rs, id) == rs.subrange(0, i) + rs.subrange(i + 1, rs.len() as int),
    decreases i,
{
    if i == 0 {
        assert(rs.drop_first() =~= rs.subrange(0, 0) + rs.subrange(1, rs.len() as int));
    } else {
        let t = rs.drop_first();
        assert(t[i - 1] == rs[i]);
        assert(forall|j: int| 0 <= j < i - 1 ==> t[j] == rs[j + 1] && t[j].id_seq() != id);
        lemma_route_remove_at(t, id, i - 1);
        assert(seq![rs[0]] + (t.subrange(0, i - 1) + t.subrange(i, t.len() as int)) =~= rs.subrange(
            0,
            i,
        ) + rs.subrange(i + 1, rs.len() as int));
    }
}

/// Removing an identity that no route has changes nothing.
pub proof fn lemma_route_remove_absent(rs: Seq<Route>, id: Seq<char>)
    requires
        !has_route_id(rs, id),
    ensures
        route_remove_id(rs, id) == rs,
    decreases rs.len(),
{
    if rs.len() > 0 {
        assert(rs[0].id_seq() != id) by {
            assert(route_ids(rs)[0] == rs[0].id_seq());
        }
        let t = rs.drop_first();
        assert(!has_route_id(t, id)) by {
            if has_route_id(t, id) {
                let k = choose|k: int| 0 <= k < t.len() && t[k].id_seq() == id;
                assert(route_ids(rs)[k + 1] == id);
            }
        }
        lemma_route_remove_absent(t, id);
        assert(seq![rs[0]] + t =~= rs);
    }
}

} // verus!

verus! {

/// Sets the route under its identity in a route vector: the first entry of
/// the same identity is replaced, otherwise the route is appended.
pub fn upsert_route_vec(rs: &mut Vec<Route>, route: &Route)
    ensures
        final (rs)@ == route_upsert(old(rs)@, *route),
        distinct(route_ids(old(rs)@)) ==> distinct(route_ids(final (rs)@)),
{
    let ghost pre = rs@;
    let rid = route.id();
    let mut i: usize = 0;
    while i < rs.len()
        invariant
            i <= rs.len(),
            rs@ == pre,
            pre == old(rs)@,
            rid@ == route.id_seq(),
            forall|j: int| 0 <= j < i ==> rs@[j].id_seq() != route.id_seq(),
        decreases rs.len() - i,
    {
        let eid = rs[i].id();
        if eid == rid {
            proof {
                lemma_route_upsert_update(pre, *route, i as int);
                if distinct(route_ids(pre)) {
                    lemma_route_upsert_distinct(pre, *route);
                }
            }
            rs.set(i, *route);
            return ;
        }
        i += 1;
    }
    proof {
        lemma_route_upsert_push(pre, *route);
        if distinct(route_ids(pre)) {
            lemma_route_upsert_distinct(pre, *route);
        }
    }
    rs.push(*route);
}

} // verus!
