//! The renderer client's pure half and the reconciliation engine.
//!
//! Everything that decides is here, verified: which renderer invocation to
//! run, how its status and diff output is read, how observed drift is
//! classified, and when the bounded polling loop retries, fails, or accepts.
//! Running the renderer binary, sleeping, and file handling are left to the
//! thin shell around the library, which feeds observations back in as plain
//! values.
use crate::ethernet::Ethernet;
use crate::network::Network;
use crate::util::string_views;
use crate::yaml::{dict_get_spec, dict_lookup, YamlNode};
use vstd::prelude::*;

verus! {

/// The canonical path of the persisted configuration.
pub const NETPLAN_CONFIG_PATH: &'static str = "/etc/netplan/01-network-conf.yaml";

/// How many one-second polls an apply may take before the engine stops
/// waiting for pending DHCP leases.
pub const SECONDS_TO_WAIT: u32 = 15;

/// The renderer client: command construction and output interpretation.
#[derive(Default)]
pub struct Netplan;

/// The observed `system_state` fragment of one interface.
pub type SystemState = Vec<(String, YamlNode)>;

/// The renderer's diff: per interface name, its observed drift fragment.
pub type DiffReport = Vec<(String, SystemState)>;

/// Reading a renderer document failed in a place the engine relies on: the
/// output did not have the promised shape.
#[derive(Clone, Copy, Debug, PartialEq, Eq, Structural)]
pub struct StatusParseError;

/// How one observed diff is answered.
#[derive(Clone, Copy, Debug, PartialEq, Eq, Structural)]
pub enum DriftClass {
    /// The diff is empty: persisted intent and live state agree.
    Converged,
    /// Drift that no missing-DHCP flag explains: a fatal error.
    Unchecked,
    /// Drift flagged as missing DHCP addresses on interfaces that expect
    /// one: worth waiting for.
    DhcpPending,
    /// Drift flagged as missing DHCP addresses, but on no interface that
    /// expects one: accepted with a warning.
    Unattributed,
}

/// What a finished reconciliation reports.
#[derive(Clone, Copy, Debug, PartialEq, Eq, Structural)]
pub enum ReconcileOutcome {
    /// The diff came back empty within the polling budget.
    Converged,
    /// Unexplained drift: the caller must fail the operation.
    UncheckedDifferences,
    /// Drift not attributable to pending DHCP; accepted, to be logged.
    UnattributedDrift,
    /// The polling budget ran out while DHCP was still pending; accepted,
    /// to be logged.
    PendingTimeout,
}

/// One decision of the polling loop.
#[derive(Clone, Copy, Debug, PartialEq, Eq, Structural)]
pub enum ReconcileAction {
    /// Sleep one second, poll the diff again, and hand it to `step`.
    Retry,
    /// Stop polling with this outcome.
    Finish(ReconcileOutcome),
}

impl ReconcileOutcome {
    /// Only unexplained drift fails the operation.
    pub fn is_fatal(&self) -> (r: bool)
        ensures
            r == (*self is UncheckedDifferences),
    {
        match *self {
            ReconcileOutcome::UncheckedDifferences => true,
            _ => false,
        }
    }
}

/// An interface's drift fragment claims a missing DHCP address: either
/// the `missing_dhcp4_address` or the `missing_dhcp6_address` flag is
/// present and true.
pub open spec fn state_flags_missing_dhcp(state: Seq<(String, YamlNode)>) -> bool {
    ||| (match dict_get_spec(state, "missing_dhcp4_address"@) {
        Some(v) => v.spec_as_bool() == Some(true),
        None => false,
    })
    ||| (match dict_get_spec(state, "missing_dhcp6_address"@) {
        Some(v) => v.spec_as_bool() == Some(true),
        None => false,
    })
}

/// The names of the diff'd interfaces whose fragment claims a missing DHCP
/// address, in diff order.
pub open spec fn missing_dhcp_names(diff: Seq<(String, SystemState)>) -> Seq<Seq<char>>
    decreases diff.len(),
{
    if diff.len() == 0 {
        Seq::empty()
    } else {
        (if state_flags_missing_dhcp(diff[0].1@) {
            seq![diff[0].0@]
        } else {
            Seq::empty()
        }) + missing_dhcp_names(diff.drop_first())
    }
}

/// Whether any diff'd interface claims a missing DHCP address.
pub open spec fn some_missing_dhcp(diff: Seq<(String, SystemState)>) -> bool {
    exists|i: int| 0 <= i < diff.len() && state_flags_missing_dhcp(diff[i].1@)
}

/// An interface for which a DHCP-assigned address is expected: dhcp4 on, or
/// dhcp6 on with router advertisements accepted.
pub open spec fn expects_dhcp(e: Ethernet) -> bool {
    e.dhcp4 || (e.dhcp6 && e.accept_ra == Some(true))
}

/// The names of the interfaces expecting a DHCP address, in document order.
pub open spec fn expecting_names(es: Seq<Ethernet>) -> Seq<Seq<char>>
    decreases es.len(),
{
    if es.len() == 0 {
        Seq::empty()
    } else {
        (if expects_dhcp(es[0]) {
            seq![es[0].name@]
        } else {
            Seq::empty()
        }) + expecting_names(es.drop_first())
    }
}

/// Some interface both claims a missing DHCP address and expects one.
pub open spec fn spec_dhcp_pending(diff: Seq<(String, SystemState)>, es: Seq<Ethernet>) -> bool {
    exists|i: int, j: int|
        0 <= i < diff.len() && 0 <= j < es.len() && state_flags_missing_dhcp(diff[i].1@)
            && expects_dhcp(es[j]) && diff[i].0@ == es[j].name@
}

/// The three-way reading of one observed diff against the persisted
/// document, with convergence as the fourth, trivial case.
pub open spec fn classify_spec(diff: Seq<(String, SystemState)>, es: Seq<Ethernet>) -> DriftClass {
    if diff.len() == 0 {
        DriftClass::Converged
    } else if !some_missing_dhcp(diff) {
        DriftClass::Unchecked
    } else if spec_dhcp_pending(diff, es) {
        DriftClass::DhcpPending
    } else {
        DriftClass::Unattributed
    }
}

pub proof fn lemma_missing_names_iff(diff: Seq<(String, SystemState)>)
    ensures
        forall|name: Seq<char>|
            missing_dhcp_names(diff).contains(name) <==> exists|i: int|
                0 <= i < diff.len() && state_flags_missing_dhcp(diff[i].1@) && diff[i].0@ == name,
    decreases diff.len(),
{
    if diff.len() > 0 {
        let t = diff.drop_first();
        lemma_missing_names_iff(t);
        assert forall|name: Seq<char>| missing_dhcp_names(diff).contains(name) implies exists|
            i: int,
        |
            0 <= i < diff.len() && state_flags_missing_dhcp(diff[i].1@) && diff[i].0@
                == name by {
            let m = missing_dhcp_names(diff);
            let k = choose|k: int| 0 <= k < m.len() && m[k] == name;
            if state_flags_missing_dhcp(diff[0].1@) && k == 0 {
                assert(state_flags_missing_dhcp(diff[0].1@) && diff[0].0@ == name);
            } else {
                let off: int = if state_flags_missing_dhcp(diff[0].1@) {
                    1
                } else {
                    0
                };
                assert(m[k] == missing_dhcp_names(t)[k - off]);
                assert(missing_dhcp_names(t).contains(name));
                let i = choose|i: int|
                    0 <= i < t.len() && state_flags_missing_dhcp(t[i].1@) && t[i].0@ == name;
                assert(diff[i + 1].0@ == name && state_flags_missing_dhcp(diff[i + 1].1@));
            }
        }
        assert forall|name: Seq<char>|
            (exists|i: int|
                0 <= i < diff.len() && state_flags_missing_dhcp(diff[i].1@) && diff[i].0@
                    == name) implies missing_dhcp_names(diff).contains(name) by {
            let i = choose|i: int|
                0 <= i < diff.len() && state_flags_missing_dhcp(diff[i].1@) && diff[i].0@ == name;
            let m = missing_dhcp_names(diff);
            let off: int = if state_flags_missing_dhcp(diff[0].1@) {
                1
            } else {
                0
            };
            if i == 0 {
                assert(m[0] == name);
            } else {
                assert(t[i - 1].0@ == name && state_flags_missing_dhcp(t[i - 1].1@));
                assert(missing_dhcp_names(t).contains(name));
                let k = choose|k: int|
                    0 <= k < missing_dhcp_names(t).len() && missing_dhcp_names(t)[k] == name;
                assert(m[k + off] == name);
            }
        }
    }
}

pub proof fn lemma_expecting_names_iff(es: Seq<Ethernet>)
    ensures
        forall|name: Seq<char>|
            expecting_names(es).contains(name) <==> exists|j: int|
                0 <= j < es.len() && expects_dhcp(es[j]) && es[j].name@ == name,
    decreases es.len(),
{
    if es.len() > 0 {
        let t = es.drop_first();
        lemma_expecting_names_iff(t);
        assert forall|name: Seq<char>| expecting_names(es).contains(name) implies exists|j: int|
            0 <= j < es.len() && expects_dhcp(es[j]) && es[j].name@ == name by {
            let m = expecting_names(es);
            let k = choose|k: int| 0 <= k < m.len() && m[k] == name;
            if expects_dhcp(es[0]) && k == 0 {
                assert(expects_dhcp(es[0]) && es[0].name@ == name);
            } else {
                let off: int = if expects_dhcp(es[0]) {
                    1
                } else {
                    0
                };
                assert(m[k] == expecting_names(t)[k - off]);
                assert(expecting_names(t).contains(name));
                let j = choose|j: int| 0 <= j < t.len() && expects_dhcp(t[j]) && t[j].name@ == name;
                assert(es[j + 1].name@ == name && expects_dhcp(es[j + 1]));
            }
        }
        assert forall|name: Seq<char>|
            (exists|j: int|
                0 <= j < es.len() && expects_dhcp(es[j]) && es[j].name@ == name) implies
            expecting_names(es).contains(name) by {
            let j = choose|j: int| 0 <= j < es.len() && expects_dhcp(es[j]) && es[j].name@ == name;
            let m = expecting_names(es);
            let off: int = if expects_dhcp(es[0]) {
                1
            } else {
                0
            };
            if j == 0 {
                assert(m[0] == name);
            } else {
                assert(t[j - 1].name@ == name && expects_dhcp(t[j - 1]));
                assert(expecting_names(t).contains(name));
                let k = choose|k: int|
                    0 <= k < expecting_names(t).len() && expecting_names(t)[k] == name;
                assert(m[k + off] == name);
            }
        }
    }
}

impl Netplan {
    /// The renderer invocation that materializes the persisted
    /// configuration into the live network stack.
    pub fn apply(&self) -> (cmd: Vec<String>)
        ensures
            cmd@.len() == 1,
            cmd@[0]@ == "apply"@,
    {
        let mut cmd: Vec<String> = Vec::new();
        cmd.push(String::from_str("apply"));
        cmd
    }

    /// The renderer invocation that tries the persisted configuration out,
    /// rolling back after a five-second timeout.
    pub fn tryout(&self) -> (cmd: Vec<String>)
        ensures
            cmd@.len() == 5,
            cmd@[0]@ == "try"@,
            cmd@[1]@ == "--timeout"@,
            cmd@[2]@ == "5"@,
            cmd@[3]@ == "--config-file"@,
            cmd@[4]@ == NETPLAN_CONFIG_PATH@,
    {
        let mut cmd: Vec<String> = Vec::new();
        cmd.push(String::from_str("try"));
        cmd.push(String::from_str("--timeout"));
        cmd.push(String::from_str("5"));
        cmd.push(String::from_str("--config-file"));
        cmd.push(String::from_str(NETPLAN_CONFIG_PATH));
        cmd
    }

    /// The renderer invocation whose output feeds the status readers.
    pub fn status_command(&self) -> (cmd: Vec<String>)
        ensures
            cmd@.len() == 4,
            cmd@[0]@ == "status"@,
            cmd@[1]@ == "--format"@,
            cmd@[2]@ == "yaml"@,
            cmd@[3]@ == "--all"@,
    {
        let mut cmd: Vec<String> = Vec::new();
        cmd.push(String::from_str("status"));
        cmd.push(String::from_str("--format"));
        cmd.push(String::from_str("yaml"));
        cmd.push(String::from_str("--all"));
        cmd
    }

    /// The renderer invocation whose output feeds the diff reader.
    pub fn diff_command(&self) -> (cmd: Vec<String>)
        ensures
            cmd@.len() == 4,
            cmd@[0]@ == "status"@,
            cmd@[1]@ == "--diff-only"@,
            cmd@[2]@ == "--format"@,
            cmd@[3]@ == "yaml"@,
    {
        let mut cmd: Vec<String> = Vec::new();
        cmd.push(String::from_str("status"));
        cmd.push(String::from_str("--diff-only"));
        cmd.push(String::from_str("--format"));
        cmd.push(String::from_str("yaml"));
        cmd
    }

    /// The diff'd interfaces whose fragment claims a missing DHCP address.
    pub fn interfaces_with_missing_dhcp_address(data: &DiffReport) -> (r: Vec<String>)
        ensures
            string_views(r@) == missing_dhcp_names(data@),
    {
        let mut r: Vec<String> = Vec::new();
        let mut i: usize = 0;
        assert(data@.skip(0) =~= data@);
        assert(string_views(r@) + missing_dhcp_names(data@) =~= missing_dhcp_names(data@));
        while i < data.len()
            invariant
                i <= data.len(),
                string_views(r@) + missing_dhcp_names(data@.skip(i as int)) == missing_dhcp_names(
                    data@,
                ),
            decreases data.len() - i,
        {
            proof {
                assert(data@.skip(i as int)[0] == data@[i as int]);
                assert(data@.skip(i as int).drop_first() =~= data@.skip(i + 1));
            }
            let ghost pre = string_views(r@);
            if state_flags_missing_dhcp_exec(&data[i].1) {
                r.push(data[i].0.clone());
                assert(string_views(r@) =~= pre.push(data@[i as int].0@));
                assert(string_views(r@) + missing_dhcp_names(data@.skip(i + 1))
                    =~= missing_dhcp_names(data@));
            } else {
                assert(string_views(r@) + missing_dhcp_names(data@.skip(i + 1)) =~= missing_dhcp_names(
                    data@,
                ));
            }
            i += 1;
        }
        proof {
            assert(data@.skip(data@.len() as int) =~= Seq::<(String, SystemState)>::empty());
            assert(string_views(r@) =~= missing_dhcp_names(data@));
        }
        r
    }

    /// The interfaces of the persisted document that expect a DHCP address.
    pub fn interfaces_expecting_dhcp_address(network: &Network) -> (r: Vec<String>)
        ensures
            string_views(r@) == expecting_names(network.ethernets@),
    {
        let es = network.get_ethernets();
        let mut r: Vec<String> = Vec::new();
        let mut i: usize = 0;
        assert(es@.skip(0) =~= es@);
        assert(string_views(r@) + expecting_names(es@) =~= expecting_names(es@));
        while i < es.len()
            invariant
                i <= es.len(),
                es@ == network.ethernets@,
                string_views(r@) + expecting_names(es@.skip(i as int)) == expecting_names(es@),
            decreases es.len() - i,
        {
            proof {
                assert(es@.skip(i as int)[0] == es@[i as int]);
                assert(es@.skip(i as int).drop_first() =~= es@.skip(i + 1));
            }
            let ghost pre = string_views(r@);
            let e = &es[i];
            let expecting = e.dhcp4 || (e.dhcp6 && match e.accept_ra {
                Some(b) => b,
                None => false,
            });
            if expecting {
                r.push(e.name.clone());
                assert(string_views(r@) =~= pre.push(es@[i as int].name@));
                assert(string_views(r@) + expecting_names(es@.skip(i + 1)) =~= expecting_names(
                    es@,
                ));
            } else {
                assert(string_views(r@) + expecting_names(es@.skip(i + 1)) =~= expecting_names(
                    es@,
                ));
            }
            i += 1;
        }
        proof {
            assert(es@.skip(es@.len() as int) =~= Seq::<Ethernet>::empty());
            assert(string_views(r@) =~= expecting_names(es@));
        }
        r
    }

    /// Reads one observed diff against the persisted document.
    pub fn classify_diff(diff: &DiffReport, network: &Network) -> (r: DriftClass)
        ensures
            r == classify_spec(diff@, network.ethernets@),
    {
        if diff.len() == 0 {
            return DriftClass::Converged;
        }
        let missing = Self::interfaces_with_missing_dhcp_address(diff);
        if missing.len() == 0 {
            proof {
                lemma_missing_names_iff(diff@);
                if some_missing_dhcp(diff@) {
                    let i = choose|i: int|
                        0 <= i < diff@.len() && state_flags_missing_dhcp(diff@[i].1@);
                    assert(missing_dhcp_names(diff@).contains(diff@[i].0@));
                }
            }
            return DriftClass::Unchecked;
        }
        let expecting = Self::interfaces_expecting_dhcp_address(network);
        let common = any_common_name(&missing, &expecting);
        proof {
            lemma_missing_names_iff(diff@);
            lemma_expecting_names_iff(network.ethernets@);
            assert(some_missing_dhcp(diff@)) by {
                assert(missing_dhcp_names(diff@).len() > 0);
                assert(missing_dhcp_names(diff@).contains(missing_dhcp_names(diff@)[0]));
                let i = choose|i: int|
                    0 <= i < diff@.len() && state_flags_missing_dhcp(diff@[i].1@) && diff@[i].0@
                        == missing_dhcp_names(diff@)[0];
            }
            if common {
                assert(spec_dhcp_pending(diff@, network.ethernets@)) by {
                    let (a, b) = choose|a: int, b: int|
                        0 <= a < missing@.len() && 0 <= b < expecting@.len() && string_views(
                            missing@,
                        )[a] == string_views(expecting@)[b];
                    let name = string_views(missing@)[a];
                    assert(missing_dhcp_names(diff@).contains(name));
                    assert(expecting_names(network.ethernets@).contains(name));
                    let i = choose|i: int|
                        0 <= i < diff@.len() && state_flags_missing_dhcp(diff@[i].1@) && diff@[i].0@
                            == name;
                    let j = choose|j: int|
                        0 <= j < network.ethernets@.len() && expects_dhcp(network.ethernets@[j])
                            && network.ethernets@[j].name@ == name;
                    assert(diff@[i].0@ == network.ethernets@[j].name@);
                }
                assert(some_missing_dhcp(diff@)) by {
                    let (i, j) = choose|i: int, j: int|
                        0 <= i < diff@.len() && 0 <= j < network.ethernets@.len()
                            && state_flags_missing_dhcp(diff@[i].1@) && expects_dhcp(
                            network.ethernets@[j],
                        ) && diff@[i].0@ == network.ethernets@[j].name@;
                }
            } else {
                if spec_dhcp_pending(diff@, network.ethernets@) {
                    let (i, j) = choose|i: int, j: int|
                        0 <= i < diff@.len() && 0 <= j < network.ethernets@.len()
                            && state_flags_missing_dhcp(diff@[i].1@) && expects_dhcp(
                            network.ethernets@[j],
                        ) && diff@[i].0@ == network.ethernets@[j].name@;
                    assert(missing_dhcp_names(diff@).contains(diff@[i].0@));
                    assert(expecting_names(network.ethernets@).contains(diff@[i].0@));
                    let a = choose|a: int|
                        0 <= a < string_views(missing@).len() && string_views(missing@)[a]
                            == diff@[i].0@;
                    let b = choose|b: int|
                        0 <= b < string_views(expecting@).len() && string_views(expecting@)[b]
                            == diff@[i].0@;
                    assert(false);
                }
            }
        }
        if common {
            DriftClass::DhcpPending
        } else {
            DriftClass::Unattributed
        }
    }
}

/// An interface's drift fragment claims a missing DHCP address.
pub fn state_flags_missing_dhcp_exec(state: &SystemState) -> (r: bool)
    ensures
        r == state_flags_missing_dhcp(state@),
{
    let k4 = String::from_str("missing_dhcp4_address");
    let d4 = match dict_lookup(state, &k4) {
        Some(v) => match v.as_bool() {
            Some(b) => b,
            None => false,
        },
        None => false,
    };
    if d4 {
        return true;
    }
    let k6 = String::from_str("missing_dhcp6_address");
    match dict_lookup(state, &k6) {
        Some(v) => match v.as_bool() {
            Some(b) => b,
            None => false,
        },
        None => false,
    }
}

/// Whether the two name lists share an element.
fn any_common_name(xs: &Vec<String>, ys: &Vec<String>) -> (r: bool)
    ensures
        r == exists|a: int, b: int|
            0 <= a < xs@.len() && 0 <= b < ys@.len() && string_views(xs@)[a] == string_views(ys@)[b],
{
    let mut i: usize = 0;
    while i < xs.len()
        invariant
            i <= xs.len(),
            forall|a: int, b: int|
                0 <= a < i && 0 <= b < ys@.len() ==> string_views(xs@)[a] != string_views(ys@)[b],
        decreases xs.len() - i,
    {
        if crate::nameservers::contains_string(ys, &xs[i]) {
            proof {
                let b = choose|b: int| 0 <= b < ys@.len() && string_views(ys@)[b] == xs@[i as int]@;
                assert(string_views(xs@)[i as int] == string_views(ys@)[b]);
            }
            return true;
        }
        proof {
            assert forall|b: int| 0 <= b < ys@.len() implies string_views(xs@)[i as int]
                != string_views(ys@)[b] by {
                if string_views(xs@)[i as int] == string_views(ys@)[b] {
                    assert(string_views(xs@)[i as int] == xs@[i as int]@);
                    assert(string_views(ys@).contains(xs@[i as int]@));
                }
            }
        }
        i += 1;
    }
    false
}

} // verus!

verus! {

/// The errors the save-apply-poll sequence can end in, with the exact
/// texts the service reports.
#[derive(Clone, Copy, Debug, PartialEq, Eq, Structural)]
pub enum ApplyError {
    /// Writing the persisted file failed: the mutation is not durable and
    /// must not be reported as applied.
    SaveFailed,
    /// The renderer's apply invocation failed.
    ApplyFailed,
    /// Observed drift that no missing-DHCP flag explains.
    UncheckedDifferences,
    /// The renderer's diff invocation failed.
    DiffFailed,
    /// The reload after the polling loop failed.
    LoadFailed,
}

impl ApplyError {
    pub fn message(&self) -> (s: String)
        ensures
            self is SaveFailed ==> s@ == "There was an error while saving the config."@,
            self is ApplyFailed ==> s@ == "There was a problem applying the current config."@,
            self is UncheckedDifferences ==> s@ == "There are unchecked system_state differences"@,
            self is DiffFailed ==> s@ == "The config was not applied correctly."@,
            self is LoadFailed ==> s@ == "There was an error while loading the config."@,
    {
        match *self {
            ApplyError::SaveFailed => String::from_str(
                "There was an error while saving the config.",
            ),
            ApplyError::ApplyFailed => String::from_str(
                "There was a problem applying the current config.",
            ),
            ApplyError::UncheckedDifferences => String::from_str(
                "There are unchecked system_state differences",
            ),
            ApplyError::DiffFailed => String::from_str("The config was not applied correctly."),
            ApplyError::LoadFailed => String::from_str(
                "There was an error while loading the config.",
            ),
        }
    }
}

/// The state of one bounded polling run.
pub struct Reconciler {
    pub polls_left: u32,
}

impl Reconciler {
    /// The budget never exceeds the fixed bound.
    pub open spec fn wf(self) -> bool {
        self.polls_left <= SECONDS_TO_WAIT
    }

    /// A fresh run with the full budget.
    pub fn new() -> (r: Self)
        ensures
            r.polls_left == SECONDS_TO_WAIT,
            r.wf(),
    {
        Reconciler { polls_left: SECONDS_TO_WAIT }
    }

    /// What the loop does after one observation, with `polls_after` polls
    /// remaining: converged, fatal and soft-accepted drift finish at once;
    /// pending DHCP is retried while budget remains and otherwise times
    /// out softly.
    pub open spec fn action_spec(polls_after: u32, c: DriftClass) -> ReconcileAction {
        match c {
            DriftClass::Converged => ReconcileAction::Finish(ReconcileOutcome::Converged),
            DriftClass::Unchecked => ReconcileAction::Finish(
                ReconcileOutcome::UncheckedDifferences,
            ),
            DriftClass::Unattributed => ReconcileAction::Finish(
                ReconcileOutcome::UnattributedDrift,
            ),
            DriftClass::DhcpPending => if polls_after > 0 {
                ReconcileAction::Retry
            } else {
                ReconcileAction::Finish(ReconcileOutcome::PendingTimeout)
            },
        }
    }

    /// Consumes one poll and decides from the observed diff and the
    /// persisted document.
    pub fn step(&mut self, network: &Network, diff: &DiffReport) -> (a: ReconcileAction)
        requires
            old(self).polls_left >= 1,
        ensures
            final (self).polls_left == old(self).polls_left - 1,
            a == Self::action_spec(final (self).polls_left, classify_spec(
                diff@,
                network.ethernets@,
            )),
            old(self).wf() ==> final (self).wf(),
            a is Retry ==> final (self).polls_left < old(self).polls_left && classify_spec(
                diff@,
                network.ethernets@,
            ) == DriftClass::DhcpPending,
    {
        self.polls_left = self.polls_left - 1;
        let c = Netplan::classify_diff(diff, network);
        match c {
            DriftClass::Converged => ReconcileAction::Finish(ReconcileOutcome::Converged),
            DriftClass::Unchecked => ReconcileAction::Finish(
                ReconcileOutcome::UncheckedDifferences,
            ),
            DriftClass::Unattributed => ReconcileAction::Finish(
                ReconcileOutcome::UnattributedDrift,
            ),
            DriftClass::DhcpPending => {
                if self.polls_left > 0 {
                    ReconcileAction::Retry
                } else {
                    ReconcileAction::Finish(ReconcileOutcome::PendingTimeout)
                }
            },
        }
    }
}

/// How many diffs a polling run consumes, given the budget and the
/// classifications the observations would get, in order: every decision
/// consumes one poll, and only a Retry looks at the next observation.
pub open spec fn run_polls(polls: int, cs: Seq<DriftClass>) -> int
    decreases cs.len(),
{
    if polls <= 0 || cs.len() == 0 {
        0
    } else if Reconciler::action_spec((polls - 1) as u32, cs[0]) is Retry {
        1 + run_polls(polls - 1, cs.drop_first())
    } else {
        1
    }
}

/// Bounded convergence: however the observations come out, a polling run
/// consumes at most its budget, so a fresh run polls at most
/// SECONDS_TO_WAIT times before it finishes.
pub proof fn lemma_run_bounded(polls: int, cs: Seq<DriftClass>)
    requires
        0 <= polls,
    ensures
        run_polls(polls, cs) <= polls,
    decreases cs.len(),
{
    if polls > 0 && cs.len() > 0 {
        lemma_run_bounded(polls - 1, cs.drop_first());
    }
}

/// A retry is issued exactly for drift classified as pending DHCP, and
/// only while budget remains.
pub proof fn lemma_retry_only_dhcp_pending(polls_after: u32, c: DriftClass)
    ensures
        Reconciler::action_spec(polls_after, c) is Retry <==> (c is DhcpPending && polls_after
            > 0),
{
}

/// The view of a diff report.
pub open spec fn diff_views(d: Seq<(String, SystemState)>) -> Seq<(Seq<char>, Seq<(String, YamlNode)>)> {
    Seq::new(d.len(), |i: int| (d[i].0@, d[i].1@))
}

/// The diff entries carried by the interface list of a diff-only status
/// document: interfaces with a nonempty `system_state` mapping, with its
/// entries; an empty fragment reports no drift and is left out.  None
/// marks a malformed document.
pub open spec fn interfaces_diff_spec(es: Seq<(String, YamlNode)>) -> Option<
    Seq<(Seq<char>, Seq<(String, YamlNode)>)>,
>
    decreases es.len(),
{
    if es.len() == 0 {
        Some(Seq::empty())
    } else {
        let rest = interfaces_diff_spec(es.drop_first());
        match es[0].1.spec_entries() {
            None => None,
            Some(data) => match dict_get_spec(data, "system_state"@) {
                None => rest,
                Some(ss) => match ss.spec_entries() {
                    None => None,
                    Some(sse) => if sse.len() == 0 {
                        rest
                    } else {
                        match rest {
                            None => None,
                            Some(rs) => Some(seq![(es[0].0@, sse)] + rs),
                        }
                    },
                },
            },
        }
    }
}

/// The diff of a diff-only status document: its `interfaces` mapping read
/// as above.
pub open spec fn diff_from_status_spec(doc: YamlNode) -> Option<
    Seq<(Seq<char>, Seq<(String, YamlNode)>)>,
> {
    match doc.spec_get("interfaces"@) {
        None => None,
        Some(n) => match n.spec_entries() {
            None => None,
            Some(es) => interfaces_diff_spec(es),
        },
    }
}

/// The names under the interface list of a status document, in order.
pub open spec fn interface_names_of(es: Seq<(String, YamlNode)>) -> Seq<Seq<char>> {
    Seq::new(es.len(), |i: int| es[i].0@)
}

/// The interface names a status document reports as recognized live,
/// independent of what is persisted or drifted: every name under the
/// `interfaces` mapping, duplicate-free.
pub open spec fn all_ethernets_spec(doc: YamlNode) -> Option<Seq<Seq<char>>> {
    match doc.spec_get("interfaces"@) {
        None => None,
        Some(n) => match n.spec_entries() {
            None => None,
            Some(es) => Some(crate::config_doc::texts_fold(interface_names_of(es))),
        },
    }
}

impl Netplan {
    /// The diff of a diff-only status document: per interface with a
    /// `system_state` mapping, that mapping's entries, in document order.
    pub fn get_diff_from_status(doc: YamlNode) -> (r: Result<DiffReport, StatusParseError>)
        ensures
            match r {
                Ok(d) => diff_from_status_spec(doc) == Some(diff_views(d@)),
                Err(_) => diff_from_status_spec(doc) is None,
            },
    {
        let key = String::from_str("interfaces");
        match doc {
            YamlNode::Dict(entries) => match dict_extract(entries, &key) {
                None => Err(StatusParseError),
                Some(n) => match n {
                    YamlNode::Dict(es) => diff_entries_rec(es),
                    _ => Err(StatusParseError),
                },
            },
            _ => Err(StatusParseError),
        }
    }

    /// Every interface name a status document reports, in document order
    /// and duplicate-free, independent of what is persisted or drifted.
    pub fn get_all_ethernets_from_status(doc: YamlNode) -> (r: Result<
        Vec<String>,
        StatusParseError,
    >)
        ensures
            match r {
                Ok(names) => all_ethernets_spec(doc) == Some(string_views(names@)),
                Err(_) => all_ethernets_spec(doc) is None,
            },
    {
        let key = String::from_str("interfaces");
        match doc {
            YamlNode::Dict(entries) => match dict_extract(entries, &key) {
                None => Err(StatusParseError),
                Some(n) => match n {
                    YamlNode::Dict(es) => Ok(collect_interface_names(&es)),
                    _ => Err(StatusParseError),
                },
            },
            _ => Err(StatusParseError),
        }
    }
}

/// Takes the value under the first entry with the given key out of the
/// entry list.
fn dict_extract(entries: Vec<(String, YamlNode)>, key: &String) -> (r: Option<YamlNode>)
    ensures
        match r {
            Some(n) => dict_get_spec(entries@, key@) == Some(n),
            None => dict_get_spec(entries@, key@) is None,
        },
    decreases entries@.len(),
{
    let mut entries = entries;
    if entries.len() == 0 {
        None
    } else {
        let ghost orig = entries@;
        let e = entries.remove(0);
        proof {
            assert(entries@ =~= orig.drop_first());
        }
        if e.0 == *key {
            Some(e.1)
        } else {
            dict_extract(entries, key)
        }
    }
}

/// The diff entries of the interface list, taking the fragments by value.
fn diff_entries_rec(es: Vec<(String, YamlNode)>) -> (r: Result<DiffReport, StatusParseError>)
    ensures
        match r {
            Ok(d) => interfaces_diff_spec(es@) == Some(diff_views(d@)),
            Err(_) => interfaces_diff_spec(es@) is None,
        },
    decreases es@.len(),
{
    let mut es = es;
    if es.len() == 0 {
        let d: DiffReport = Vec::new();
        assert(diff_views(d@) =~= Seq::<(Seq<char>, Seq<(String, YamlNode)>)>::empty());
        Ok(d)
    } else {
        let ghost orig = es@;
        let e = es.remove(0);
        proof {
            assert(es@ =~= orig.drop_first());
        }
        let (name, data_node) = e;
        match data_node {
            YamlNode::Dict(data) => {
                let sskey = String::from_str("system_state");
                match dict_extract(data, &sskey) {
                    None => diff_entries_rec(es),
                    Some(ssn) => match ssn {
                        YamlNode::Dict(sse) => {
                            if sse.len() == 0 {
                                diff_entries_rec(es)
                            } else {
                                match diff_entries_rec(es) {
                                    Err(er) => Err(er),
                                    Ok(mut rest) => {
                                        let ghost restview = rest@;
                                        let ghost nm = name@;
                                        let ghost ssev = sse@;
                                        rest.insert(0, (name, sse));
                                        proof {
                                            assert(rest@[0].0@ == nm && rest@[0].1@ == ssev);
                                            assert(diff_views(rest@) =~= seq![(nm, ssev)]
                                                + diff_views(restview));
                                        }
                                        Ok(rest)
                                    },
                                }
                            }
                        },
                        _ => Err(StatusParseError),
                    },
                }
            },
            _ => Err(StatusParseError),
        }
    }
}

/// The interface names, first occurrence of each.
fn collect_interface_names(es: &Vec<(String, YamlNode)>) -> (names: Vec<String>)
    ensures
        string_views(names@) == crate::config_doc::texts_fold(interface_names_of(es@)),
        crate::util::distinct(string_views(names@)),
{
    let ghost nv = interface_names_of(es@);
    let mut names: Vec<String> = Vec::new();
    let mut i: usize = 0;
    assert(string_views(names@) =~= crate::config_doc::texts_fold(nv.subrange(0, 0))) by {
        assert(nv.subrange(0, 0) =~= Seq::<Seq<char>>::empty());
    }
    while i < es.len()
        invariant
            i <= es.len(),
            nv == interface_names_of(es@),
            nv.len() == es@.len(),
            string_views(names@) == crate::config_doc::texts_fold(nv.subrange(0, i as int)),
            crate::util::distinct(string_views(names@)),
        decreases es.len() - i,
    {
        let ghost pre = string_views(names@);
        if !crate::nameservers::contains_string(&names, &es[i].0) {
            proof {
                assert(nv[i as int] == es@[i as int].0@);
                crate::util::lemma_distinct_push(pre, es@[i as int].0@);
            }
            names.push(es[i].0.clone());
            assert(string_views(names@) =~= pre.push(nv[i as int]));
        }
        proof {
            assert(nv.subrange(0, i + 1 as int).drop_last() =~= nv.subrange(0, i as int));
            assert(nv.subrange(0, i + 1 as int).last() == nv[i as int]);
            assert(nv[i as int] == es@[i as int].0@);
        }
        i += 1;
    }
    assert(nv.subrange(0, nv.len() as int) =~= nv);
    names
}

} // verus!

verus! {

/// The flag names joined with a comma and a space.
pub open spec fn join_comma(xs: Seq<Seq<char>>) -> Seq<char>
    decreases xs.len(),
{
    if xs.len() == 0 {
        Seq::empty()
    } else if xs.len() == 1 {
        xs[0]
    } else {
        xs[0] + ", "@ + join_comma(xs.drop_first())
    }
}

/// The texts of a flag list; None if an entry is not text.
pub open spec fn flags_texts(items: Seq<YamlNode>) -> Option<Seq<Seq<char>>>
    decreases items.len(),
{
    if items.len() == 0 {
        Some(Seq::empty())
    } else {
        match (items[0].spec_as_text(), flags_texts(items.drop_first())) {
            (Some(t), Some(rs)) => Some(seq![t] + rs),
            _ => None,
        }
    }
}

/// One reported address group: `<prefix><address>(<comma-joined flags>)`,
/// or the inner None when the group carries no flags and is skipped.
pub open spec fn one_address_spec(key: Seq<char>, props: YamlNode) -> Option<Option<Seq<char>>> {
    match props.spec_entries() {
        None => None,
        Some(pe) => match dict_get_spec(pe, "flags"@) {
            None => Some(None),
            Some(fl) => match fl.spec_items() {
                None => None,
                Some(items) => match flags_texts(items) {
                    None => None,
                    Some(fts) => match dict_get_spec(pe, "prefix"@) {
                        None => Some(Some(key + "("@ + join_comma(fts) + ")"@)),
                        Some(p) => match p.spec_as_text() {
                            None => None,
                            Some(pt) => Some(Some(pt + key + "("@ + join_comma(fts) + ")"@)),
                        },
                    },
                },
            },
        },
    }
}

/// The rendered address groups of one interface's address mapping.
pub open spec fn addresses_list_spec(entries: Seq<(String, YamlNode)>) -> Option<Seq<Seq<char>>>
    decreases entries.len(),
{
    if entries.len() == 0 {
        Some(Seq::empty())
    } else {
        match (one_address_spec(entries[0].0@, entries[0].1), addresses_list_spec(
            entries.drop_first(),
        )) {
            (Some(Some(t)), Some(rs)) => Some(seq![t] + rs),
            (Some(None), Some(rs)) => Some(rs),
            _ => None,
        }
    }
}

/// One interface's dynamic addresses: only ethernets with an `addresses`
/// mapping report them; the inner None marks an interface without them.
pub open spec fn iface_dyn_spec(data: YamlNode) -> Option<Option<Seq<Seq<char>>>> {
    match data.spec_get("type"@) {
        None => None,
        Some(t) => match t.spec_as_text() {
            None => None,
            Some(ts) => if ts != "ethernet"@ {
                Some(None)
            } else {
                match data.spec_get("addresses"@) {
                    None => Some(None),
                    Some(ad) => match ad.spec_entries() {
                        None => None,
                        Some(ade) => match addresses_list_spec(ade) {
                            None => None,
                            Some(lst) => Some(Some(lst)),
                        },
                    },
                }
            },
        },
    }
}

/// The dynamic addresses of all interfaces of a status document.
pub open spec fn ifaces_dyn_spec(es: Seq<(String, YamlNode)>) -> Option<
    Seq<(Seq<char>, Seq<Seq<char>>)>,
>
    decreases es.len(),
{
    if es.len() == 0 {
        Some(Seq::empty())
    } else {
        match (iface_dyn_spec(es[0].1), ifaces_dyn_spec(es.drop_first())) {
            (Some(Some(lst)), Some(rs)) => Some(seq![(es[0].0@, lst)] + rs),
            (Some(None), Some(rs)) => Some(rs),
            _ => None,
        }
    }
}

/// The dynamic addresses a full status document reports.
pub open spec fn status_dyn_spec(doc: YamlNode) -> Option<Seq<(Seq<char>, Seq<Seq<char>>)>> {
    match doc.spec_entries() {
        None => None,
        Some(es) => ifaces_dyn_spec(es),
    }
}

/// The view of a dynamic-address report.
pub open spec fn dyn_views(d: Seq<(String, Vec<String>)>) -> Seq<(Seq<char>, Seq<Seq<char>>)> {
    Seq::new(d.len(), |i: int| (d[i].0@, string_views(d[i].1@)))
}

impl Netplan {
    /// The human-readable dynamic addresses of a full status document: per
    /// ethernet with reported address groups, each flagged group rendered
    /// as `<prefix><address>(<comma-joined flags>)`.
    pub fn get_dynamic_addresses_from_netplan_status(doc: &YamlNode) -> (r: Result<
        Vec<(String, Vec<String>)>,
        StatusParseError,
    >)
        ensures
            match r {
                Ok(d) => status_dyn_spec(*doc) == Some(dyn_views(d@)),
                Err(_) => status_dyn_spec(*doc) is None,
            },
    {
        match doc.entries() {
            None => Err(StatusParseError),
            Some(es) => {
                assert(es@.skip(0) =~= es@);
                ifaces_dyn_from(es, 0)
            },
        }
    }
}

/// The texts of the flag list items[i..].
pub(crate) fn flags_texts_from(items: &Vec<YamlNode>, i: usize) -> (r: Result<Vec<String>, StatusParseError>)
    requires
        i <= items.len(),
    ensures
        match r {
            Ok(ts) => flags_texts(items@.skip(i as int)) == Some(string_views(ts@)),
            Err(_) => flags_texts(items@.skip(i as int)) is None,
        },
    decreases items.len() - i,
{
    if i == items.len() {
        let ts: Vec<String> = Vec::new();
        assert(items@.skip(i as int) =~= Seq::<YamlNode>::empty());
        assert(string_views(ts@) =~= Seq::<Seq<char>>::empty());
        Ok(ts)
    } else {
        proof {
            assert(items@.skip(i as int)[0] == items@[i as int]);
            assert(items@.skip(i as int).drop_first() =~= items@.skip(i + 1));
        }
        match items[i].as_text() {
            None => Err(StatusParseError),
            Some(s) => match flags_texts_from(items, i + 1) {
                Err(er) => Err(er),
                Ok(mut rest) => {
                    let ghost restview = rest@;
                    rest.insert(0, s.clone());
                    assert(string_views(rest@) =~= seq![items@[i as int].spec_as_text().unwrap()]
                        + string_views(restview));
                    Ok(rest)
                },
            },
        }
    }
}

/// The flag names ts[i..], joined with a comma and a space.
fn join_comma_from(ts: &Vec<String>, i: usize) -> (s: String)
    requires
        i <= ts.len(),
    ensures
        s@ == join_comma(string_views(ts@).skip(i as int)),
    decreases ts.len() - i,
{
    proof {
        assert(string_views(ts@).skip(i as int).len() == ts@.len() - i);
    }
    if i == ts.len() {
        assert(string_views(ts@).skip(i as int) =~= Seq::<Seq<char>>::empty());
        String::new()
    } else if i + 1 == ts.len() {
        assert(string_views(ts@).skip(i as int)[0] == ts@[i as int]@);
        ts[i].clone()
    } else {
        proof {
            assert(string_views(ts@).skip(i as int)[0] == ts@[i as int]@);
            assert(string_views(ts@).skip(i as int).drop_first() =~= string_views(ts@).skip(i + 1));
        }
        let mut s = ts[i].clone();
        s.append(", ");
        let rest = join_comma_from(ts, i + 1);
        s.append(rest.as_str());
        s
    }
}

/// One rendered address group, or None when it carries no flags.
fn one_address(key: &String, props: &YamlNode) -> (r: Result<Option<String>, StatusParseError>)
    ensures
        match r {
            Ok(Some(s)) => one_address_spec(key@, *props) == Some(Some(s@)),
            Ok(None) => one_address_spec(key@, *props) == Some(None::<Seq<char>>),
            Err(_) => one_address_spec(key@, *props) is None,
        },
{
    match props.entries() {
        None => Err(StatusParseError),
        Some(pe) => {
            let flkey = String::from_str("flags");
            match dict_lookup(pe, &flkey) {
                None => Ok(None),
                Some(fl) => match fl.items() {
                    None => Err(StatusParseError),
                    Some(items) => {
                        assert(items@.skip(0) =~= items@);
                        match flags_texts_from(items, 0) {
                            Err(er) => Err(er),
                            Ok(ts) => {
                                assert(string_views(ts@).skip(0) =~= string_views(ts@));
                                let joined = join_comma_from(&ts, 0);
                                let pkey = String::from_str("prefix");
                                let base: String = match dict_lookup(pe, &pkey) {
                                    None => String::new(),
                                    Some(p) => match p.as_text() {
                                        None => {
                                            return Err(StatusParseError);
                                        },
                                        Some(pt) => pt.clone(),
                                    },
                                };
                                let mut s = base;
                                s.append(key.as_str());
                                s.append("(");
                                s.append(joined.as_str());
                                s.append(")");
                                Ok(Some(s))
                            },
                        }
                    },
                },
            }
        },
    }
}

/// The rendered address groups of entries[i..] of one address mapping.
fn addresses_list_from(entries: &Vec<(String, YamlNode)>, i: usize) -> (r: Result<
    Vec<String>,
    StatusParseError,
>)
    requires
        i <= entries.len(),
    ensures
        match r {
            Ok(lst) => addresses_list_spec(entries@.skip(i as int)) == Some(string_views(lst@)),
            Err(_) => addresses_list_spec(entries@.skip(i as int)) is None,
        },
    decreases entries.len() - i,
{
    if i == entries.len() {
        let lst: Vec<String> = Vec::new();
        assert(entries@.skip(i as int) =~= Seq::<(String, YamlNode)>::empty());
        assert(string_views(lst@) =~= Seq::<Seq<char>>::empty());
        Ok(lst)
    } else {
        proof {
            assert(entries@.skip(i as int)[0] == entries@[i as int]);
            assert(entries@.skip(i as int).drop_first() =~= entries@.skip(i + 1));
        }
        let e: &(String, YamlNode) = &entries[i];
        match one_address(&e.0, &e.1) {
            Err(er) => Err(er),
            Ok(None) => addresses_list_from(entries, i + 1),
            Ok(Some(t)) => match addresses_list_from(entries, i + 1) {
                Err(er) => Err(er),
                Ok(mut rest) => {
                    let ghost restview = rest@;
                    let ghost tv = t@;
                    rest.insert(0, t);
                    assert(string_views(rest@) =~= seq![tv] + string_views(restview));
                    Ok(rest)
                },
            },
        }
    }
}

/// The dynamic addresses of the interfaces es[i..].
fn ifaces_dyn_from(es: &Vec<(String, YamlNode)>, i: usize) -> (r: Result<
    Vec<(String, Vec<String>)>,
    StatusParseError,
>)
    requires
        i <= es.len(),
    ensures
        match r {
            Ok(d) => ifaces_dyn_spec(es@.skip(i as int)) == Some(dyn_views(d@)),
            Err(_) => ifaces_dyn_spec(es@.skip(i as int)) is None,
        },
    decreases es.len() - i,
{
    if i == es.len() {
        let d: Vec<(String, Vec<String>)> = Vec::new();
        assert(es@.skip(i as int) =~= Seq::<(String, YamlNode)>::empty());
        assert(dyn_views(d@) =~= Seq::<(Seq<char>, Seq<Seq<char>>)>::empty());
        Ok(d)
    } else {
        proof {
            assert(es@.skip(i as int)[0] == es@[i as int]);
            assert(es@.skip(i as int).drop_first() =~= es@.skip(i + 1));
        }
        let e: &(String, YamlNode) = &es[i];
        let tkey = String::from_str("type");
        match e.1.get(&tkey) {
            None => Err(StatusParseError),
            Some(t) => match t.as_text() {
                None => Err(StatusParseError),
                Some(ts) => {
                    let eth_word = String::from_str("ethernet");
                    if !(*ts == eth_word) {
                        ifaces_dyn_from(es, i + 1)
                    } else {
                        let akey = String::from_str("addresses");
                        match e.1.get(&akey) {
                            None => ifaces_dyn_from(es, i + 1),
                            Some(ad) => match ad.entries() {
                                None => Err(StatusParseError),
                                Some(ade) => {
                                    assert(ade@.skip(0) =~= ade@);
                                    match addresses_list_from(ade, 0) {
                                        Err(er) => Err(er),
                                        Ok(lst) => match ifaces_dyn_from(es, i + 1) {
                                            Err(er) => Err(er),
                                            Ok(mut rest) => {
                                                let ghost restview = rest@;
                                                let ghost lv = string_views(lst@);
                                                let nm = e.0.clone();
                                                let ghost nmv = nm@;
                                                rest.insert(0, (nm, lst));
                                                assert(dyn_views(rest@) =~= seq![(nmv, lv)]
                                                    + dyn_views(restview));
                                                Ok(rest)
                                            },
                                        },
                                    }
                                },
                            },
                        }
                    }
                },
            },
        }
    }
}

} // verus!
