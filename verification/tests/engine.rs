use netplan_api::ethernet::Ethernet;
use netplan_api::netplan::{ApplyError, DiffReport, DriftClass, Netplan, ReconcileAction,
    ReconcileOutcome, Reconciler, SystemState};
use netplan_api::network::Network;
use netplan_api::yaml::YamlNode;

fn network_with(name: &str, dhcp4: bool) -> Network {
    let mut network = Network::new();
    let mut eth = Ethernet::new(String::from(name));
    eth.set_dhcp4(dhcp4);
    network.add_ethernet(eth);
    network
}

fn missing_dhcp4_diff(name: &str) -> DiffReport {
    let state: SystemState = vec![(
        String::from("missing_dhcp4_address"),
        YamlNode::Bool(true),
    )];
    vec![(String::from(name), state)]
}

fn unrelated_diff(name: &str) -> DiffReport {
    let state: SystemState = vec![(
        String::from("missing_static_address"),
        YamlNode::Bool(true),
    )];
    vec![(String::from(name), state)]
}

#[test]
fn renderer_invocations_are_fixed() {
    let netplan = Netplan;
    assert_eq!(netplan.apply(), vec![String::from("apply")]);
    assert_eq!(
        netplan.tryout(),
        vec![
            String::from("try"),
            String::from("--timeout"),
            String::from("5"),
            String::from("--config-file"),
            String::from("/etc/netplan/01-network-conf.yaml"),
        ]
    );
    assert_eq!(
        netplan.status_command(),
        vec![
            String::from("status"),
            String::from("--format"),
            String::from("yaml"),
            String::from("--all"),
        ]
    );
    assert_eq!(
        netplan.diff_command(),
        vec![
            String::from("status"),
            String::from("--diff-only"),
            String::from("--format"),
            String::from("yaml"),
        ]
    );
}

#[test]
fn empty_diff_classifies_as_converged() {
    let network = network_with("eth0", true);
    let diff: DiffReport = Vec::new();
    assert_eq!(Netplan::classify_diff(&diff, &network), DriftClass::Converged);
}

#[test]
fn dhcp_expected_and_missing_classifies_as_pending() {
    let network = network_with("eth0", true);
    let diff = missing_dhcp4_diff("eth0");
    assert_eq!(Netplan::classify_diff(&diff, &network), DriftClass::DhcpPending);
}

#[test]
fn unrelated_drift_classifies_as_unchecked() {
    let network = network_with("eth0", false);
    let diff = unrelated_diff("eth0");
    assert_eq!(Netplan::classify_diff(&diff, &network), DriftClass::Unchecked);
}

#[test]
fn missing_dhcp_on_an_unexpecting_interface_is_unattributed() {
    let network = network_with("eth0", false);
    let diff = missing_dhcp4_diff("eth0");
    assert_eq!(Netplan::classify_diff(&diff, &network), DriftClass::Unattributed);
}

#[test]
fn dhcp6_counts_only_with_accept_ra() {
    let mut network = Network::new();
    let mut eth = Ethernet::new(String::from("eth0"));
    eth.set_dhcp6(true);
    network.add_ethernet(eth);
    let names = Netplan::interfaces_expecting_dhcp_address(&network);
    assert!(names.is_empty());
    let mut network2 = Network::new();
    let mut eth2 = Ethernet::new(String::from("eth0"));
    eth2.set_dhcp6(true);
    eth2.set_accept_ra(Some(true));
    network2.add_ethernet(eth2);
    let names2 = Netplan::interfaces_expecting_dhcp_address(&network2);
    assert_eq!(names2, vec![String::from("eth0")]);
}

#[test]
fn dhcp_pending_drift_retries_and_clears_within_budget() {
    // Ethernet "eth0" with dhcp4 on; the first two polls report only a
    // missing DHCP address, then the diff clears.
    let network = network_with("eth0", true);
    let mut reconciler = Reconciler::new();
    let a1 = reconciler.step(&network, &missing_dhcp4_diff("eth0"));
    assert_eq!(a1, ReconcileAction::Retry);
    let a2 = reconciler.step(&network, &missing_dhcp4_diff("eth0"));
    assert_eq!(a2, ReconcileAction::Retry);
    let empty: DiffReport = Vec::new();
    let a3 = reconciler.step(&network, &empty);
    assert_eq!(a3, ReconcileAction::Finish(ReconcileOutcome::Converged));
    assert!(!ReconcileOutcome::Converged.is_fatal());
}

#[test]
fn unrelated_drift_fails_immediately_without_retry() {
    // Ethernet "eth0" with dhcp4 off; the diff reports an unrelated
    // system_state key.
    let network = network_with("eth0", false);
    let mut reconciler = Reconciler::new();
    let a = reconciler.step(&network, &unrelated_diff("eth0"));
    assert_eq!(
        a,
        ReconcileAction::Finish(ReconcileOutcome::UncheckedDifferences)
    );
    assert!(ReconcileOutcome::UncheckedDifferences.is_fatal());
}

#[test]
fn unattributed_drift_finishes_softly() {
    let network = network_with("eth0", false);
    let mut reconciler = Reconciler::new();
    let a = reconciler.step(&network, &missing_dhcp4_diff("eth0"));
    assert_eq!(a, ReconcileAction::Finish(ReconcileOutcome::UnattributedDrift));
    assert!(!ReconcileOutcome::UnattributedDrift.is_fatal());
}

#[test]
fn polling_stops_after_fifteen_rounds() {
    let network = network_with("eth0", true);
    let mut reconciler = Reconciler::new();
    let mut retries = 0;
    loop {
        let action = reconciler.step(&network, &missing_dhcp4_diff("eth0"));
        match action {
            ReconcileAction::Retry => {
                retries += 1;
                assert!(retries < 15);
            }
            ReconcileAction::Finish(outcome) => {
                assert_eq!(outcome, ReconcileOutcome::PendingTimeout);
                assert!(!outcome.is_fatal());
                break;
            }
        }
    }
    assert_eq!(retries, 14);
    assert_eq!(reconciler.polls_left, 0);
}

#[test]
fn apply_errors_carry_the_exact_messages() {
    assert_eq!(
        ApplyError::SaveFailed.message(),
        "There was an error while saving the config."
    );
    assert_eq!(
        ApplyError::ApplyFailed.message(),
        "There was a problem applying the current config."
    );
    assert_eq!(
        ApplyError::UncheckedDifferences.message(),
        "There are unchecked system_state differences"
    );
    assert_eq!(
        ApplyError::DiffFailed.message(),
        "The config was not applied correctly."
    );
    assert_eq!(
        ApplyError::LoadFailed.message(),
        "There was an error while loading the config."
    );
}

fn diff_status_doc() -> YamlNode {
    // interfaces:
    //   eth0: { system_state: { missing_dhcp4_address: true } }
    //   lo: { index: 1 }
    let eth0 = YamlNode::Dict(vec![(
        String::from("system_state"),
        YamlNode::Dict(vec![(
            String::from("missing_dhcp4_address"),
            YamlNode::Bool(true),
        )]),
    )]);
    let lo = YamlNode::Dict(vec![(String::from("index"), YamlNode::Int(1))]);
    YamlNode::Dict(vec![(
        String::from("interfaces"),
        YamlNode::Dict(vec![(String::from("eth0"), eth0), (String::from("lo"), lo)]),
    )])
}

#[test]
fn the_diff_keeps_only_interfaces_with_a_nonempty_system_state() {
    let diff = Netplan::get_diff_from_status(diff_status_doc()).unwrap();
    assert_eq!(diff.len(), 1);
    assert_eq!(diff[0].0, "eth0");
    assert_eq!(diff[0].1.len(), 1);
    assert_eq!(diff[0].1[0].0, "missing_dhcp4_address");
    let missing = Netplan::interfaces_with_missing_dhcp_address(&diff);
    assert_eq!(missing, vec![String::from("eth0")]);
}

#[test]
fn an_empty_system_state_fragment_reports_no_drift() {
    // Every fragment empty: the diff is empty and the engine converges
    // instead of failing on unexplained drift.
    let eth0 = YamlNode::Dict(vec![(
        String::from("system_state"),
        YamlNode::Dict(Vec::new()),
    )]);
    let doc = YamlNode::Dict(vec![(
        String::from("interfaces"),
        YamlNode::Dict(vec![(String::from("eth0"), eth0)]),
    )]);
    let diff = Netplan::get_diff_from_status(doc).unwrap();
    assert!(diff.is_empty());
    let network = network_with("eth0", true);
    assert_eq!(Netplan::classify_diff(&diff, &network), DriftClass::Converged);
}

#[test]
fn a_false_dhcp4_flag_does_not_hide_the_dhcp6_flag() {
    let state: SystemState = vec![
        (String::from("missing_dhcp4_address"), YamlNode::Bool(false)),
        (String::from("missing_dhcp6_address"), YamlNode::Bool(true)),
    ];
    let diff: DiffReport = vec![(String::from("eth0"), state)];
    let missing = Netplan::interfaces_with_missing_dhcp_address(&diff);
    assert_eq!(missing, vec![String::from("eth0")]);
}

#[test]
fn all_ethernets_lists_every_reported_name() {
    // Every name under the interfaces mapping counts, with or without
    // drift, independent of what is persisted.
    let names = Netplan::get_all_ethernets_from_status(diff_status_doc()).unwrap();
    assert_eq!(names, vec![String::from("eth0"), String::from("lo")]);
}

#[test]
fn a_status_document_without_interfaces_is_refused() {
    let doc = YamlNode::Dict(vec![(String::from("other"), YamlNode::Null)]);
    assert!(Netplan::get_diff_from_status(doc).is_err());
    let doc2 = YamlNode::Bool(true);
    assert!(Netplan::get_all_ethernets_from_status(doc2).is_err());
}

#[test]
fn dynamic_addresses_render_prefix_address_and_flags() {
    // eth0:
    //   type: ethernet
    //   addresses:
    //     192.168.0.5: { prefix: "24/", flags: [dhcp, dynamic] }
    //     10.0.0.9: { prefix: "8/" }        (no flags: skipped)
    // lo: { type: loopback }
    let addresses = YamlNode::Dict(vec![
        (
            String::from("192.168.0.5"),
            YamlNode::Dict(vec![
                (String::from("prefix"), YamlNode::Text(String::from("24/"))),
                (
                    String::from("flags"),
                    YamlNode::List(vec![
                        YamlNode::Text(String::from("dhcp")),
                        YamlNode::Text(String::from("dynamic")),
                    ]),
                ),
            ]),
        ),
        (
            String::from("10.0.0.9"),
            YamlNode::Dict(vec![(
                String::from("prefix"),
                YamlNode::Text(String::from("8/")),
            )]),
        ),
    ]);
    let eth0 = YamlNode::Dict(vec![
        (String::from("type"), YamlNode::Text(String::from("ethernet"))),
        (String::from("addresses"), addresses),
    ]);
    let lo = YamlNode::Dict(vec![(
        String::from("type"),
        YamlNode::Text(String::from("loopback")),
    )]);
    let doc = YamlNode::Dict(vec![(String::from("eth0"), eth0), (String::from("lo"), lo)]);
    let result = Netplan::get_dynamic_addresses_from_netplan_status(&doc).unwrap();
    assert_eq!(result.len(), 1);
    assert_eq!(result[0].0, "eth0");
    assert_eq!(result[0].1, vec![String::from("24/192.168.0.5(dhcp, dynamic)")]);
}
