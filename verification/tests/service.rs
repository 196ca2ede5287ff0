use netplan_api::api_lib::{config_api, OpenSightOSApiLib};
use netplan_api::host_info::HostInfo;

#[test]
fn the_service_identity_is_fixed() {
    let api = config_api();
    assert_eq!(api.title, "Greenbone OpenSight Network Management API");
    assert_eq!(api.description, "API for Greenbone OpenSight Network Management Module");
    assert_eq!(api.version, "pensight-network");
    assert!(api.server_args.is_empty());
    assert!(api.args.is_empty());
    assert_eq!(api.contact.name, "Greenbone AG");
    assert_eq!(api.contact.email, "info@greenbone.net");
    assert_eq!(api.contact.url, "https://www.greenbone.net");
    assert_eq!(api.license.name, "GNU Affero General Public License v3.0 or later");
    assert_eq!(api.license.url, "https://www.gnu.org/licenses/agpl-3.0-standalone.html");
}

#[test]
fn custom_identity_is_kept() {
    let api = OpenSightOSApiLib::new(
        String::from("t"),
        String::from("d"),
        String::from("v"),
        vec![String::from("s")],
        vec![String::from("a")],
    );
    assert_eq!(api.title, "t");
    assert_eq!(api.description, "d");
    assert_eq!(api.version, "v");
    assert_eq!(api.server_args, vec![String::from("s")]);
    assert_eq!(api.args, vec![String::from("a")]);
}

#[test]
fn hostname_is_read_with_a_fixed_query() {
    assert_eq!(HostInfo::hostname_query_args(), vec![String::from("hostname")]);
}
