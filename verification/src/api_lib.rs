//! The service's self-description: who provides it and under which terms.
use vstd::prelude::*;

verus! {

pub struct ContactInformation {
    pub name: String,
    pub email: String,
    pub url: String,
}

pub struct LicenseInformation {
    pub name: String,
    pub url: String,
}

/// What the served API documentation says about this service.
pub struct OpenSightOSApiLib {
    pub contact: ContactInformation,
    pub license: LicenseInformation,
    pub title: String,
    pub description: String,
    pub version: String,
    pub server_args: Vec<String>,
    pub args: Vec<String>,
}

impl OpenSightOSApiLib {
    /// Carries the given identity together with the fixed vendor contact
    /// and license.
    pub fn new(
        title: String,
        description: String,
        version: String,
        server_args: Vec<String>,
        args: Vec<String>,
    ) -> (r: Self)
        ensures
            r.title == title,
            r.description == description,
            r.version == version,
            r.server_args == server_args,
            r.args == args,
            r.contact.name@ == "Greenbone AG"@,
            r.contact.email@ == "info@greenbone.net"@,
            r.contact.url@ == "https://www.greenbone.net"@,
            r.license.name@ == "GNU Affero General Public License v3.0 or later"@,
            r.license.url@ == "https://www.gnu.org/licenses/agpl-3.0-standalone.html"@,
    {
        let contact = ContactInformation {
            name: String::from_str("Greenbone AG"),
            email: String::from_str("info@greenbone.net"),
            url: String::from_str("https://www.greenbone.net"),
        };
        let license = LicenseInformation {
            name: String::from_str("GNU Affero General Public License v3.0 or later"),
            url: String::from_str("https://www.gnu.org/licenses/agpl-3.0-standalone.html"),
        };
        OpenSightOSApiLib { contact, license, title, description, version, server_args, args }
    }
}

/// The fixed identity this service starts with.
pub fn config_api() -> (r: OpenSightOSApiLib)
    ensures
        r.title@ == "Greenbone OpenSight Network Management API"@,
        r.description@ == "API for Greenbone OpenSight Network Management Module"@,
        r.version@ == "pensight-network"@,
        r.server_args@.len() == 0,
        r.args@.len() == 0,
{
    let title = String::from_str("Greenbone OpenSight Network Management API");
    let description = String::from_str("API for Greenbone OpenSight Network Management Module");
    let version = String::from_str("pensight-network");
    let server_args: Vec<String> = Vec::new();
    let args: Vec<String> = Vec::new();
    OpenSightOSApiLib::new(title, description, version, server_args, args)
}

} // verus!
