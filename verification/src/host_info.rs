//! The hostname subsystem's data shape.
//!
//! Reading and writing the hostname happens through an external command,
//! which the thin shell around the library runs; the library holds only the
//! shape that is reported.
use vstd::prelude::*;

verus! {

/// The host information object served to clients.
#[derive(Clone, Copy, Debug, PartialEq, Eq, Structural, Default)]
pub struct HostInfo;

impl HostInfo {
    /// The command-line arguments that read the hostname.
    pub fn hostname_query_args() -> (args: Vec<String>)
        ensures
            args@.len() == 1,
            args@[0]@ == "hostname"@,
    {
        let mut args: Vec<String> = Vec::new();
        args.push(String::from_str("hostname"));
        args
    }
}

} // verus!
