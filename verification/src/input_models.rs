//! The plain shapes in which clients hand mutations to the engine.
use crate::custom_types::{MTU, MTUV6};
use vstd::prelude::*;

verus! {

/// The query that selects how much of the interface inventory to report.
pub struct ScopeQuery {
    pub scope: String,
}

/// Device-level settings of one interface; absent fields leave the stored
/// value alone where the operation merges, and clear it where it replaces.
pub struct InputDevice {
    pub accept_ra: Option<bool>,
    pub dhcp4: Option<bool>,
    pub dhcp6: Option<bool>,
    pub mtu: Option<MTU>,
    pub ipv6_mtu: Option<MTUV6>,
}

/// A route in textual form; each field is an address literal, and `to` may
/// be the word "default".
pub struct InputRoute {
    pub to: String,
    pub from: Option<String>,
    pub via: Option<String>,
}

} // verus!
