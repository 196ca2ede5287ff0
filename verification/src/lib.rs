//! Declarative network-interface configuration: a typed model of the
//! persisted document, the mutations the service accepts, and the
//! reconciliation protocol that drives the external renderer.
pub mod api_lib;
pub mod config_doc;
pub mod custom_types;
pub mod ip;
pub mod host_info;
pub mod input_models;
pub mod endpoints;
pub mod ethernet;
pub mod nameservers;
pub mod netplan;
pub mod network;
pub mod route;
pub mod util;
pub mod yaml;
