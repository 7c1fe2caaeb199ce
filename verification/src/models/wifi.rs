use vstd::prelude::*;

verus! {

/// A device seen in the ARP table.
#[derive(Debug, PartialEq, Eq)]
pub struct DeviceInfo {
    pub ip: String,
    pub mac: String,
    pub vendor: Option<String>,
}

/// The local network as the machine sees it.
#[derive(Debug, PartialEq, Eq)]
pub struct LocalNetworkInfo {
    pub local_ip: String,
    pub gateway: String,
    pub subnet_mask: String,
    pub network_range: String,
    pub dns_servers: Vec<String>,
    pub devices: Vec<DeviceInfo>,
}

} // verus!
