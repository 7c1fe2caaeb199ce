use vstd::prelude::*;

verus! {

/// One network interface and its traffic counters.
#[derive(Debug, PartialEq, Eq)]
pub struct NetworkInterface {
    pub name: String,
    pub ip_addresses: Vec<String>,
    pub received_bytes: u64,
    pub transmitted_bytes: u64,
    pub received_packets: u64,
    pub transmitted_packets: u64,
}

/// One open socket, as `lsof` lists it.
#[derive(Debug, PartialEq, Eq)]
pub struct NetConnection {
    pub pid: i32,
    pub process_name: String,
    pub protocol: String,
    pub local: String,
    pub remote: String,
    pub state: String,
    pub hostname: Option<String>,
}

/// Traffic totals and the interfaces, split by kind.
#[derive(Debug, PartialEq, Eq)]
pub struct TrafficSummary {
    pub total_received: u64,
    pub total_transmitted: u64,
    pub physical: Vec<NetworkInterface>,
    pub virtual_ifaces: Vec<NetworkInterface>,
    pub special: Vec<NetworkInterface>,
}

/// Counts of connections by protocol and by state.
#[derive(Debug, PartialEq, Eq)]
pub struct ConnectionStats {
    pub total: usize,
    pub tcp: usize,
    pub udp: usize,
    pub established: usize,
    pub listening: usize,
    pub close_wait: usize,
    pub time_wait: usize,
}

/// How many connections one process holds.
#[derive(Debug, PartialEq, Eq)]
pub struct ProcessConnection {
    pub process_name: String,
    pub count: usize,
    pub tcp_count: usize,
    pub udp_count: usize,
}

/// A TCP socket in the LISTEN state, with a name for its port.
#[derive(Debug, PartialEq, Eq)]
pub struct ListeningService {
    pub process_name: String,
    pub pid: i32,
    pub protocol: String,
    pub local: String,
    pub port_desc: String,
}

/// Everything the network page shows.
#[derive(Debug, PartialEq, Eq)]
pub struct NetworkDashboard {
    pub traffic: TrafficSummary,
    pub connections: Vec<NetConnection>,
    pub stats: ConnectionStats,
    pub top_processes: Vec<ProcessConnection>,
    pub listening_services: Vec<ListeningService>,
}

} // verus!
