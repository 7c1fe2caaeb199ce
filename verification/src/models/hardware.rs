use vstd::prelude::*;

verus! {

/// How macOS splits physical memory, in bytes.
#[derive(Debug, PartialEq, Eq)]
pub struct MemBreakdown {
    pub app_memory: u64,
    pub wired_memory: u64,
    pub compressed_memory: u64,
    pub cached_memory: u64,
}

/// Memory and swap figures, in bytes.
#[derive(Debug, PartialEq, Eq)]
pub struct MemInfo {
    pub total_memory: u64,
    pub free_memory: u64,
    pub available_memory: u64,
    pub used_memory: u64,
    pub used_swap: u64,
    pub total_swap: u64,
    pub free_swap: u64,
    pub breakdown: Option<MemBreakdown>,
}

/// Disk traffic and space summed over all disks, in bytes.
#[derive(Debug, PartialEq, Eq)]
pub struct DiskUsage {
    pub read_bytes: u64,
    pub write_bytes: u64,
    pub total_bytes: u64,
    pub available_bytes: u64,
}

/// Network traffic summed over all interfaces, in bytes.
#[derive(Debug, PartialEq, Eq)]
pub struct NetworkUsage {
    pub received_bytes: u64,
    pub transmitted_bytes: u64,
}

/// Static facts about the machine.
#[derive(Debug, PartialEq, Eq)]
pub struct SystemInfo {
    pub hostname: String,
    pub os_name: String,
    pub os_version: String,
    pub kernel_version: String,
    pub uptime_secs: u64,
    pub cpu_brand: String,
    pub cpu_cores: u32,
    pub physical_cores: u32,
    pub performance_cores: u32,
    pub efficiency_cores: u32,
    pub hyperthreading: bool,
    pub total_processes: usize,
}

} // verus!
