/// Test that SysStats model fields are consistent
#[test]
fn test_mem_info_consistency() {
    let mi = insysin_lib::models::hardware::MemInfo {
        total_memory: 17179869184,
        free_memory: 500000000,
        available_memory: 10000000000,
        used_memory: 12000000000,
        used_swap: 0,
        total_swap: 0,
        free_swap: 0,
        breakdown: None,
    };

    assert!(mi.total_memory > 0);
    assert!(mi.used_memory <= mi.total_memory);
    assert!(mi.free_memory <= mi.total_memory);
    assert!(mi.available_memory <= mi.total_memory);
    assert!(mi.free_swap <= mi.total_swap);
    assert!(mi.used_swap <= mi.total_swap);
}

/// Test that NetworkInterface fields are consistent
#[test]
fn test_network_interface_consistency() {
    let iface = insysin_lib::models::network::NetworkInterface {
        name: "en0".into(),
        ip_addresses: vec!["192.168.1.5".into()],
        received_bytes: 1000,
        transmitted_bytes: 500,
        received_packets: 100,
        transmitted_packets: 50,
    };

    assert!(!iface.name.is_empty());
    assert!(!iface.ip_addresses.is_empty());
    assert!(iface.received_packets <= iface.received_bytes || iface.received_bytes == 0);
}

/// Test that ConnectionStats totals are correct
#[test]
fn test_connection_stats_integrity() {
    let cs = insysin_lib::models::network::ConnectionStats {
        total: 20,
        tcp: 15,
        udp: 5,
        established: 10,
        listening: 5,
        close_wait: 1,
        time_wait: 2,
    };

    assert_eq!(cs.tcp + cs.udp, cs.total);
    assert!(cs.established <= cs.total);
    assert!(cs.listening <= cs.total);
    assert!(cs.close_wait <= cs.total);
    assert!(cs.time_wait <= cs.total);
}

/// Test that DeviceInfo validates MAC address format
#[test]
fn test_device_info_mac() {
    let device = insysin_lib::models::wifi::DeviceInfo {
        ip: "192.168.1.1".into(),
        mac: "aa:bb:cc:dd:ee:ff".into(),
        vendor: Some("Test Corp".into()),
    };

    assert!(device.mac.len() >= 17);
    assert!(!device.ip.is_empty());
}

/// Test that LocalNetworkInfo is consistent
#[test]
fn test_local_network_consistency() {
    let net = insysin_lib::models::wifi::LocalNetworkInfo {
        local_ip: "192.168.1.5".into(),
        gateway: "192.168.1.1".into(),
        subnet_mask: "255.255.255.0".into(),
        network_range: "192.168.1.0/24".into(),
        dns_servers: vec!["8.8.8.8".into()],
        devices: vec![],
    };

    assert!(!net.local_ip.is_empty());
    assert!(!net.gateway.is_empty());
    assert!(net.local_ip != "127.0.0.1");
}

/// Test that historical queries validate ordering column
#[test]
fn test_order_validation() {
    let valid = |col: &str| {
        matches!(col, "nome" | "cpu" | "memoria" | "data_hora")
    };

    assert!(valid("cpu"));
    assert!(valid("nome"));
    assert!(valid("memoria"));
    assert!(valid("data_hora"));
    assert!(!valid("id"));
    assert!(!valid("'; DROP TABLE--"));
    assert!(!valid(""));
}
