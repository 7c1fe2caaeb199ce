use insysin_lib::commands::network::{
    analisar_linha_lsof, classificar_interface, compute_listening_services, compute_stats, compute_top_processes,
    montar_painel_rede, parse_connections, port_desc, resumir_trafego, TipoInterface,
};
use insysin_lib::models::network::{ConnectionStats, NetConnection, NetworkInterface};

fn conexao(pid: i32, nome: &str, proto: &str, local: &str, estado: &str) -> NetConnection {
    NetConnection {
        pid,
        process_name: nome.to_string(),
        protocol: proto.to_string(),
        local: local.to_string(),
        remote: String::new(),
        state: estado.to_string(),
        hostname: None,
    }
}

fn interface(nome: &str, rx: u64, tx: u64) -> NetworkInterface {
    NetworkInterface {
        name: nome.to_string(),
        ip_addresses: vec![],
        received_bytes: rx,
        transmitted_bytes: tx,
        received_packets: 0,
        transmitted_packets: 0,
    }
}

fn amostra() -> Vec<NetConnection> {
    vec![
        conexao(10, "nginx", "TCP", "*:443", "LISTEN"),
        conexao(10, "nginx", "TCP", "*:80", "LISTEN"),
        conexao(20, "sshd", "TCP", "*:22", "LISTEN"),
        conexao(30, "chrome", "TCP", "10.0.0.2:50000", "ESTABLISHED"),
        conexao(30, "chrome", "TCP", "10.0.0.2:50001", "ESTABLISHED"),
        conexao(30, "chrome", "UDP", "*:5353", ""),
        conexao(40, "mdns", "UDP", "*:5353", ""),
        conexao(50, "app", "TCP", "10.0.0.2:50002", "CLOSE_WAIT"),
        conexao(50, "app", "TCP", "10.0.0.2:50003", "TIME_WAIT"),
        conexao(60, "redis", "UDP", "*:6379", "LISTEN"),
    ]
}

#[test]
fn estatisticas_de_conexoes() {
    let s = compute_stats(&amostra());
    assert_eq!(
        s,
        ConnectionStats { total: 10, tcp: 7, udp: 3, established: 2, listening: 4, close_wait: 1, time_wait: 1 }
    );
    assert_eq!(s.tcp + s.udp, s.total);
    assert!(s.established + s.listening + s.close_wait + s.time_wait <= s.total);
    let vazio = compute_stats(&[]);
    assert_eq!(vazio.total, 0);
    let outro = compute_stats(&[conexao(1, "x", "ICMP", "", "")]);
    assert_eq!((outro.total, outro.tcp, outro.udp), (1, 0, 0));
}

#[test]
fn processos_com_mais_conexoes() {
    let r = compute_top_processes(&amostra());
    assert_eq!(r.len(), 6);
    assert_eq!(r[0].process_name, "chrome");
    assert_eq!((r[0].count, r[0].tcp_count, r[0].udp_count), (3, 2, 1));
    for w in r.windows(2) {
        assert!(w[0].count >= w[1].count);
    }
    let nginx = r.iter().find(|p| p.process_name == "nginx").unwrap();
    assert_eq!((nginx.count, nginx.tcp_count, nginx.udp_count), (2, 2, 0));
    let muitos: Vec<NetConnection> = (0..15).map(|i| conexao(i, &format!("p{}", i), "TCP", "", "")).collect();
    assert_eq!(compute_top_processes(&muitos).len(), 10);
}

#[test]
fn servicos_escutando_ordenados() {
    let r = compute_listening_services(&amostra());
    let descs: Vec<&str> = r.iter().map(|s| s.port_desc.as_str()).collect();
    assert_eq!(descs, vec!["HTTP", "HTTPS", "SSH"]);
    assert_eq!(r[0].process_name, "nginx");
    assert_eq!(r[0].local, "*:80");
    assert_eq!(r[2].pid, 20);
    for w in r.windows(2) {
        assert!(w[0].port_desc <= w[1].port_desc);
    }
}

#[test]
fn descricoes_de_portas() {
    assert_eq!(port_desc("*:443"), "HTTPS");
    assert_eq!(port_desc("127.0.0.1:5432"), "PostgreSQL");
    assert_eq!(port_desc("[::1]:6379"), "Redis");
    assert_eq!(port_desc("*:123"), "NTP");
    assert_eq!(port_desc("*:9999"), ":9999");
    assert_eq!(port_desc("*:http"), ":0");
    assert_eq!(port_desc(""), ":0");
}

#[test]
fn lsof_linhas() {
    let saida = "COMMAND     PID   USER   FD   TYPE             DEVICE SIZE/OFF NODE NAME
rapportd    512   user    4u  IPv4 0x1234567890abcdef      0t0  TCP *:49152 (LISTEN)
Google      901   user   23u  IPv4 0xabcdef0123456789      0t0  TCP 192.168.1.5:50000->142.250.1.1:443 (ESTABLISHED)
mDNSRespo   300   user    8u  IPv4 0x1111111111111111      0t0  UDP *:5353
curto 1 2
";
    let c = parse_connections(saida);
    assert_eq!(c.len(), 3);
    assert_eq!(c[0].pid, 512);
    assert_eq!(c[0].process_name, "rapportd");
    assert_eq!(c[0].protocol, "TCP");
    assert_eq!(c[0].local, "*:49152");
    assert_eq!(c[0].remote, "");
    assert_eq!(c[0].state, "LISTEN");
    assert_eq!(c[1].local, "192.168.1.5:50000");
    assert_eq!(c[1].remote, "142.250.1.1:443");
    assert_eq!(c[1].state, "ESTABLISHED");
    assert_eq!(c[2].protocol, "UDP");
    assert_eq!(c[2].state, "");
    assert_eq!(c[2].local, "*:5353");
    assert!(c.iter().all(|x| x.hostname.is_none()));
    assert!(parse_connections("").is_empty());
    let l: Vec<char> = "x notanumber u f t d s TCP a->b".chars().collect();
    let um = analisar_linha_lsof(&l).unwrap();
    assert_eq!((um.pid, um.local.as_str(), um.remote.as_str()), (0, "a", "b"));
}

#[test]
fn interfaces_por_tipo() {
    assert_eq!(classificar_interface("en0"), TipoInterface::Fisica);
    assert_eq!(classificar_interface("EN1"), TipoInterface::Fisica);
    assert_eq!(classificar_interface("utun3"), TipoInterface::Virtual);
    assert_eq!(classificar_interface("bridge100"), TipoInterface::Virtual);
    assert_eq!(classificar_interface("anpi0"), TipoInterface::Virtual);
    assert_eq!(classificar_interface("lo0"), TipoInterface::Especial);
    assert_eq!(classificar_interface("awdl0"), TipoInterface::Especial);
}

#[test]
fn resumo_de_trafego_particiona() {
    let ifs = vec![interface("en0", 100, 10), interface("lo0", 5, 5), interface("utun0", 7, 3), interface("en1", 1, 2)];
    let r = resumir_trafego(ifs);
    assert_eq!((r.total_received, r.total_transmitted), (113, 20));
    let nomes = |v: &Vec<NetworkInterface>| v.iter().map(|i| i.name.clone()).collect::<Vec<_>>();
    assert_eq!(nomes(&r.physical), vec!["en0", "en1"]);
    assert_eq!(nomes(&r.virtual_ifaces), vec!["utun0"]);
    assert_eq!(nomes(&r.special), vec!["lo0"]);
    assert_eq!(r.physical.len() + r.virtual_ifaces.len() + r.special.len(), 4);
}

#[test]
fn painel_de_rede_completo() {
    let p = montar_painel_rede(vec![interface("en0", 1, 2)], amostra());
    assert_eq!(p.connections.len(), 10);
    assert_eq!(p.stats.total, 10);
    assert_eq!(p.top_processes[0].process_name, "chrome");
    assert_eq!(p.listening_services.len(), 3);
    assert_eq!(p.traffic.total_received, 1);
}
