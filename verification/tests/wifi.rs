use insysin_lib::commands::wifi::{
    analisar_ipconfig, calc_broadcast, calc_network_range, cidr_to_mask, deve_aquecer_arp, diagnostico_ip,
    dispositivos_arp_linux, dispositivos_arp_macos, dispositivos_arp_windows, dns_resolv_conf, dns_resolvectl,
    dns_scutil, endereco_e_mascara_macos, find_active_iface, find_iface_in_section, gateway_linux, gateway_macos,
    ip_local_linux, ler_octetos, limpar_fornecedor, mascara_linux, montar_rede_local, ssid_linux, ssid_macos,
    ssid_windows, url_fornecedor, CamposIp,
};
use insysin_lib::models::wifi::DeviceInfo;

const IFCONFIG: &str = "lo0: flags=8049<UP,LOOPBACK,RUNNING,MULTICAST> mtu 16384
\tinet 127.0.0.1 netmask 0xff000000
en7: flags=8863<UP,BROADCAST> mtu 1500
\tether a4:83:e7:00:00:01
\tinet 192.168.1.5 netmask 0xffffff00 broadcast 192.168.1.255
";

fn dispositivo(ip: &str, mac: &str) -> DeviceInfo {
    DeviceInfo { ip: ip.to_string(), mac: mac.to_string(), vendor: None }
}

#[test]
fn faixa_e_difusao() {
    assert_eq!(calc_network_range("192.168.1.5", "255.255.255.0"), "192.168.1.0/24");
    assert_eq!(calc_network_range("10.1.2.3", "255.255.240.0"), "10.1.0.0/20");
    assert_eq!(calc_broadcast("192.168.1.5", "255.255.255.0"), "192.168.1.255");
    assert_eq!(calc_broadcast("10.1.2.3", "255.255.240.0"), "10.1.15.255");
    assert_eq!(ler_octetos("192.168.x.1"), vec![192, 168, 1]);
    assert_eq!(calc_network_range("192.168.x.1", "255.255.255.0"), "");
    assert_eq!(calc_broadcast("192.168.1.5", ""), "");
}

#[test]
fn difusao_fica_na_mesma_rede() {
    for (ip, m) in [("192.168.1.5", "255.255.255.0"), ("10.1.2.3", "255.255.240.0"), ("172.16.9.9", "255.0.0.0"), ("1.2.3", "255.0.0.0")] {
        assert_eq!(calc_network_range(&calc_broadcast(ip, m), m), calc_network_range(ip, m));
    }
}

#[test]
fn mascaras_de_prefixo() {
    assert_eq!(cidr_to_mask(0), "0.0.0.0");
    assert_eq!(cidr_to_mask(8), "255.0.0.0");
    assert_eq!(cidr_to_mask(20), "255.255.240.0");
    assert_eq!(cidr_to_mask(24), "255.255.255.0");
    assert_eq!(cidr_to_mask(31), "255.255.255.254");
    assert_eq!(cidr_to_mask(32), "255.255.255.255");
    assert_eq!(cidr_to_mask(40), "255.255.255.255");
}

#[test]
fn mascara_de_prefixo_volta_ao_prefixo() {
    for p in 0u8..=40 {
        let esperado = if p < 32 { p } else { 32 };
        assert_eq!(calc_network_range("10.20.30.40", &cidr_to_mask(p)).split('/').nth(1), Some(esperado.to_string().as_str()));
    }
}

#[test]
fn aquecer_arp_so_com_difusao_util() {
    assert!(deve_aquecer_arp("192.168.1.255"));
    assert!(!deve_aquecer_arp(""));
    assert!(!deve_aquecer_arp("0.0.0.0"));
    assert!(!deve_aquecer_arp("255.255.255.255"));
}

#[test]
fn fornecedor_por_mac() {
    assert_eq!(url_fornecedor("aa:bb:cc:dd:ee:ff"), Some("https://api.macvendors.com/AA-BB-CC-DD-EE-FF".to_string()));
    assert_eq!(url_fornecedor("a4:83:e7"), None);
    assert_eq!(url_fornecedor(""), None);
    assert_eq!(limpar_fornecedor("  Apple, Inc.\n"), Some("Apple, Inc.".to_string()));
    assert_eq!(limpar_fornecedor("  \n"), None);
}

#[test]
fn ssid_nos_tres_sistemas() {
    assert_eq!(ssid_macos("  BSSID : aa\n  SSID : MinhaRede\n"), Some("MinhaRede".to_string()));
    assert_eq!(ssid_macos("  SSID : <redacted>\n"), None);
    assert_eq!(ssid_windows("    Name : Wi-Fi\n    SSID                   : Casa\n    BSSID : aa\n"), Some("Casa".to_string()));
    assert_eq!(ssid_windows("nada\n"), None);
    assert_eq!(ssid_linux("MyWifi\n"), Some("MyWifi".to_string()));
    assert_eq!(ssid_linux("  \n"), None);
}

#[test]
fn rede_local_linux() {
    let ip = "1: lo: <LOOPBACK,UP> mtu 65536
    inet 127.0.0.1/8 scope host lo
2: eth0: <BROADCAST> mtu 1500
    inet 192.168.1.5/24 brd 192.168.1.255 scope global eth0
";
    assert_eq!(ip_local_linux(ip), "127.0.0.1/8");
    assert_eq!(ip_local_linux("    inet 10.0.0.2/16 scope global\n"), "10.0.0.2/16");
    assert_eq!(ip_local_linux(""), "");
    assert_eq!(gateway_linux("default via 192.168.1.1 dev eth0 proto dhcp\n"), "192.168.1.1");
    assert_eq!(gateway_linux("10.0.0.0/8 dev eth0\n"), "");
    assert_eq!(mascara_linux("    inet 10.0.0.2 /16 brd x\n", "10.0.0.2"), "255.255.0.0");
    assert_eq!(mascara_linux("    inet 10.0.0.2/16 brd x\n", "10.0.0.2/16"), "");
    assert_eq!(
        dns_resolv_conf("# c\nnameserver 8.8.8.8\nnameserver 1.1.1.1\nnameserver 8.8.8.8\n  nameserver   9.9.9.9  \n"),
        vec!["8.8.8.8".to_string(), "1.1.1.1".to_string(), "9.9.9.9".to_string()]
    );
    assert_eq!(
        dns_resolvectl("Global: 1.1.1.1\nLink 2 (eth0): 192.168.1.1 fe80::1 10.0.0.0/8 1.1.1.1\n"),
        vec!["1.1.1.1".to_string(), "192.168.1.1".to_string()]
    );
}

#[test]
fn arp_linux() {
    let arp = "Address                  HWtype  HWaddress           Flags Mask            Iface
192.168.1.1              ether   aa:bb:cc:dd:ee:01   C                     eth0
192.168.1.7                      (incomplete)                              eth0
192.168.1.5              ether   aa:bb:cc:dd:ee:05   C                     eth0
192.168.1.9              ether   aa:bb:cc           C                     eth0
";
    assert_eq!(dispositivos_arp_linux(arp, "192.168.1.5"), vec![dispositivo("192.168.1.1", "aa:bb:cc:dd:ee:01")]);
}

#[test]
fn arp_macos() {
    let arp = "? (192.168.1.1) at aa:bb:cc:dd:ee:1 on en0 ifscope [ethernet]
? (192.168.1.20) at a4:83:e7:12:34:56 on en0 ifscope [ethernet]
? (192.168.1.255) at ff:ff:ff:ff:ff:ff on en0 ifscope [ethernet]
? (224.0.0.251) at 1:0:5e:0:0:fb on en0 ifscope permanent [ethernet]
? (192.168.1.30) at (incomplete) on en0 ifscope [ethernet]
? (192.168.1.5) at 11:22:33:44:55:66 on en0 ifscope [ethernet]
";
    assert_eq!(dispositivos_arp_macos(arp, "192.168.1.5"), vec![dispositivo("192.168.1.20", "a4:83:e7:12:34:56")]);
}

#[test]
fn arp_windows() {
    let arp = "
Interface: 192.168.1.5 --- 0xb
  Internet Address      Physical Address      Type
  192.168.1.1           aa-bb-cc-dd-ee-01     dynamic
  192.168.1.255         ff-ff-ff-ff-ff-ff     static
  192.168.1.5           11-22-33-44-55-66     dynamic
";
    assert_eq!(
        dispositivos_arp_windows(arp, "192.168.1.5"),
        vec![dispositivo("192.168.1.1", "aa-bb-cc-dd-ee-01"), dispositivo("192.168.1.255", "ff-ff-ff-ff-ff-ff")]
    );
}

#[test]
fn rede_local_montada() {
    let r = montar_rede_local(
        "192.168.1.5".into(),
        "192.168.1.1".into(),
        "255.255.255.0".into(),
        vec!["8.8.8.8".into()],
        vec![dispositivo("192.168.1.20", "a4:83:e7:12:34:56")],
        vec![Some("Apple".into())],
    );
    assert_eq!(r.network_range, "192.168.1.0/24");
    assert_eq!(r.devices.len(), 2);
    assert_eq!(r.devices[0], dispositivo("192.168.1.1", ""));
    assert_eq!(r.devices[1].ip, "192.168.1.20");
    assert_eq!(r.devices[1].vendor, Some("Apple".to_string()));
    let s = montar_rede_local(
        "192.168.1.5".into(),
        "192.168.1.1".into(),
        "255.255.255.0".into(),
        vec![],
        vec![dispositivo("192.168.1.1", "aa:bb:cc:dd:ee:01")],
        vec![],
    );
    assert_eq!(s.devices, vec![dispositivo("192.168.1.1", "aa:bb:cc:dd:ee:01")]);
    let t = montar_rede_local("".into(), "".into(), "".into(), vec![], vec![], vec![]);
    assert!(t.devices.is_empty());
    assert_eq!(t.network_range, "");
}

#[test]
fn interface_ativa_macos() {
    assert_eq!(
        find_iface_in_section(IFCONFIG, "\tinet 192.168.1.5 netmask 0xffffff00 broadcast 192.168.1.255"),
        Some("en7".to_string())
    );
    assert_eq!(find_iface_in_section(IFCONFIG, "\tinet 127.0.0.1 netmask 0xff000000"), Some("lo0".to_string()));
    assert_eq!(find_iface_in_section(IFCONFIG, "nao existe"), None);
    assert_eq!(find_active_iface(IFCONFIG), "en7");
    assert_eq!(find_active_iface("lo0: flags\n\tinet 127.0.0.1 netmask 0xff000000\n"), "en0");
}

#[test]
fn rede_local_macos() {
    assert_eq!(endereco_e_mascara_macos(IFCONFIG), ("192.168.1.5".to_string(), "255.255.255.0".to_string()));
    assert_eq!(
        endereco_e_mascara_macos("\tinet 10.0.0.2 netmask 255.255.0.0\n"),
        ("10.0.0.2".to_string(), "255.255.0.0".to_string())
    );
    assert_eq!(endereco_e_mascara_macos(""), (String::new(), String::new()));
    assert_eq!(
        gateway_macos("Routing tables\n\nInternet:\nDestination        Gateway            Flags\ndefault            192.168.1.1        UGScg          en0\n"),
        "192.168.1.1"
    );
    assert_eq!(gateway_macos("nothing here\n"), "");
    let scutil = "DNS configuration

resolver #1
  search domain[0] : lan
  nameserver[0] : 192.168.1.1
  nameserver[1] : 8.8.8.8
  if_index : 6 (en0)

resolver #2
  nameserver[0] : 8.8.8.8
";
    assert_eq!(dns_scutil(scutil), vec!["192.168.1.1".to_string(), "8.8.8.8".to_string()]);
}

#[test]
fn rede_local_windows() {
    let s = "Windows IP Configuration

Ethernet adapter Ethernet:

   IPv4 Address. . . . . . . . . . . : 192.168.1.5
   Subnet Mask . . . . . . . . . . . : 255.255.255.0
   Default Gateway . . . . . . . . . : 192.168.1.1
   DNS Servers . . . . . . . . . . . : 8.8.8.8
                                       1.1.1.1

   NetBIOS over Tcpip. . . . . . . . : Enabled
";
    let (ip, mask, gw, dns) = analisar_ipconfig(s);
    assert_eq!(ip, "192.168.1.5");
    assert_eq!(mask, "255.255.255.0");
    assert_eq!(gw, "192.168.1.1");
    assert_eq!(dns, vec!["1.1.1.1".to_string()]);
}

#[test]
fn diagnostico_de_internet() {
    let c = CamposIp {
        ip: Some("1.2.3.4".into()),
        org: Some("ISP X".into()),
        city: Some("Recife".into()),
        country_name: Some("Brazil".into()),
        timezone: None,
        asn: Some("AS123".into()),
    };
    let d = diagnostico_ip(Some(c), None);
    assert!(d.online);
    assert_eq!(d.public_ip, "1.2.3.4");
    assert_eq!(d.isp, "ISP X");
    assert_eq!(d.org, "ISP X");
    assert_eq!(d.city, "Recife");
    assert_eq!(d.country, "Brazil");
    assert_eq!(d.timezone, "");
    assert_eq!(d.asn, "AS123");
    let r = diagnostico_ip(None, Some(Some("5.6.7.8".into())));
    assert!(r.online);
    assert_eq!(r.public_ip, "5.6.7.8");
    assert_eq!(r.isp, "");
    let off = diagnostico_ip(None, None);
    assert!(!off.online);
    assert_eq!(off.public_ip, "");
    assert!(!off.public_ip.is_empty() == off.online);
}
