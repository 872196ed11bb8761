use netctl::vpn::{detect_vpn, format_bytes, interface_protocol, InterfaceProbe, WireguardProbe};

fn iface() -> InterfaceProbe {
    InterfaceProbe {
        interface: "tun0".to_string(),
        protocol: "OpenVPN/IKEv2".to_string(),
        vpn_ip: Some("10.8.0.2".to_string()),
        local_ip: Some("192.168.1.20".to_string()),
        dns_servers: vec!["10.8.0.1".to_string()],
        bytes_sent: 1_500,
        bytes_received: 2_500_000,
    }
}

fn wg() -> WireguardProbe {
    WireguardProbe {
        interface: "wg0".to_string(),
        endpoint: "203.0.113.9".to_string(),
        vpn_ip: None,
        local_ip: Some("192.168.1.20".to_string()),
        dns_servers: vec![],
    }
}

#[test]
fn a_tunnel_interface_comes_first() {
    let info = detect_vpn(Some(iface()), Some(wg()));
    assert!(info.connected);
    assert_eq!(info.interface.as_deref(), Some("tun0"));
    assert_eq!(info.protocol.as_deref(), Some("OpenVPN/IKEv2"));
    assert_eq!(info.server, None);
    assert_eq!(info.vpn_ip.as_deref(), Some("10.8.0.2"));
    assert_eq!(info.local_ip.as_deref(), Some("192.168.1.20"));
    assert_eq!(info.dns_servers, vec!["10.8.0.1"]);
    assert_eq!(info.bytes_sent, Some(1_500));
    assert_eq!(info.bytes_received, Some(2_500_000));
    assert_eq!(info.connected_since, None);
}

#[test]
fn wireguard_counts_where_no_interface_was_found() {
    let info = detect_vpn(None, Some(wg()));
    assert!(info.connected);
    assert_eq!(info.interface.as_deref(), Some("wg0"));
    assert_eq!(info.protocol.as_deref(), Some("WireGuard"));
    assert_eq!(info.server.as_deref(), Some("203.0.113.9"));
    assert_eq!(info.vpn_ip, None);
    assert_eq!(info.bytes_sent, None);
    assert_eq!(info.bytes_received, None);
}

#[test]
fn nothing_found_is_not_connected() {
    let info = detect_vpn(None, None);
    assert!(!info.connected);
    assert_eq!(info.interface, None);
    assert_eq!(info.protocol, None);
    assert!(info.dns_servers.is_empty());
    assert_eq!(info.bytes_sent, None);
}

#[test]
fn protocols_by_interface_name() {
    assert_eq!(interface_protocol("wg0"), "WireGuard");
    assert_eq!(interface_protocol("tun0"), "OpenVPN/IKEv2");
    assert_eq!(interface_protocol("utun3"), "OpenVPN/IKEv2");
    assert_eq!(interface_protocol("ppp0"), "PPTP/L2TP");
    assert_eq!(interface_protocol("tap0"), "VPN");
    assert_eq!(interface_protocol("ipsec0"), "VPN");
    assert_eq!(interface_protocol(""), "VPN");
}

#[test]
fn traffic_counts_are_shown_as_sizes() {
    assert_eq!(format_bytes(2_500_000), "2.5 MB");
    assert_eq!(format_bytes(1_500), "2 KB");
}

const LINKS: &str = "1: lo: <LOOPBACK,UP,LOWER_UP> mtu 65536 qdisc noqueue state UNKNOWN\n\
    link/loopback 00:00:00:00:00:00 brd 00:00:00:00:00:00\n\
2: eth0: <BROADCAST,MULTICAST,UP,LOWER_UP> mtu 1500 state UP\n\
3: tun0@if7: <POINTOPOINT,MULTICAST,NOARP,UP,LOWER_UP> mtu 1500 state UNKNOWN\n\
4: wg0: <POINTOPOINT,NOARP,UP,LOWER_UP> mtu 1420 state UNKNOWN\n";

#[test]
fn the_first_tunnel_link_that_is_up_is_taken() {
    assert_eq!(
        netctl::vpn::tunnel_from_links(LINKS),
        Some(("tun0".to_string(), "OpenVPN/IKEv2".to_string()))
    );
    assert_eq!(netctl::vpn::tunnel_from_links("2: eth0: <UP> mtu 1500\n"), None);
    assert_eq!(netctl::vpn::tunnel_from_links("5: wg0: <POINTOPOINT> state DOWN\n"), None);
    assert_eq!(netctl::vpn::tunnel_from_links(""), None);
    assert_eq!(
        netctl::vpn::tunnel_from_links("9: ppp0: <UP>\n"),
        Some(("ppp0".to_string(), "PPTP/L2TP".to_string()))
    );
    assert_eq!(
        netctl::vpn::tunnel_from_links("tap UP"),
        Some((String::new(), "VPN".to_string()))
    );
}

const IFCONFIG: &str = "lo0: flags=8049<UP,LOOPBACK,RUNNING,MULTICAST> mtu 16384\n\
\tinet 127.0.0.1 netmask 0xff000000\n\
en0: flags=8863<UP,BROADCAST,SMART,RUNNING,SIMPLEX,MULTICAST> mtu 1500\n\
\tinet 192.168.1.20 netmask 0xffffff00 broadcast 192.168.1.255\n\
utun0: flags=8051<UP,POINTOPOINT,RUNNING,MULTICAST> mtu 1380\n\
\tinet6 fe80::1%utun0 prefixlen 64 scopeid 0x10\n\
utun3: flags=8051<UP,POINTOPOINT,RUNNING,MULTICAST> mtu 1400\n\
\tinet 10.8.0.2 --> 10.8.0.1 netmask 0xffffff00\n";

#[test]
fn the_first_tunnel_interface_with_an_address_is_taken() {
    assert_eq!(
        netctl::vpn::tunnel_from_config(IFCONFIG),
        Some(("utun3".to_string(), "OpenVPN/IKEv2".to_string()))
    );
    assert_eq!(netctl::vpn::tunnel_from_config("en0: flags\n\tinet 1.2.3.4\n"), None);
    assert_eq!(netctl::vpn::tunnel_from_config("\tinet 1.2.3.4\n"), None);
    assert_eq!(
        netctl::vpn::tunnel_from_config("gif0: inet 1.2.3.4\n"),
        Some(("gif0".to_string(), "VPN".to_string()))
    );
}

#[test]
fn wireguard_report_gives_interface_and_far_end() {
    let out = "interface: wg0\n  public key: abc=\n  listening port: 51820\n\npeer: def=\n  endpoint: 203.0.113.9:51820\n";
    assert_eq!(
        netctl::vpn::detect_wireguard(out),
        Some(("interface".to_string(), "203.0.113.9".to_string()))
    );
    assert_eq!(netctl::vpn::detect_wireguard(""), None);
    assert_eq!(
        netctl::vpn::detect_wireguard("wg1\n"),
        Some(("wg1".to_string(), "unknown".to_string()))
    );
    assert_eq!(
        netctl::vpn::detect_wireguard(" wg2 :x\nendpoint\n"),
        Some(("wg2".to_string(), "unknown".to_string()))
    );
}

#[test]
fn interface_address_is_the_second_word_of_the_inet_line() {
    let linux = "3: tun0: <UP> mtu 1500\n    link/none\n    inet 10.8.0.2/24 scope global tun0\n    inet6 fe80::1/64 scope link\n";
    assert_eq!(netctl::vpn::get_interface_ip(linux, true), Some("10.8.0.2".to_string()));
    assert_eq!(netctl::vpn::get_interface_ip(linux, false), Some("10.8.0.2/24".to_string()));
    let mac = "utun3: flags=8051<UP> mtu 1400\n\tinet 10.8.0.2 --> 10.8.0.1 netmask 0xffffff00\n";
    assert_eq!(netctl::vpn::get_interface_ip(mac, false), Some("10.8.0.2".to_string()));
    assert_eq!(netctl::vpn::get_interface_ip("inet6 fe80::1/64\n", true), None);
    assert_eq!(netctl::vpn::get_interface_ip("", true), None);
}

#[test]
fn local_address_comes_from_the_host_name_tool_first() {
    use_local("192.168.1.20 10.8.0.2 \n", Some("172.16.0.1"), Some("192.168.1.20"));
    use_local("\n", Some("172.16.0.1"), None);
}

fn use_local(hostname: &str, ipconfig: Option<&str>, expected: Option<&str>) {
    assert_eq!(
        netctl::vpn::get_local_ip(Some(hostname), ipconfig),
        expected.map(|s| s.to_string())
    );
}

#[test]
fn local_address_falls_back_to_the_address_tool() {
    assert_eq!(netctl::vpn::get_local_ip(None, Some(" 192.168.1.20\n")), Some("192.168.1.20".to_string()));
    assert_eq!(netctl::vpn::get_local_ip(None, Some("  \n")), None);
    assert_eq!(netctl::vpn::get_local_ip(None, None), None);
}

#[test]
fn traffic_counters_of_linux_come_first() {
    assert_eq!(netctl::vpn::get_interface_stats(Some("1500\n"), Some(" 2500000 "), None), (1_500, 2_500_000));
    assert_eq!(netctl::vpn::get_interface_stats(Some("7"), None, Some("h\na b c d e f 1 h i 2\n")), (7, 0));
    assert!(!netctl::vpn::needs_traffic_listing(Some("7"), None));
    assert!(netctl::vpn::needs_traffic_listing(Some("x"), None));
    assert!(netctl::vpn::needs_traffic_listing(None, None));
}

#[test]
fn traffic_listing_of_macos_counts_where_the_counters_are_zero() {
    let listing = "Name Mtu Network Address Ipkts Ierrs Ibytes Opkts Oerrs Obytes Coll\nutun3 1400 <Link#16> utun3 10 0 2500000 9 0 1500 0\n";
    assert_eq!(netctl::vpn::get_interface_stats(Some("0"), Some("0"), Some(listing)), (1_500, 2_500_000));
    assert_eq!(netctl::vpn::get_interface_stats(None, None, Some(listing)), (1_500, 2_500_000));
    assert_eq!(netctl::vpn::get_interface_stats(None, None, Some("h\na b c d e f 12\n")), (0, 12));
    assert_eq!(netctl::vpn::get_interface_stats(None, None, Some("h\na b c d e f\n")), (0, 0));
    assert_eq!(netctl::vpn::get_interface_stats(None, None, Some("only heading\n")), (0, 0));
    assert_eq!(netctl::vpn::get_interface_stats(None, None, None), (0, 0));
}
