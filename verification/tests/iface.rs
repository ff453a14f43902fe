use ipscan::addr::{Ipv4Addr, Ipv6Addr, MacAddr};
use ipscan::iface::{is_apipa_net, list_ifaces, permission_hint, resolve, IfaceAddr, Interface};
use ipscan::net::Ipv4Net;

fn net(s: &str) -> Ipv4Net {
    Ipv4Net::parse(s).unwrap()
}

fn v4(a: u8, b: u8, c: u8, d: u8, prefix_len: u8) -> IfaceAddr {
    IfaceAddr::V4 { addr: Ipv4Addr::new(a, b, c, d), prefix_len }
}

fn card(name: &str, index: u32, ips: Vec<IfaceAddr>) -> Interface {
    Interface {
        name: name.to_string(),
        index,
        mac: Some(MacAddr::new(2, 0, 0, 0, 0, index as u8)),
        up: true,
        loopback: false,
        ips,
    }
}

#[test]
fn an_interface_with_an_address_comes_first() {
    let mut lo = card("lo", 1, vec![v4(127, 0, 0, 1, 8)]);
    lo.loopback = true;
    let mut down = card("eth9", 2, vec![v4(10, 0, 0, 1, 8)]);
    down.up = false;
    let bare = card("eth0", 3, vec![]);
    let good = card(
        "eth1",
        4,
        vec![IfaceAddr::V6 { addr: Ipv6Addr { bits: (0xfe80 << 112) | 7 } }, v4(192, 168, 1, 18, 24)],
    );
    let l = resolve(&vec![lo, down, bare, good], None).unwrap();
    assert_eq!(l.name, "eth1");
    assert_eq!(l.index, 4);
    assert_eq!(l.ipv4, Some(Ipv4Addr::new(192, 168, 1, 18)));
    assert_eq!(l.net, Some(net("192.168.1.0/24")));
    assert_eq!(l.link_local, Some(Ipv6Addr { bits: (0xfe80 << 112) | 7 }));
    let again = l.clone();
    assert_eq!(again.name, "eth1");
}

#[test]
fn no_address_is_no_obstacle() {
    let all = vec![card("eth0", 3, vec![]), card("eth1", 4, vec![])];
    let l = resolve(&all, None).unwrap();
    assert_eq!(l.name, "eth0");
    assert_eq!(l.ipv4, None);
    assert_eq!(l.net, None);
    assert_eq!(l.link_local, None);
}

#[test]
fn an_automatic_address_is_no_subnet() {
    let l = resolve(&vec![card("eth0", 3, vec![v4(169, 254, 7, 7, 16)])], None).unwrap();
    assert_eq!(l.ipv4, Some(Ipv4Addr::new(169, 254, 7, 7)));
    assert_eq!(l.net, None);
    assert!(is_apipa_net(&net("169.254.0.0/16")));
    assert!(!is_apipa_net(&net("169.0.0.0/8")));
}

#[test]
fn an_interface_is_found_by_name() {
    let mut tun = card("tun0", 5, vec![]);
    tun.mac = None;
    let all = vec![card("eth0", 3, vec![]), tun];
    assert_eq!(resolve(&all, Some("eth0")).unwrap().index, 3);
    assert_eq!(
        resolve(&all, Some("tun0")).unwrap_err().message(),
        "interface tun0 has no MAC (not ethernet?)"
    );
    assert_eq!(resolve(&all, Some("wlan0")).unwrap_err().message(), "interface \"wlan0\" not found");
    assert_eq!(resolve(&vec![], None).unwrap_err().message(), "no active interface found");
}

#[test]
fn candidates_with_a_subnet_come_first() {
    let mut lo = card("lo", 1, vec![v4(127, 0, 0, 1, 8)]);
    lo.loopback = true;
    let mut down = card("aaa", 2, vec![v4(10, 0, 0, 1, 8)]);
    down.up = false;
    let all = vec![
        lo,
        down,
        card("wlan0", 3, vec![v4(192, 168, 2, 5, 24)]),
        card("eth1", 4, vec![]),
        card("eth0", 5, vec![v4(169, 254, 1, 1, 16)]),
        card("br0", 6, vec![v4(10, 1, 2, 3, 16)]),
    ];
    let list = list_ifaces(&all);
    let names: Vec<&str> = list.iter().map(|i| i.name.as_str()).collect();
    assert_eq!(names, vec!["br0", "wlan0", "eth0", "eth1"]);
    assert_eq!(list[0].net, Some(net("10.1.0.0/16")));
    assert_eq!(list[2].net, None);
}

#[test]
fn the_hint_names_the_program() {
    assert_eq!(
        permission_hint("/usr/bin/ipscan"),
        "Permission denied opening the raw socket.\nipscan needs CAP_NET_RAW. Grant it once with:\n\n    pkexec setcap cap_net_raw+ep /usr/bin/ipscan\n\nAfter that it runs as a normal user, without sudo."
    );
}

#[test]
fn candidates_with_one_name_keep_their_order() {
    let all = vec![
        card("eth0", 1, vec![v4(10, 2, 0, 1, 16)]),
        card("br0", 2, vec![]),
        card("eth0", 3, vec![v4(10, 1, 0, 1, 16)]),
    ];
    let nets: Vec<Option<Ipv4Net>> = list_ifaces(&all).iter().map(|i| i.net).collect();
    assert_eq!(nets, vec![Some(net("10.2.0.0/16")), Some(net("10.1.0.0/16")), None]);
}
