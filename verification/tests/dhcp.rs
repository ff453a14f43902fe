use ipscan::addr::{Ipv4Addr, MacAddr};
use ipscan::dhcp::{
    parse, parse_dnsmasq, parse_isc, parse_leases_file, MsgType, Options, CHADDR, HLEN, MAGIC, OP, OPTIONS, YIADDR,
};

const MAGIC_COOKIE: [u8; 4] = [99, 130, 83, 99];

/// Builds a minimal DHCP packet: BOOTP header + cookie + the given options.
fn build(op: u8, chaddr: [u8; 6], yiaddr: [u8; 4], opts: &[u8]) -> Vec<u8> {
    let mut p = vec![0u8; OPTIONS];
    p[OP] = op;
    p[HLEN] = 6;
    p[YIADDR..YIADDR + 4].copy_from_slice(&yiaddr);
    p[CHADDR..CHADDR + 6].copy_from_slice(&chaddr);
    p[MAGIC..MAGIC + 4].copy_from_slice(&MAGIC_COOKIE);
    p.extend_from_slice(opts);
    p.push(255); // end
    p
}

#[test]
fn ack_yields_a_lease_with_ip_and_hostname() {
    let mac = [0x02, 0x00, 0x00, 0x00, 0x00, 0x11];
    // opt 53=ACK(5), opt 12=hostname "ha", opt 51=lease 7200s
    let opts = [53, 1, 5, 12, 2, b'h', b'a', 51, 4, 0, 0, 0x1c, 0x20];
    let pkt = build(2, mac, [192, 168, 1, 90], &opts);
    let obs = parse(&pkt, MacAddr::zero(), Ipv4Addr::unspecified()).expect("parse");
    assert_eq!(obs.msg_type, MsgType::Ack);
    assert_eq!(obs.client_mac, MacAddr::new(0x02, 0x00, 0x00, 0x00, 0x00, 0x11));
    assert_eq!(obs.assigned, Some(Ipv4Addr::new(192, 168, 1, 90)));
    assert_eq!(obs.hostname.as_deref(), Some("ha"));
    assert_eq!(obs.lease_secs, Some(7200));
}

#[test]
fn uses_chaddr_and_not_the_frame_mac() {
    // A relay rewrites the frame MAC; chaddr preserves the real client.
    let client = [0xaa, 0xbb, 0xcc, 0xdd, 0xee, 0xff];
    let opts = [53, 1, 3]; // REQUEST
    let pkt = build(1, client, [0, 0, 0, 0], &opts);
    let frame_mac = MacAddr::new(1, 1, 1, 1, 1, 1);
    let obs = parse(&pkt, frame_mac, Ipv4Addr::unspecified()).unwrap();
    assert_eq!(obs.client_mac, MacAddr::new(0xaa, 0xbb, 0xcc, 0xdd, 0xee, 0xff));
    assert_eq!(obs.msg_type, MsgType::Request);
}

#[test]
fn rejects_a_packet_without_the_magic_cookie() {
    let mut pkt = vec![0u8; OPTIONS + 1];
    pkt[OP] = 2;
    // no valid cookie
    assert!(parse(&pkt, MacAddr::zero(), Ipv4Addr::unspecified()).is_none());
}

#[test]
fn a_truncated_option_does_not_panic() {
    let mac = [0; 6];
    // opt 51 declares 4 bytes but only 2 are there: the walk must stop cleanly
    let opts = [51, 4, 0, 0];
    let pkt = build(2, mac, [0, 0, 0, 0], &opts);
    let obs = parse(&pkt, MacAddr::zero(), Ipv4Addr::unspecified()).unwrap();
    assert_eq!(obs.lease_secs, None);
}

#[test]
fn parse_dnsmasq_reads_mac_and_ip() {
    let text = "1787975363 02:00:00:00:00:11 192.168.1.90 sensor-a *\n\
                1787975092 02:00:00:00:00:22 192.168.1.4 * 01:02:00";
    let leases = parse_dnsmasq(text);
    assert_eq!(leases.len(), 2);
    assert_eq!(leases[0].1.ip, Ipv4Addr::new(192, 168, 1, 90));
    assert_eq!(leases[0].1.hostname.as_deref(), Some("sensor-a"));
    assert_eq!(leases[1].1.hostname, None); // "*" becomes None
}

#[test]
fn parse_isc_reads_a_lease_block() {
    let text = "lease 192.168.1.50 {\n  \
                hardware ethernet 02:00:00:00:00:33;\n  \
                client-hostname \"web-01\";\n}\n";
    let leases = parse_isc(text);
    assert_eq!(leases.len(), 1);
    assert_eq!(leases[0].0, MacAddr::new(0x02, 0x00, 0x00, 0x00, 0x00, 0x33));
    assert_eq!(leases[0].1.ip, Ipv4Addr::new(192, 168, 1, 50));
    assert_eq!(leases[0].1.hostname.as_deref(), Some("web-01"));
}

#[test]
fn message_types_have_their_numbers() {
    assert_eq!(MsgType::from_u8(1), MsgType::Discover);
    assert_eq!(MsgType::from_u8(2), MsgType::Offer);
    assert_eq!(MsgType::from_u8(3), MsgType::Request);
    assert_eq!(MsgType::from_u8(4), MsgType::Decline);
    assert_eq!(MsgType::from_u8(5), MsgType::Ack);
    assert_eq!(MsgType::from_u8(6), MsgType::Nak);
    assert_eq!(MsgType::from_u8(7), MsgType::Release);
    assert_eq!(MsgType::from_u8(8), MsgType::Inform);
    assert_eq!(MsgType::from_u8(99), MsgType::Other(99));
}

#[test]
fn options_are_walked_in_order() {
    let buf = [0, 0, 53, 1, 5, 0, 12, 2, b'h', b'i', 255, 50, 1, 1];
    let mut o = Options::new(&buf);
    assert_eq!(o.next(), Some((53, &[5u8][..])));
    assert_eq!(o.next(), Some((12, &b"hi"[..])));
    assert_eq!(o.next(), None);
}

#[test]
fn only_requests_and_replies_are_bootp() {
    for op in [0, 3, 255] {
        let pkt = build(op, [1; 6], [0; 4], &[53, 1, 1]);
        assert!(parse(&pkt, MacAddr::zero(), Ipv4Addr::unspecified()).is_none());
    }
    let mut short = build(1, [1; 6], [0; 4], &[]);
    short.truncate(OPTIONS - 1);
    assert!(parse(&short, MacAddr::zero(), Ipv4Addr::unspecified()).is_none());
}

#[test]
fn another_hardware_length_falls_back_to_the_frame() {
    let mut pkt = build(1, [9; 6], [0; 4], &[53, 1, 1, 50, 4, 10, 0, 0, 7, 54, 4, 10, 0, 0, 1]);
    pkt[HLEN] = 16;
    let frame_mac = MacAddr::new(1, 2, 3, 4, 5, 6);
    let obs = parse(&pkt, frame_mac, Ipv4Addr::unspecified()).unwrap();
    assert_eq!(obs.client_mac, frame_mac);
    assert_eq!(obs.assigned, None);
    assert_eq!(obs.requested, Some(Ipv4Addr::new(10, 0, 0, 7)));
    assert_eq!(obs.server, Some(Ipv4Addr::new(10, 0, 0, 1)));
}

#[test]
fn a_bad_hostname_is_no_hostname() {
    let broken = build(1, [1; 6], [0; 4], &[12, 2, 0xff, 0xfe]);
    assert_eq!(parse(&broken, MacAddr::zero(), Ipv4Addr::unspecified()).unwrap().hostname, None);
    let empty = build(1, [1; 6], [0; 4], &[12, 2, b'a', b'b', 12, 0]);
    assert_eq!(parse(&empty, MacAddr::zero(), Ipv4Addr::unspecified()).unwrap().hostname, None);
    let accented = build(1, [1; 6], [0; 4], &[12, 5, b'c', b'a', b'f', 0xc3, 0xa9]);
    assert_eq!(
        parse(&accented, MacAddr::zero(), Ipv4Addr::unspecified()).unwrap().hostname.as_deref(),
        Some("café")
    );
}

#[test]
fn the_kind_of_lease_file_is_recognised() {
    let dnsmasq = "\n\n1787975363 02:00:00:00:00:11 192.168.1.90 sensor-a *\nnot a lease\n";
    let leases = parse_leases_file(dnsmasq);
    assert_eq!(leases.len(), 1);
    assert_eq!(leases[0].0, MacAddr::new(2, 0, 0, 0, 0, 0x11));
    let isc = "# comment\nlease 10.0.0.9 {\nhardware ethernet 02:00:00:00:00:44;\n}\nlease 10.0.0.10 {\n}\n";
    let leases = parse_leases_file(isc);
    assert_eq!(leases.len(), 1);
    assert_eq!(leases[0].1.ip, Ipv4Addr::new(10, 0, 0, 9));
    assert_eq!(leases[0].1.hostname, None);
    assert!(parse_leases_file("").is_empty());
}

#[test]
fn an_open_block_is_no_lease() {
    let text = "lease 10.0.0.9 {\n hardware ethernet 02:00:00:00:00:44;\nlease 10.0.0.10 {\n}\n";
    assert!(parse_isc(text).is_empty());
}
