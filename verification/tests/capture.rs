use ipscan::addr::{Ipv4Addr, Ipv6Addr, MacAddr};
use ipscan::arp::build_request;
use ipscan::capture::{count_attempt, frame_events, handle_arp, Event, Source, STATS_EVERY};
use ipscan::dhcp::MsgType;
use ipscan::iface::Local;
use ipscan::ndp;
use pnet::packet::ethernet::EthernetPacket;
use pnet::packet::ipv4::Ipv4Packet;
use pnet::packet::udp::UdpPacket;
use pnet::packet::Packet;

const US: MacAddr = MacAddr(2, 0, 0, 0, 0, 0x18);
const DEVICE: MacAddr = MacAddr(2, 0, 0, 0, 0, 0x77);

fn ethernet(src: MacAddr, kind: u16, payload: &[u8]) -> Vec<u8> {
    let mut f = vec![0xff; 6];
    f.extend_from_slice(&[src.0, src.1, src.2, src.3, src.4, src.5]);
    f.extend_from_slice(&kind.to_be_bytes());
    f.extend_from_slice(payload);
    f
}

fn arp(oper: u16, sender: [u8; 4], target: [u8; 4]) -> Vec<u8> {
    let mut p = vec![0, 1, 8, 0, 6, 4];
    p.extend_from_slice(&oper.to_be_bytes());
    p.extend_from_slice(&[2, 0, 0, 0, 0, 0x77]);
    p.extend_from_slice(&sender);
    p.extend_from_slice(&[0; 6]);
    p.extend_from_slice(&target);
    p
}

fn ipv4(ihl: u8, proto: u8, src: [u8; 4], body: &[u8]) -> Vec<u8> {
    let header = ihl as usize * 4;
    let mut p = vec![0u8; header];
    p[0] = 0x40 | ihl;
    let total = (header + body.len()) as u16;
    p[2..4].copy_from_slice(&total.to_be_bytes());
    p[9] = proto;
    p[12..16].copy_from_slice(&src);
    p.extend_from_slice(body);
    p
}

fn udp(sp: u16, dp: u16, body: &[u8]) -> Vec<u8> {
    let mut p = Vec::new();
    p.extend_from_slice(&sp.to_be_bytes());
    p.extend_from_slice(&dp.to_be_bytes());
    p.extend_from_slice(&((8 + body.len()) as u16).to_be_bytes());
    p.extend_from_slice(&[0, 0]);
    p.extend_from_slice(body);
    p
}

fn discover() -> Vec<u8> {
    let mut p = vec![0u8; 240];
    p[0] = 1;
    p[2] = 6;
    p[28..34].copy_from_slice(&[2, 0, 0, 0, 0, 0x77]);
    p[236..240].copy_from_slice(&[99, 130, 83, 99]);
    p.extend_from_slice(&[53, 1, 1, 255]);
    p
}

fn v4(e: &Event) -> (MacAddr, Ipv4Addr, Source) {
    match e {
        Event::V4 { mac, ip, src } => (*mac, *ip, *src),
        _ => panic!("an IPv4 event was due"),
    }
}

#[test]
fn a_reply_names_its_sender() {
    let f = ethernet(DEVICE, 0x0806, &arp(2, [10, 0, 0, 7], [10, 0, 0, 1]));
    let ev = frame_events(&f, US);
    assert_eq!(ev.len(), 1);
    assert_eq!(v4(&ev[0]), (DEVICE, Ipv4Addr::new(10, 0, 0, 7), Source::ArpReply));
}

#[test]
fn a_request_names_its_sender_too() {
    let e = handle_arp(&arp(1, [10, 0, 0, 7], [10, 0, 0, 1])).unwrap();
    assert_eq!(v4(&e), (DEVICE, Ipv4Addr::new(10, 0, 0, 7), Source::ArpRequest));
    let e = handle_arp(&arp(1, [10, 0, 0, 7], [10, 0, 0, 7])).unwrap();
    assert_eq!(v4(&e), (DEVICE, Ipv4Addr::new(10, 0, 0, 7), Source::Gratuitous));
}

#[test]
fn a_probe_reveals_the_address_it_is_about_to_take() {
    let e = handle_arp(&arp(1, [0, 0, 0, 0], [10, 0, 0, 9])).unwrap();
    assert_eq!(v4(&e), (DEVICE, Ipv4Addr::new(10, 0, 0, 9), Source::Gratuitous));
    assert!(handle_arp(&arp(1, [0, 0, 0, 0], [0, 0, 0, 0])).is_none());
    assert!(handle_arp(&arp(1, [10, 0, 0, 7], [10, 0, 0, 1])[..27]).is_none());
}

#[test]
fn our_own_frames_say_nothing() {
    let local = Local { name: "eth0".to_string(), index: 2, mac: US, ipv4: None, net: None, link_local: None };
    let f = build_request(&local, Ipv4Addr::new(10, 0, 0, 1), Ipv4Addr::new(10, 0, 0, 9));
    assert!(frame_events(&f, US).is_empty());
    // Anybody else reads the request as we wrote it.
    let ev = frame_events(&f, DEVICE);
    assert_eq!(v4(&ev[0]), (US, Ipv4Addr::new(10, 0, 0, 1), Source::ArpRequest));
    let echo = ndp::build(&local, Ipv6Addr { bits: (0xfe80 << 112) | 9 }, 0);
    match &frame_events(&echo, DEVICE)[0] {
        Event::V6 { mac, ip } => {
            assert_eq!(*mac, US);
            assert_eq!(ip.bits, (0xfe80 << 112) | 9);
        }
        _ => panic!("an IPv6 event was due"),
    }
}

#[test]
fn traffic_shows_its_source_address() {
    let f = ethernet(DEVICE, 0x0800, &ipv4(5, 6, [10, 0, 0, 7], &[1, 2, 3]));
    let ev = frame_events(&f, US);
    assert_eq!(ev.len(), 1);
    assert_eq!(v4(&ev[0]), (DEVICE, Ipv4Addr::new(10, 0, 0, 7), Source::Ipv4Source));
    for src in [[0, 0, 0, 0], [255, 255, 255, 255], [224, 0, 0, 5]] {
        assert!(frame_events(&ethernet(DEVICE, 0x0800, &ipv4(5, 6, src, &[])), US).is_empty());
    }
    assert!(frame_events(&ethernet(DEVICE, 0x0800, &[0x45; 19]), US).is_empty());
}

#[test]
fn dhcp_is_read_behind_ip_options_too() {
    for ihl in [5, 7] {
        let f = ethernet(DEVICE, 0x0800, &ipv4(ihl, 17, [0, 0, 0, 0], &udp(68, 67, &discover())));
        let ev = frame_events(&f, US);
        assert_eq!(ev.len(), 1);
        match &ev[0] {
            Event::Dhcp(obs) => {
                assert_eq!(obs.client_mac, DEVICE);
                assert_eq!(obs.msg_type, MsgType::Discover);
            }
            _ => panic!("a DHCP event was due"),
        }
    }
    // A reply also shows the server as a source of traffic.
    let f = ethernet(DEVICE, 0x0800, &ipv4(5, 17, [10, 0, 0, 1], &udp(67, 68, &discover())));
    let ev = frame_events(&f, US);
    assert_eq!(ev.len(), 2);
    assert!(matches!(ev[0], Event::Dhcp(_)));
    assert_eq!(v4(&ev[1]).2, Source::Ipv4Source);
    // Other ports are other protocols.
    let f = ethernet(DEVICE, 0x0800, &ipv4(5, 17, [0, 0, 0, 0], &udp(53, 5353, &discover())));
    assert!(frame_events(&f, US).is_empty());
}

#[test]
fn frames_agree_with_pnet() {
    let f = ethernet(DEVICE, 0x0800, &ipv4(7, 17, [10, 0, 0, 1], &udp(67, 68, &discover())));
    let eth = EthernetPacket::new(&f).unwrap();
    let ip = Ipv4Packet::new(eth.payload()).unwrap();
    let u = UdpPacket::new(ip.payload()).unwrap();
    assert_eq!(u.get_source(), 67);
    assert_eq!(u.payload(), &discover()[..]);
    assert_eq!(ip.get_source().octets(), [10, 0, 0, 1]);
}

#[test]
fn ipv6_sources_are_seen() {
    let mut p = vec![0u8; 40];
    p[0] = 0x60;
    p[8] = 0xfe;
    p[9] = 0x80;
    p[23] = 5;
    match &frame_events(&ethernet(DEVICE, 0x86dd, &p), US)[0] {
        Event::V6 { mac, ip } => {
            assert_eq!(*mac, DEVICE);
            assert_eq!(*ip, Ipv6Addr { bits: (0xfe80 << 112) | 5 });
        }
        _ => panic!("an IPv6 event was due"),
    }
    p[8] = 0xff;
    assert!(frame_events(&ethernet(DEVICE, 0x86dd, &p), US).is_empty());
    assert!(frame_events(&ethernet(DEVICE, 0x86dd, &p[..39]), US).is_empty());
    assert!(frame_events(&ethernet(DEVICE, 0x88cc, &p), US).is_empty());
    assert!(frame_events(&[0; 13], US).is_empty());
}

#[test]
fn sources_have_labels() {
    let labels: Vec<&str> = [
        Source::ArpReply,
        Source::ArpRequest,
        Source::Gratuitous,
        Source::Ipv4Source,
        Source::Dhcp,
        Source::Ndp,
    ]
    .iter()
    .map(|s| s.label())
    .collect();
    assert_eq!(
        labels,
        vec!["arp-reply", "arp-request", "gratuitous-arp", "ipv4-traffic", "dhcp", "ipv6-ndp"]
    );
}

#[test]
fn drops_are_looked_at_now_and_then() {
    assert_eq!(count_attempt(0), (1, false));
    assert_eq!(count_attempt(STATS_EVERY - 2), (STATS_EVERY - 1, false));
    assert_eq!(count_attempt(STATS_EVERY - 1), (0, true));
}
