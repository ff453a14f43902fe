use ipscan::addr::{Ipv6Addr, MacAddr};
use ipscan::iface::Local;
use ipscan::ndp::{build, build_with, ping_all_nodes, ECHO_COUNT, FRAME};
use pnet::packet::ethernet::{EtherTypes, EthernetPacket};
use pnet::packet::icmpv6::echo_request::EchoRequestPacket;
use pnet::packet::icmpv6::{checksum, Icmpv6Packet, Icmpv6Types};
use pnet::packet::ip::IpNextHeaderProtocols;
use pnet::packet::ipv6::Ipv6Packet;
use pnet::packet::Packet;

const SRC: Ipv6Addr = Ipv6Addr { bits: (0xfe80 << 112) | 0x1234_5678 };

fn local(link_local: Option<Ipv6Addr>) -> Local {
    Local {
        name: "eth0".to_string(),
        index: 2,
        mac: MacAddr::new(2, 0, 0, 0, 0, 0x18),
        ipv4: None,
        net: None,
        link_local,
    }
}

#[test]
fn an_echo_is_what_pnet_reads() {
    let f = build(&local(Some(SRC)), SRC, 0x0102);
    assert_eq!(f.len(), FRAME);
    let eth = EthernetPacket::new(&f).unwrap();
    assert_eq!(eth.get_destination(), pnet::util::MacAddr::new(0x33, 0x33, 0, 0, 0, 1));
    assert_eq!(eth.get_source(), pnet::util::MacAddr::new(2, 0, 0, 0, 0, 0x18));
    assert_eq!(eth.get_ethertype(), EtherTypes::Ipv6);
    let ip = Ipv6Packet::new(eth.payload()).unwrap();
    assert_eq!(ip.get_version(), 6);
    assert_eq!(ip.get_traffic_class(), 0);
    assert_eq!(ip.get_flow_label(), 0);
    assert_eq!(ip.get_payload_length(), 16);
    assert_eq!(ip.get_next_header(), IpNextHeaderProtocols::Icmpv6);
    assert_eq!(ip.get_hop_limit(), 255);
    assert_eq!(u128::from(ip.get_source()), SRC.bits);
    assert_eq!(ip.get_destination().to_string(), "ff02::1");
    let echo = EchoRequestPacket::new(ip.payload()).unwrap();
    assert_eq!(echo.get_icmpv6_type(), Icmpv6Types::EchoRequest);
    assert_eq!(echo.get_icmpv6_code().0, 0);
    assert_eq!(echo.get_identifier(), 0x15ca);
    assert_eq!(echo.get_sequence_number(), 0x0102);
    assert_eq!(echo.payload(), b"ipscan\0\0");
    let icmp = Icmpv6Packet::new(ip.payload()).unwrap();
    assert_eq!(icmp.get_checksum(), checksum(&icmp, &ip.get_source(), &ip.get_destination()));
    assert_ne!(icmp.get_checksum(), 0);
}

#[test]
fn the_checksum_has_its_place() {
    let f = build_with(MacAddr::new(2, 0, 0, 0, 0, 0x18), SRC, 7, 0xabcd);
    assert_eq!(&f[56..58], &[0xab, 0xcd]);
    let g = build_with(MacAddr::new(2, 0, 0, 0, 0, 0x18), SRC, 7, 0);
    assert_eq!(&f[..56], &g[..56]);
    assert_eq!(&f[58..], &g[58..]);
}

#[test]
fn echoes_are_numbered() {
    let l = local(Some(SRC));
    let frames = ping_all_nodes(&l, ECHO_COUNT);
    assert_eq!(frames, vec![build(&l, SRC, 0), build(&l, SRC, 1), build(&l, SRC, 2)]);
    assert!(ping_all_nodes(&local(None), 3).is_empty());
}

#[test]
fn an_echo_checks_out_at_the_receiver() {
    for n in [0, 1, 0x0102, u16::MAX] {
        let f = build(&local(Some(SRC)), SRC, n);
        let mut sum: u64 = 58 + 16;
        // Both addresses and the packet follow one another in the frame.
        for pair in f[22..].chunks(2) {
            sum += pair[0] as u64 * 256 + pair[1] as u64;
        }
        assert_eq!(sum % 0xffff, 0, "{}", n);
    }
    let f = build(&local(Some(SRC)), SRC, 0x0102);
    assert_eq!(&f[56..58], &[0xc4, 0x75]);
}
