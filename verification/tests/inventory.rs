use ipscan::addr::{Ipv4Addr, Ipv6Addr, MacAddr};
use ipscan::capture::{Event, Source};
use ipscan::dhcp::{DhcpObservation, Lease, MsgType};
use ipscan::inventory::{is_apipa, Inventory};

const A: MacAddr = MacAddr(2, 0, 0, 0, 0, 1);
const B: MacAddr = MacAddr(2, 0, 0, 0, 0, 2);

fn ip(last: u8) -> Ipv4Addr {
    Ipv4Addr::new(10, 0, 0, last)
}

fn dhcp(mac: MacAddr, msg_type: MsgType, assigned: Option<Ipv4Addr>, hostname: Option<&str>) -> Event {
    Event::Dhcp(Box::new(DhcpObservation {
        client_mac: mac,
        msg_type,
        assigned,
        requested: None,
        hostname: hostname.map(|h| h.to_string()),
        lease_secs: Some(60),
        server: Some(ip(1)),
    }))
}

#[test]
fn owning_and_routing_are_told_apart() {
    let mut inv = Inventory::new();
    for (last, src) in [(9, Source::ArpReply), (3, Source::Gratuitous), (7, Source::Ipv4Source), (3, Source::ArpRequest)] {
        inv.apply(Event::V4 { mac: A, ip: ip(last), src });
    }
    let h = &inv.hosts[0];
    assert_eq!(h.ipv4_owned, vec![ip(3), ip(9)]);
    assert_eq!(h.ipv4_routed, vec![ip(7)]);
    assert_eq!(
        h.sources,
        vec![Source::ArpReply, Source::ArpRequest, Source::Gratuitous, Source::Ipv4Source]
    );
    assert_eq!(h.ipv4_all(), vec![ip(3), ip(7), ip(9)]);
    assert_eq!(*h.identity_ipv4(), vec![ip(3), ip(9)]);
}

#[test]
fn a_silent_host_is_known_by_its_traffic() {
    let mut inv = Inventory::new();
    inv.apply(Event::V4 { mac: A, ip: ip(7), src: Source::Ipv4Source });
    assert_eq!(*inv.hosts[0].identity_ipv4(), vec![ip(7)]);
}

#[test]
fn hosts_are_in_mac_order() {
    let mut inv = Inventory::new();
    inv.apply(Event::V4 { mac: B, ip: ip(2), src: Source::ArpReply });
    inv.apply(Event::V6 { mac: A, ip: Ipv6Addr { bits: 5 } });
    inv.apply(Event::V6 { mac: A, ip: Ipv6Addr { bits: 4 } });
    assert_eq!(inv.hosts.len(), 2);
    assert_eq!(inv.hosts[0].mac, A);
    assert_eq!(inv.hosts[0].ipv6, vec![Ipv6Addr { bits: 4 }, Ipv6Addr { bits: 5 }]);
    assert_eq!(inv.hosts[0].sources, vec![Source::Ndp]);
    assert_eq!(inv.hosts[1].mac, B);
}

#[test]
fn broadcast_and_zero_are_no_hosts() {
    let mut inv = Inventory::new();
    for mac in [MacAddr::zero(), MacAddr::broadcast()] {
        inv.apply(Event::V4 { mac, ip: ip(2), src: Source::ArpReply });
        inv.apply(Event::V6 { mac, ip: Ipv6Addr { bits: 5 } });
        inv.apply(dhcp(mac, MsgType::Ack, Some(ip(2)), None));
    }
    assert!(inv.hosts.is_empty());
}

#[test]
fn only_the_ack_grants_a_lease() {
    let mut inv = Inventory::new();
    inv.apply(dhcp(A, MsgType::Offer, Some(ip(5)), None));
    assert!(inv.hosts[0].lease.is_none());
    assert!(!inv.hosts[0].tried_dhcp);
    inv.apply(dhcp(A, MsgType::Request, None, Some("first")));
    assert!(inv.hosts[0].tried_dhcp);
    assert!(inv.hosts[0].lease.is_none());
    inv.apply(dhcp(A, MsgType::Ack, Some(ip(5)), Some("second")));
    let h = &inv.hosts[0];
    let l = h.lease.as_ref().unwrap();
    assert_eq!(l.ip, ip(5));
    assert_eq!(l.hostname.as_deref(), Some("second"));
    assert_eq!(l.lease_secs, Some(60));
    assert_eq!(l.server, Some(ip(1)));
    // The first name heard stays.
    assert_eq!(h.hostname.as_deref(), Some("first"));
    assert_eq!(h.ipv4_owned, vec![ip(5)]);
    // An ACK without an address grants nothing anew.
    inv.apply(dhcp(A, MsgType::Ack, None, None));
    assert!(inv.hosts[0].lease.is_some());
    inv.apply(dhcp(A, MsgType::Release, None, None));
    assert!(inv.hosts[0].lease.is_none());
    assert_eq!(inv.hosts[0].ipv4_owned, vec![ip(5)]);
}

#[test]
fn a_lease_waits_for_its_device() {
    let mut inv = Inventory::new();
    inv.apply(Event::V4 { mac: A, ip: ip(5), src: Source::ArpReply });
    let lease = |last: u8, name: &str| Lease {
        ip: ip(last),
        hostname: Some(name.to_string()),
        lease_secs: None,
        server: None,
    };
    inv.merge_lease_file(vec![(A, lease(5, "a")), (B, lease(6, "b")), (B, lease(7, "again"))]);
    assert!(inv.lease_file_loaded);
    assert_eq!(inv.hosts[0].hostname.as_deref(), Some("a"));
    assert!(inv.hosts[0].tried_dhcp);
    assert_eq!(inv.orphan_leases.len(), 1);
    assert_eq!(inv.orphan_leases[0].1.ip, ip(7));
    inv.apply(Event::V4 { mac: B, ip: ip(7), src: Source::ArpReply });
    assert!(inv.orphan_leases.is_empty());
    assert_eq!(inv.hosts[1].lease.as_ref().unwrap().ip, ip(7));
}

#[test]
fn link_local_addresses_are_recognised() {
    assert!(is_apipa(&Ipv4Addr::new(169, 254, 0, 1)));
    assert!(!is_apipa(&Ipv4Addr::new(169, 253, 0, 1)));
    assert!(!is_apipa(&Ipv4Addr::new(168, 254, 0, 1)));
}
