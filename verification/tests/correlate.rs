use ipscan::addr::{Ipv4Addr, Ipv6Addr, MacAddr};
use ipscan::capture::{Event, Source};
use ipscan::correlate::{analyze, duplicate_ips, is_private, Finding, Flag, Severity};
use ipscan::dhcp::{DhcpObservation, Lease, MsgType};
use ipscan::inventory::Inventory;
use ipscan::net::Ipv4Net;
use ipscan::oui::OuiDb;

fn expected() -> Vec<Ipv4Net> {
    vec![Ipv4Net::parse("192.168.1.0/24").unwrap()]
}

fn find<'a>(fs: &'a [Finding], mac: &str) -> &'a Finding {
    fs.iter().find(|f| f.mac == mac).expect("finding for mac")
}

fn has(f: &Finding, code: &str) -> bool {
    f.flags.iter().any(|fl| fl.code() == code)
}

fn lease(ip: Ipv4Addr) -> Lease {
    Lease { ip, hostname: None, lease_secs: None, server: None }
}

#[test]
fn ip_outside_the_subnet_is_critical() {
    let oui = OuiDb::load(None);
    let mut inv = Inventory::new();
    let mac = MacAddr::new(0xca, 0x68, 0xac, 0x1a, 0xc7, 0xf7);
    inv.apply(Event::V4 { mac, ip: Ipv4Addr::new(10, 37, 129, 88), src: Source::ArpReply });

    let fs = analyze(&inv, &expected(), &oui);
    let f = find(&fs, &mac.to_string());
    assert!(has(f, "OUTSIDE_SUBNET"));
    assert_eq!(f.severity, Severity::Critical);
}

#[test]
fn ip_inside_the_subnet_does_not_fire() {
    let oui = OuiDb::load(None);
    let mut inv = Inventory::new();
    let mac = MacAddr::new(0xf0, 0xda, 0x5e, 0x54, 0xfc, 0xee);
    inv.apply(Event::V4 { mac, ip: Ipv4Addr::new(192, 168, 1, 24), src: Source::ArpReply });

    let fs = analyze(&inv, &expected(), &oui);
    let f = find(&fs, &mac.to_string());
    assert!(!has(f, "OUTSIDE_SUBNET"));
    // With NO lease source in the session, "I saw no lease" proves nothing:
    // it would accuse the whole network on missing data.
    assert!(!has(f, "NO_LEASE"));
}

#[test]
fn no_lease_needs_a_lease_file() {
    let oui = OuiDb::load(None);
    let mut inv = Inventory::new();
    let silent = MacAddr::new(0xf0, 0xda, 0x5e, 0x54, 0xfc, 0xee);
    let leased = MacAddr::new(0xf0, 0xda, 0x5e, 0x54, 0xfc, 0xef);
    inv.apply(Event::V4 { mac: silent, ip: Ipv4Addr::new(192, 168, 1, 24), src: Source::ArpReply });
    inv.apply(Event::V4 { mac: leased, ip: Ipv4Addr::new(192, 168, 1, 25), src: Source::ArpReply });
    // A loaded lease file is the complete picture, so from here on the
    // absence of a lease genuinely means something.
    inv.merge_lease_file(vec![(leased, lease(Ipv4Addr::new(192, 168, 1, 25)))]);

    let fs = analyze(&inv, &expected(), &oui);
    assert!(has(find(&fs, &silent.to_string()), "NO_LEASE"));
    assert!(!has(find(&fs, &leased.to_string()), "NO_LEASE"));
}

#[test]
fn a_sniffed_dhcpack_alone_is_not_a_baseline() {
    // Exactly one DHCPACK was captured, a machine's own renewal: one ACK proves
    // a server exists, not that host X went without a lease.
    let oui = OuiDb::load(None);
    let mut inv = Inventory::new();
    let silent = MacAddr::new(0xf0, 0xda, 0x5e, 0x54, 0xfc, 0xee);
    let renewing = MacAddr::new(0xf0, 0xda, 0x5e, 0x54, 0xfc, 0xef);
    inv.apply(Event::V4 { mac: silent, ip: Ipv4Addr::new(192, 168, 1, 24), src: Source::ArpReply });
    inv.apply(Event::Dhcp(Box::new(DhcpObservation {
        client_mac: renewing,
        msg_type: MsgType::Ack,
        assigned: Some(Ipv4Addr::new(192, 168, 1, 25)),
        requested: None,
        hostname: None,
        lease_secs: None,
        server: Some(Ipv4Addr::new(192, 168, 1, 1)),
    })));

    let fs = analyze(&inv, &expected(), &oui);
    // The ACK was recorded as a lease for its own host...
    assert_eq!(find(&fs, &renewing.to_string()).lease.as_deref(), Some("192.168.1.25"));
    // ...but it must not turn every other host into a NO_LEASE finding.
    assert!(!has(find(&fs, &silent.to_string()), "NO_LEASE"));
}

#[test]
fn l2_only_when_there_is_just_ipv6() {
    let oui = OuiDb::load(None);
    let mut inv = Inventory::new();
    let mac = MacAddr::new(0xfc, 0x52, 0xce, 0x81, 0xba, 0x2d);
    let ip = format!("{}/128", "fe80::fe52:ceff:fe81:ba2d").parse::<ipnet::Ipv6Net>().unwrap().addr();
    inv.apply(Event::V6 { mac, ip: Ipv6Addr { bits: u128::from(ip) } });

    let fs = analyze(&inv, &expected(), &oui);
    let f = find(&fs, &mac.to_string());
    assert!(has(f, "L2_ONLY"));
    assert_eq!(f.severity, Severity::Critical);
    assert_eq!(f.ipv6, vec!["fe80::fe52:ceff:fe81:ba2d".to_string()]);
}

#[test]
fn duplicate_ip_between_two_macs() {
    let oui = OuiDb::load(None);
    let mut inv = Inventory::new();
    let a = MacAddr::new(1, 1, 1, 1, 1, 1);
    let b = MacAddr::new(2, 2, 2, 2, 2, 2);
    let ip = Ipv4Addr::new(192, 168, 1, 50);
    inv.apply(Event::V4 { mac: a, ip, src: Source::ArpReply });
    inv.apply(Event::V4 { mac: b, ip, src: Source::ArpReply });

    let fs = analyze(&inv, &expected(), &oui);
    assert!(has(find(&fs, &a.to_string()), "DUPLICATE_IP"));
    assert!(has(find(&fs, &b.to_string()), "DUPLICATE_IP"));
}

#[test]
fn public_ip_on_the_gateway_is_not_outside_the_subnet() {
    // The gateway routes traffic: public IPs show up as the source on its
    // MAC. That must NOT be reported as a static IP outside the range.
    let oui = OuiDb::load(None);
    let mut inv = Inventory::new();
    let gw = MacAddr::new(0xbc, 0x24, 0x11, 0xa8, 0xaf, 0x41);
    inv.apply(Event::V4 { mac: gw, ip: Ipv4Addr::new(192, 168, 1, 1), src: Source::ArpReply });
    inv.apply(Event::V4 { mac: gw, ip: Ipv4Addr::new(1, 1, 1, 1), src: Source::Ipv4Source });
    inv.apply(Event::V4 { mac: gw, ip: Ipv4Addr::new(34, 149, 66, 165), src: Source::Ipv4Source });

    let fs = analyze(&inv, &expected(), &oui);
    let f = find(&fs, &gw.to_string());
    assert!(!has(f, "OUTSIDE_SUBNET"), "routed public IP must not raise an alert");
}

#[test]
fn private_ip_outside_the_range_still_fires() {
    // But a PRIVATE address outside the range is exactly the target.
    let oui = OuiDb::load(None);
    let mut inv = Inventory::new();
    let mac = MacAddr::new(0xca, 0x68, 0xac, 0x1a, 0xc7, 0xf7);
    inv.apply(Event::V4 { mac, ip: Ipv4Addr::new(10, 37, 129, 88), src: Source::Ipv4Source });
    let fs = analyze(&inv, &expected(), &oui);
    let f = find(&fs, &mac.to_string());
    assert!(has(f, "OUTSIDE_SUBNET"));
}

#[test]
fn apipa_is_flagged_and_not_confused_with_outside_subnet() {
    let oui = OuiDb::load(None);
    let mut inv = Inventory::new();
    let mac = MacAddr::new(3, 3, 3, 3, 3, 3);
    inv.apply(Event::V4 { mac, ip: Ipv4Addr::new(169, 254, 5, 9), src: Source::ArpReply });

    let fs = analyze(&inv, &expected(), &oui);
    let f = find(&fs, &mac.to_string());
    assert!(has(f, "APIPA"));
    // 169.254 must not be treated as "outside the subnet": it is a different thing
    assert!(!has(f, "OUTSIDE_SUBNET"));
}

#[test]
fn ordering_puts_critical_before_high() {
    let oui = OuiDb::load(None);
    let mut inv = Inventory::new();
    let high = MacAddr::new(0xf0, 0xda, 0x5e, 0, 0, 1);
    let critical = MacAddr::new(0xca, 0x68, 0xac, 0, 0, 2);
    inv.apply(Event::V4 { mac: high, ip: Ipv4Addr::new(192, 168, 1, 30), src: Source::ArpReply });
    inv.apply(Event::V4 { mac: critical, ip: Ipv4Addr::new(10, 1, 1, 1), src: Source::ArpReply });

    let fs = analyze(&inv, &expected(), &oui);
    assert_eq!(fs[0].mac, critical.to_string(), "critical must come first");
}

#[test]
fn equal_severity_goes_by_mac() {
    let oui = OuiDb::load(None);
    let mut inv = Inventory::new();
    for last in [9u8, 1, 5] {
        inv.apply(Event::V4 {
            mac: MacAddr::new(2, 0, 0, 0, 0, last),
            ip: Ipv4Addr::new(192, 168, 1, last),
            src: Source::ArpReply,
        });
    }
    let fs = analyze(&inv, &expected(), &oui);
    let macs: Vec<&str> = fs.iter().map(|f| f.mac.as_str()).collect();
    assert_eq!(macs, vec!["02:00:00:00:00:01", "02:00:00:00:00:05", "02:00:00:00:00:09"]);
}

#[test]
fn a_device_that_ignores_its_lease_is_flagged() {
    let oui = OuiDb::load(None);
    let mut inv = Inventory::new();
    let mac = MacAddr::new(4, 4, 4, 4, 4, 4);
    inv.apply(Event::V4 { mac, ip: Ipv4Addr::new(192, 168, 1, 60), src: Source::ArpReply });
    inv.merge_lease_file(vec![(mac, lease(Ipv4Addr::new(192, 168, 1, 61)))]);
    let fs = analyze(&inv, &expected(), &oui);
    let f = find(&fs, "04:04:04:04:04:04");
    assert!(has(f, "LEASE_MISMATCH"));
    assert_eq!(f.severity, Severity::High);
    assert_eq!(
        f.flags[0].explain(),
        "DHCP handed out 192.168.1.61 but the device uses 192.168.1.60"
    );
}

#[test]
fn a_lease_without_a_device_is_orphaned() {
    let oui = OuiDb::load(None);
    let mut inv = Inventory::new();
    let mac = MacAddr::new(0x52, 0x54, 0, 1, 2, 3);
    inv.merge_lease_file(vec![(mac, lease(Ipv4Addr::new(192, 168, 1, 70)))]);
    let fs = analyze(&inv, &expected(), &oui);
    assert_eq!(fs.len(), 1);
    assert!(has(&fs[0], "ORPHAN_LEASE"));
    assert_eq!(fs[0].severity, Severity::Info);
    assert_eq!(fs[0].sources, vec!["lease-file".to_string()]);
    assert_eq!(fs[0].vendor.as_deref(), Some("QEMU/KVM (VM)"));
    assert!(fs[0].locally_administered);
    // As soon as the device shows up, the lease is its own.
    inv.apply(Event::V4 { mac, ip: Ipv4Addr::new(192, 168, 1, 70), src: Source::ArpReply });
    let fs = analyze(&inv, &expected(), &oui);
    assert_eq!(fs.len(), 1);
    assert!(fs[0].flags.is_empty());
    assert_eq!(fs[0].lease.as_deref(), Some("192.168.1.70"));
}

#[test]
fn carrier_grade_addresses_count_as_private() {
    assert!(is_private(&Ipv4Addr::new(100, 64, 0, 1)));
    assert!(is_private(&Ipv4Addr::new(100, 127, 255, 255)));
    assert!(!is_private(&Ipv4Addr::new(100, 128, 0, 0)));
    assert!(!is_private(&Ipv4Addr::new(100, 63, 255, 255)));
    assert!(is_private(&Ipv4Addr::new(172, 31, 0, 1)));
    assert!(!is_private(&Ipv4Addr::new(172, 32, 0, 1)));
    assert!(!is_private(&Ipv4Addr::new(8, 8, 8, 8)));
}

#[test]
fn every_flag_explains_itself() {
    let ip = Ipv4Addr::new(10, 0, 0, 1);
    let flags = [
        Flag::OutsideSubnet { ips: vec![ip, Ipv4Addr::new(10, 0, 0, 2)] },
        Flag::L2Only,
        Flag::NoLease,
        Flag::LeaseMismatch { lease: ip, in_use: vec![Ipv4Addr::new(10, 0, 0, 2)] },
        Flag::DuplicateIp { ip, others: vec!["a".to_string(), "b".to_string()] },
        Flag::Apipa { ip },
        Flag::OrphanLease { ip },
    ];
    let codes: Vec<&str> = flags.iter().map(|f| f.code()).collect();
    assert_eq!(
        codes,
        vec![
            "OUTSIDE_SUBNET",
            "L2_ONLY",
            "NO_LEASE",
            "LEASE_MISMATCH",
            "DUPLICATE_IP",
            "APIPA",
            "ORPHAN_LEASE"
        ]
    );
    assert_eq!(
        flags[0].explain(),
        "uses 10.0.0.1, 10.0.0.2 — outside every expected subnet; static IP set on the device itself"
    );
    assert_eq!(
        flags[1].explain(),
        "answers on the link but never revealed an IPv4 — likely a silent static address; raise --passive-secs or widen --scope"
    );
    assert_eq!(
        flags[2].explain(),
        "no DHCPACK observed for this MAC — it never took an address from the server"
    );
    assert_eq!(flags[4].explain(), "10.0.0.1 is also claimed by a, b");
    assert_eq!(
        flags[5].explain(),
        "fell back to 10.0.0.1 (APIPA): asked for DHCP and got no answer"
    );
    assert_eq!(flags[6].explain(), "lease for 10.0.0.1 on record, but the MAC no longer answers");
    assert_eq!(flags[0].severity(), Severity::Critical);
    assert_eq!(flags[3].severity(), Severity::High);
    assert_eq!(flags[6].severity(), Severity::Info);
    assert_eq!(flags[4].clone().explain(), flags[4].explain());
}

#[test]
fn widening_the_expected_clears_a_device() {
    let oui = OuiDb::load(None);
    let mut inv = Inventory::new();
    let mac = MacAddr::new(5, 5, 5, 5, 5, 5);
    inv.apply(Event::V4 { mac, ip: Ipv4Addr::new(10, 9, 8, 7), src: Source::Gratuitous });
    let mut nets = expected();
    assert!(has(&analyze(&inv, &nets, &oui)[0], "OUTSIDE_SUBNET"));
    nets.push(Ipv4Net::parse("10.9.0.0/16").unwrap());
    assert!(!has(&analyze(&inv, &nets, &oui)[0], "OUTSIDE_SUBNET"));
}

#[test]
fn each_side_of_a_conflict_names_the_other() {
    let oui = OuiDb::load(None);
    let mut inv = Inventory::new();
    let a = MacAddr::new(1, 1, 1, 1, 1, 1);
    let b = MacAddr::new(2, 2, 2, 2, 2, 2);
    let router = MacAddr::new(3, 3, 3, 3, 3, 3);
    let ip = Ipv4Addr::new(192, 168, 1, 50);
    inv.apply(Event::V4 { mac: a, ip, src: Source::ArpReply });
    inv.apply(Event::V4 { mac: b, ip, src: Source::ArpReply });
    inv.apply(Event::V4 { mac: router, ip, src: Source::Ipv4Source });
    let fs = analyze(&inv, &expected(), &oui);
    for (one, other) in [(a, b), (b, a)] {
        let f = find(&fs, &one.to_string());
        assert!(f.flags.iter().any(|x| match x {
            Flag::DuplicateIp { ip: at, others } => *at == ip && *others == vec![other.to_string()],
            _ => false,
        }));
    }
}

#[test]
fn traffic_passed_on_is_no_conflict() {
    let oui = OuiDb::load(None);
    let mut inv = Inventory::new();
    let ip = Ipv4Addr::new(192, 168, 1, 50);
    inv.apply(Event::V4 { mac: MacAddr::new(1, 1, 1, 1, 1, 1), ip, src: Source::Ipv4Source });
    inv.apply(Event::V4 { mac: MacAddr::new(2, 2, 2, 2, 2, 2), ip, src: Source::Ipv4Source });
    for f in analyze(&inv, &expected(), &oui) {
        assert!(!has(&f, "DUPLICATE_IP"));
    }
}

#[test]
fn an_address_with_one_owner_is_no_duplicate() {
    let mut inv = Inventory::new();
    let a = MacAddr::new(1, 1, 1, 1, 1, 1);
    let b = MacAddr::new(2, 2, 2, 2, 2, 2);
    let ip = Ipv4Addr::new(192, 168, 1, 50);
    inv.apply(Event::V4 { mac: b, ip, src: Source::ArpReply });
    assert!(duplicate_ips(&inv.hosts, ip).is_empty());
    inv.apply(Event::V4 { mac: a, ip, src: Source::ArpReply });
    assert_eq!(duplicate_ips(&inv.hosts, ip), vec![a, b]);
}
