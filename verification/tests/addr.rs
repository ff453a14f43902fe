use ipscan::addr::{Ipv4Addr, Ipv6Addr, MacAddr};
use ipscan::bytes;
use std::str::FromStr;

#[test]
fn ipv4_text_goes_both_ways() {
    for ip in [
        Ipv4Addr::new(0, 0, 0, 0),
        Ipv4Addr::new(10, 37, 129, 88),
        Ipv4Addr::new(192, 168, 1, 255),
        Ipv4Addr::new(255, 255, 255, 255),
    ] {
        assert_eq!(Ipv4Addr::parse(&ip.to_string()), Some(ip));
    }
    assert_eq!(Ipv4Addr::new(10, 37, 129, 88).to_string(), "10.37.129.88");
    assert_eq!(Ipv4Addr::new(10, 37, 129, 88).octets(), [10, 37, 129, 88]);
    assert_eq!(Ipv4Addr::new(1, 2, 3, 4).bits, 0x0102_0304);
}

/// Can the text be read as another value of the type?
fn reads<T: FromStr>(_: T, s: &str) -> bool {
    s.parse::<T>().is_ok()
}

#[test]
fn what_is_no_ipv4_is_refused() {
    let some = "0.0.0.0/0".parse::<ipnet::Ipv4Net>().unwrap().addr();
    assert!(reads(some, "1.2.3.4"));
    for s in [
        "", "1", "1.2.3", "1.2.3.4.5", "256.1.1.1", "1.2.3.04", "01.2.3.4", "1.2.3.4 ", " 1.2.3.4", "1..3.4", "a.b.c.d",
        "1.2.3.-4", "1.2.3.+4", "1.2.3.4/24", "0x1.2.3.4", "1000.2.3.4",
    ] {
        assert_eq!(Ipv4Addr::parse(s), None, "{:?}", s);
        assert!(!reads(some, s), "{:?}", s);
    }
}

#[test]
fn ipv4_ranges() {
    assert!(Ipv4Addr::unspecified().is_unspecified());
    assert!(!Ipv4Addr::new(0, 0, 0, 1).is_unspecified());
    assert!(Ipv4Addr::new(255, 255, 255, 255).is_broadcast());
    assert!(!Ipv4Addr::new(255, 255, 255, 254).is_broadcast());
    assert!(Ipv4Addr::new(224, 0, 0, 1).is_multicast());
    assert!(Ipv4Addr::new(239, 255, 255, 255).is_multicast());
    assert!(!Ipv4Addr::new(240, 0, 0, 0).is_multicast());
    assert!(!Ipv4Addr::new(223, 255, 255, 255).is_multicast());
    assert!(Ipv4Addr::new(10, 0, 0, 0).is_private());
    assert!(Ipv4Addr::new(172, 16, 0, 0).is_private());
    assert!(Ipv4Addr::new(192, 168, 0, 0).is_private());
    assert!(!Ipv4Addr::new(192, 169, 0, 0).is_private());
    assert!(!Ipv4Addr::new(11, 0, 0, 0).is_private());
}

#[test]
fn ipv6_text_is_compressed() {
    assert_eq!(Ipv6Addr { bits: 1 }.to_string(), "::1");
    assert_eq!(Ipv6Addr { bits: 0xff02u128 << 112 | 1 }.to_string(), "ff02::1");
    assert_eq!(Ipv6Addr { bits: 0xffff_0a00_0001 }.to_string(), "::ffff:10.0.0.1");
}

#[test]
fn ipv6_ranges() {
    assert!(Ipv6Addr { bits: 0 }.is_unspecified());
    assert!(Ipv6Addr { bits: 0xff02 << 112 }.is_multicast());
    assert!(!Ipv6Addr { bits: 0xfe80 << 112 }.is_multicast());
    assert!(Ipv6Addr { bits: 0xfe80 << 112 }.is_link_local());
    assert!(Ipv6Addr { bits: 0xfebf << 112 }.is_link_local());
    assert!(!Ipv6Addr { bits: 0xfec0 << 112 }.is_link_local());
    assert_eq!(Ipv6Addr { bits: 0x1234 << 112 }.group0(), 0x1234);
}

#[test]
fn mac_text_goes_both_ways() {
    let m = MacAddr::new(0x0a, 0xbb, 0x00, 0x0d, 0xee, 0xff);
    assert_eq!(m.to_string(), "0a:bb:00:0d:ee:ff");
    assert_eq!(m.to_string(), pnet::util::MacAddr::new(0x0a, 0xbb, 0x00, 0x0d, 0xee, 0xff).to_string());
    assert_eq!(MacAddr::parse("0a:bb:00:0d:ee:ff"), Some(m));
    assert_eq!(MacAddr::parse("0A:BB:00:0D:EE:FF"), Some(m));
    assert_eq!(m.as_number(), 0x0abb_000d_eeff);
}

#[test]
fn what_is_no_mac_is_refused() {
    for s in ["", "0a:bb:00:0d:ee", "0a:bb:00:0d:ee:ff:11", "0a-bb-00-0d-ee-ff", "zz:bb:00:0d:ee:ff"] {
        assert_eq!(MacAddr::parse(s).is_some(), pnet::util::MacAddr::from_str(s).is_ok(), "{:?}", s);
        assert_eq!(MacAddr::parse(s), None, "{:?}", s);
    }
}

#[test]
fn some_macs_name_no_device() {
    assert!(!MacAddr::zero().names_a_device());
    assert!(!MacAddr::broadcast().names_a_device());
    assert!(MacAddr::new(0xff, 0xff, 0xff, 0xff, 0xff, 0xfe).names_a_device());
    assert!(MacAddr::new(0, 0, 0, 0, 0, 1).names_a_device());
}

#[test]
fn what_is_written_is_read_back() {
    let mut out = Vec::new();
    bytes::push_word(&mut out, 0x86dd);
    bytes::push_mac(&mut out, MacAddr::new(1, 2, 3, 4, 5, 6));
    bytes::push_ipv4(&mut out, Ipv4Addr::new(10, 0, 0, 7));
    bytes::push_ipv6(&mut out, Ipv6Addr { bits: 0xfe80_0000_0000_0000_0102_0304_0506_0708 });
    assert_eq!(out.len(), 2 + 6 + 4 + 16);
    assert_eq!(out[0], 0x86);
    assert_eq!(bytes::read_word(&out, 0), 0x86dd);
    assert_eq!(bytes::read_mac(&out, 2), MacAddr::new(1, 2, 3, 4, 5, 6));
    assert_eq!(bytes::read_ipv4(&out, 8), Ipv4Addr::new(10, 0, 0, 7));
    assert_eq!(
        bytes::read_ipv6(&out, 12),
        Ipv6Addr { bits: 0xfe80_0000_0000_0000_0102_0304_0506_0708 }
    );
}

#[test]
fn macs_are_read_as_pnet_reads_them() {
    for s in [
        "a:b:c:d:e:f", "0:0:0:0:0:0", "00a:0b:0c:0d:0e:0f", "+a:0b:0c:0d:0e:0f", "+aa:0b:0c:0d:0e:0f", "-1:0b:0c:0d:0e:0f",
        "100:0b:0c:0d:0e:0f", "0b::0c:0d:0e:0f", ":0a:0b:0c:0d:0e:0f", "0a:0b:0c:0d:0e:0f:", " 0a:0b:0c:0d:0e:0f",
        "FF:ff:Ff:fF:00:01", "+:0b:0c:0d:0e:0f", "0a:0b:0c:0d:0e:0g", "000000a:0b:0c:0d:0e:0f",
    ] {
        let ours = MacAddr::parse(s).map(|m| m.to_string());
        let theirs = pnet::util::MacAddr::from_str(s).ok().map(|m| m.to_string());
        assert_eq!(ours, theirs, "{:?}", s);
    }
    assert_eq!(MacAddr::parse("a:b:c:d:e:f"), Some(MacAddr::new(10, 11, 12, 13, 14, 15)));
}
