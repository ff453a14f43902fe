use ipscan::addr::Ipv4Addr;
use ipscan::net::{any_covers, any_has, Ipv4Net};
use ipscan::ordered::{find_slot, insert_ranked};

fn net(s: &str) -> Ipv4Net {
    Ipv4Net::parse(s).unwrap()
}

const SAMPLES: [&str; 10] = [
    "0.0.0.0/0", "10.37.129.88/8", "10.37.129.88/13", "10.37.129.88/24", "10.37.129.88/30", "10.37.129.88/31",
    "10.37.129.88/32", "255.255.255.255/1", "192.168.0.0/16", "192.168.1.77/25",
];

#[test]
fn networks_agree_with_ipnet() {
    for s in SAMPLES {
        let ours = net(s);
        let theirs = s.parse::<ipnet::Ipv4Net>().unwrap();
        assert_eq!(ours.network().octets(), theirs.network().octets(), "{}", s);
        assert_eq!(ours.broadcast().octets(), theirs.broadcast().octets(), "{}", s);
        assert_eq!(ours.to_string(), theirs.to_string());
        assert_eq!(ours.trunc().to_string(), theirs.trunc().to_string());
        assert_eq!(ours.trunc().trunc(), ours.trunc());
        for t in SAMPLES {
            let other = t.parse::<ipnet::Ipv4Net>().unwrap();
            assert_eq!(ours.contains_net(&net(t)), theirs.contains(&other), "{} {}", s, t);
            assert_eq!(ours.contains(&net(t).addr), theirs.contains(&other.addr()), "{} {}", s, t);
        }
    }
}

#[test]
fn what_is_no_network_is_refused() {
    for s in ["", "10.0.0.0", "10.0.0.0/", "10.0.0.0/33", "10.0.0/8", "/8", "10.0.0.0/8 ", "10.0.0.0/-1", "nonsense"] {
        assert_eq!(Ipv4Net::parse(s), None, "{:?}", s);
    }
    assert_eq!(Ipv4Net::new(Ipv4Addr::new(10, 0, 0, 1), 33), None);
    assert_eq!(Ipv4Net::new(Ipv4Addr::new(10, 0, 0, 1), 32), Some(net("10.0.0.1/32")));
}

#[test]
fn lists_of_networks_are_searched() {
    let nets = [net("10.0.0.0/8"), net("192.168.1.0/24")];
    assert!(any_has(&nets, &Ipv4Addr::new(192, 168, 1, 9)));
    assert!(!any_has(&nets, &Ipv4Addr::new(192, 168, 2, 9)));
    assert!(any_covers(&nets, &net("10.1.0.0/16")));
    assert!(!any_covers(&nets, &net("192.168.0.0/16")));
}

#[test]
fn insertion_keeps_order_and_drops_repeats() {
    let mut v: Vec<Ipv4Addr> = Vec::new();
    for last in [5, 1, 9, 5, 1, 7] {
        insert_ranked(&mut v, Ipv4Addr::new(10, 0, 0, last));
    }
    let last: Vec<u8> = v.iter().map(|a| a.octets()[3]).collect();
    assert_eq!(last, vec![1, 5, 7, 9]);
    assert_eq!(find_slot(&v, 0x0a00_0005), 1);
    assert_eq!(find_slot(&v, 0x0a00_0006), 2);
    assert_eq!(find_slot(&v, 0x0a00_00ff), 4);
}

#[test]
fn networks_are_read_as_ipnet_reads_them() {
    for s in [
        "010.0.0.0/08", "010.000.0.1/8", "10.0.0.0/008", "10.0.0.0/00", "0010.0.0.0/8", "10.0.0.256/8", "10.0.0.0/32",
        "10.0.0.0/032", "10.0.0.0/+8", "+1.0.0.0/8", "10.0.0.0.0/8", "10..0.0/8", "10.0.0.0//8", "255.255.255.255/32",
        " 10.0.0.0/8", "1e1.0.0.0/8", "10.0.0.0/8/8",
    ] {
        let ours = Ipv4Net::parse(s).map(|n| n.to_string());
        let theirs = s.parse::<ipnet::Ipv4Net>().ok().map(|n| n.to_string());
        assert_eq!(ours, theirs, "{:?}", s);
    }
    assert_eq!(Ipv4Net::parse("010.0.0.0/08"), Some(net("10.0.0.0/8")));
    assert_eq!(Ipv4Net::parse("10.0.0.0/008"), None);
}

#[test]
fn a_network_that_is_written_is_read_back() {
    for s in SAMPLES {
        assert_eq!(net(s).to_string(), s);
        assert_eq!(Ipv4Net::parse(&net(s).to_string()), Some(net(s)));
    }
}
