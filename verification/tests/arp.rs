use ipscan::addr::{Ipv4Addr, MacAddr};
use ipscan::arp::{
    any_probes, any_serves, block_addrs, block_count, burst_frames, burst_size, build_request, fmt_dur, host_count, hosts, overlaps,
    probes, slash24_blocks, Pace, Spa, Step, Sweep,
};
use ipscan::iface::Local;
use ipscan::net::Ipv4Net;
use pnet::packet::arp::{ArpHardwareTypes, ArpOperations, ArpPacket};
use pnet::packet::ethernet::{EtherTypes, EthernetPacket};
use pnet::packet::Packet;

fn net(s: &str) -> Ipv4Net {
    Ipv4Net::parse(s).unwrap()
}

fn local() -> Local {
    Local {
        name: "eth0".to_string(),
        index: 2,
        mac: MacAddr::new(2, 0, 0, 0, 0, 0x18),
        ipv4: Some(Ipv4Addr::new(192, 168, 1, 18)),
        net: Some(net("192.168.1.0/24")),
        link_local: None,
    }
}

fn run(sweep: &mut Sweep) -> Vec<Vec<Ipv4Addr>> {
    let mut out = Vec::new();
    loop {
        match sweep.next(false) {
            Step::Send { addrs } => out.push(addrs),
            Step::Skip => {}
            Step::Done => return out,
        }
    }
}

#[test]
fn host_count_per_prefix() {
    assert_eq!(host_count(&net("192.168.1.0/24")), 254);
    assert_eq!(host_count(&net("10.0.0.0/8")), (1 << 24) - 2);
    assert_eq!(host_count(&net("192.168.1.4/31")), 2);
    assert_eq!(host_count(&net("192.168.1.4/32")), 1);
}

#[test]
fn slash24_expands_a_16_into_256_blocks() {
    let n = net("192.168.0.0/16");
    let blocks: Vec<_> = slash24_blocks(n);
    assert_eq!(blocks.len(), 256);
    assert_eq!(blocks[0], net("192.168.0.0/24"));
    assert_eq!(blocks[1], net("192.168.1.0/24"));
    assert_eq!(blocks[255], net("192.168.255.0/24"));
}

#[test]
fn slash24_devolve_rede_menor_inteira() {
    let n = net("10.37.129.0/24");
    let blocks: Vec<_> = slash24_blocks(n);
    assert_eq!(blocks, vec![n]);
    let small = net("10.0.0.0/28");
    assert_eq!(slash24_blocks(small), vec![small]);
}

#[test]
fn probe_uses_zero_as_the_sender() {
    let target = Ipv4Addr::new(10, 37, 129, 88);
    let local = Ipv4Addr::new(192, 168, 1, 18);
    assert_eq!(Spa::Probe.for_target(target, Some(local)), Ipv4Addr::unspecified());
    assert_eq!(Spa::Local.for_target(target, Some(local)), local);
    assert_eq!(Spa::Dest.for_target(target, Some(local)), target);
    // With no IPv4 on the interface the probe still works: sender 0.0.0.0.
    assert_eq!(Spa::Probe.for_target(target, None), Ipv4Addr::unspecified());
}

#[test]
fn neighbor_does_not_collide_with_a_dot_one_target() {
    let local = Some(Ipv4Addr::new(192, 168, 1, 18));
    // target .1 -> neighbour becomes .2 so we do not probe the target itself
    assert_eq!(
        Spa::Neighbor.for_target(Ipv4Addr::new(10, 0, 0, 1), local),
        Ipv4Addr::new(10, 0, 0, 2)
    );
    // ordinary target -> neighbour .1
    assert_eq!(
        Spa::Neighbor.for_target(Ipv4Addr::new(10, 0, 0, 88), local),
        Ipv4Addr::new(10, 0, 0, 1)
    );
}

#[test]
fn so_neighbor_e_fixed_poluem_cache() {
    assert!(!Spa::Probe.poisons_arp_cache());
    assert!(!Spa::Local.poisons_arp_cache());
    assert!(Spa::Neighbor.poisons_arp_cache());
    assert!(Spa::Fixed(Ipv4Addr::new(127, 0, 0, 1)).poisons_arp_cache());
}

#[test]
fn senders_are_read_by_name_or_address() {
    assert_eq!(Spa::parse("probe").unwrap(), Spa::Probe);
    assert_eq!(Spa::parse("auto").unwrap(), Spa::Probe);
    assert_eq!(Spa::parse("local").unwrap(), Spa::Local);
    assert_eq!(Spa::parse("dest").unwrap(), Spa::Dest);
    assert_eq!(Spa::parse("neighbor").unwrap(), Spa::Neighbor);
    assert_eq!(Spa::parse("10.0.0.9").unwrap(), Spa::Fixed(Ipv4Addr::new(10, 0, 0, 9)));
    let e = Spa::parse("no\"pe").unwrap_err();
    assert_eq!(
        e.message(),
        "invalid --spa: \"no\\\"pe\" (use probe, local, dest, neighbor or an IPv4): invalid IPv4 address syntax"
    );
    assert_eq!(Spa::Local.for_target(Ipv4Addr::new(1, 2, 3, 4), None), Ipv4Addr::unspecified());
    assert_eq!(
        Spa::Fixed(Ipv4Addr::new(9, 9, 9, 9)).for_target(Ipv4Addr::new(1, 2, 3, 4), None),
        Ipv4Addr::new(9, 9, 9, 9)
    );
}

#[test]
fn a_request_is_what_pnet_reads() {
    let l = local();
    let frame = build_request(&l, Ipv4Addr::new(192, 168, 1, 18), Ipv4Addr::new(10, 37, 129, 88));
    assert_eq!(frame.len(), 42);
    let eth = EthernetPacket::new(&frame).unwrap();
    assert_eq!(eth.get_destination(), pnet::util::MacAddr::broadcast());
    assert_eq!(eth.get_source(), pnet::util::MacAddr::new(2, 0, 0, 0, 0, 0x18));
    assert_eq!(eth.get_ethertype(), EtherTypes::Arp);
    let arp = ArpPacket::new(eth.payload()).unwrap();
    assert_eq!(arp.get_hardware_type(), ArpHardwareTypes::Ethernet);
    assert_eq!(arp.get_protocol_type(), EtherTypes::Ipv4);
    assert_eq!(arp.get_hw_addr_len(), 6);
    assert_eq!(arp.get_proto_addr_len(), 4);
    assert_eq!(arp.get_operation(), ArpOperations::Request);
    assert_eq!(arp.get_sender_hw_addr(), pnet::util::MacAddr::new(2, 0, 0, 0, 0, 0x18));
    assert_eq!(arp.get_sender_proto_addr().octets(), [192, 168, 1, 18]);
    assert_eq!(arp.get_target_hw_addr(), pnet::util::MacAddr::zero());
    assert_eq!(arp.get_target_proto_addr().octets(), [10, 37, 129, 88]);
}

#[test]
fn hosts_agree_with_ipnet() {
    for s in ["192.168.1.77/24", "10.0.0.5/30", "10.0.0.5/29", "172.16.4.0/22"] {
        let theirs: Vec<[u8; 4]> =
            s.parse::<ipnet::Ipv4Net>().unwrap().hosts().map(|a| a.octets()).collect();
        let ours: Vec<[u8; 4]> = hosts(net(s)).iter().map(|a| a.octets()).collect();
        assert_eq!(ours, theirs, "{}", s);
    }
    assert_eq!(hosts(net("10.0.0.5/31")), vec![Ipv4Addr::new(10, 0, 0, 4), Ipv4Addr::new(10, 0, 0, 5)]);
    assert_eq!(hosts(net("10.0.0.5/32")), vec![Ipv4Addr::new(10, 0, 0, 5)]);
}

#[test]
fn ranges_that_touch_overlap() {
    assert!(overlaps(&net("10.0.0.0/8"), &net("10.1.2.0/24")));
    assert!(overlaps(&net("10.1.2.0/24"), &net("10.0.0.0/8")));
    assert!(!overlaps(&net("10.1.2.0/24"), &net("10.1.3.0/24")));
}

#[test]
fn a_block_loses_its_ignored_addresses() {
    let b = net("192.168.1.0/24");
    assert_eq!(block_count(b, &[]), 254);
    assert_eq!(block_addrs(b, &[]).len(), 254);
    assert_eq!(block_count(b, &[net("192.168.0.0/16")]), 0);
    assert!(block_addrs(b, &[net("192.168.0.0/16")]).is_empty());
    let x = [net("192.168.1.0/28")];
    let left = block_addrs(b, &x);
    assert_eq!(left.len(), 254 - 15);
    assert_eq!(block_count(b, &x), 254 - 15);
    assert_eq!(left[0], Ipv4Addr::new(192, 168, 1, 16));
}

#[test]
fn a_sweep_goes_block_by_block_and_pass_by_pass() {
    let nets = [net("10.0.0.0/30"), net("192.168.0.0/23")];
    let excluded = [net("192.168.0.0/24")];
    let pace = Pace { rate: 2_000, settle_ms: 0, passes: 2 };
    let mut sweep = Sweep::new(&nets, &excluded, pace);
    assert_eq!(sweep.total(), 2 * (2 + 254));
    assert!(!sweep.is_big());
    let batches = run(&mut sweep);
    assert_eq!(batches.len(), 4);
    assert_eq!(batches[0], vec![Ipv4Addr::new(10, 0, 0, 1), Ipv4Addr::new(10, 0, 0, 2)]);
    assert_eq!(batches[0], batches[1]);
    assert_eq!(batches[2].len(), 254);
    assert_eq!(batches[2][0], Ipv4Addr::new(192, 168, 1, 1));
    assert_eq!(batches[2], batches[3]);
    assert_eq!(sweep.sent(), sweep.total());
}

#[test]
fn zero_passes_count_as_one() {
    let pace = Pace { rate: 1, settle_ms: 0, passes: 0 };
    let mut sweep = Sweep::new(&[net("10.0.0.0/29")], &[], pace);
    assert_eq!(sweep.total(), 6);
    assert_eq!(run(&mut sweep).len(), 1);
}

#[test]
fn a_stop_ends_the_sweep_where_it_is() {
    let pace = Pace { rate: 1, settle_ms: 0, passes: 3 };
    let mut sweep = Sweep::new(&[net("10.0.0.0/30")], &[], pace);
    assert!(matches!(sweep.next(false), Step::Send { .. }));
    assert!(matches!(sweep.next(true), Step::Done));
    assert_eq!(sweep.sent(), 2);
    assert_eq!(sweep.total(), 6);
}

#[test]
fn an_ignored_range_gets_no_packet() {
    let excluded = [net("10.0.0.4/30")];
    let mut sweep = Sweep::new(&[net("10.0.0.0/24")], &excluded, Pace::default());
    for batch in run(&mut sweep) {
        for ip in batch {
            assert!(!excluded[0].contains(&ip));
        }
    }
    assert_eq!(sweep.sent(), 2 * 250);
}

#[test]
fn what_is_listed_twice_is_sent_once() {
    let pace = Pace { rate: 1, settle_ms: 0, passes: u32::MAX };
    let once = Sweep::new(&[net("10.0.0.0/16")], &[], pace);
    let often = Sweep::new(&vec![net("10.0.0.0/16"); 3], &[], pace);
    assert_eq!(once.total(), u32::MAX as u64 * 256 * 254);
    assert_eq!(often.total(), once.total());
}

#[test]
fn a_later_network_takes_what_is_left() {
    let nets = [net("10.0.1.0/25"), net("10.0.0.0/23")];
    let pace = Pace { rate: 1, settle_ms: 0, passes: 1 };
    let mut sweep = Sweep::new(&nets, &[], pace);
    assert_eq!(sweep.total(), 2 * 254);
    let batches = run(&mut sweep);
    assert_eq!(batches.len(), 3);
    assert_eq!(batches[0], hosts(nets[0]));
    assert_eq!(batches[1], hosts(net("10.0.0.0/24")));
    // The last address of the smaller range and the first of its neighbour are no
    // ends of the /24, so they are not lost.
    assert_eq!(batches[2].len(), 128);
    assert_eq!(batches[2][0], Ipv4Addr::new(10, 0, 1, 127));
    assert_eq!(batches[2][1], Ipv4Addr::new(10, 0, 1, 128));
    assert_eq!(batches[2][127], Ipv4Addr::new(10, 0, 1, 254));
    assert_eq!(sweep.sent(), sweep.total());
}

#[test]
fn the_ends_of_each_block_are_left_out() {
    assert!(!probes(&net("10.0.0.0/23"), &Ipv4Addr::new(10, 0, 0, 255)));
    assert!(!probes(&net("10.0.0.0/23"), &Ipv4Addr::new(10, 0, 1, 0)));
    assert!(probes(&net("10.0.0.0/23"), &Ipv4Addr::new(10, 0, 1, 1)));
    assert!(!probes(&net("10.0.0.0/25"), &Ipv4Addr::new(10, 0, 0, 127)));
    assert!(probes(&net("10.0.0.0/31"), &Ipv4Addr::new(10, 0, 0, 0)));
    assert!(!probes(&net("10.0.0.0/24"), &Ipv4Addr::new(10, 0, 1, 1)));
    assert!(any_probes(&[net("10.0.0.0/25"), net("10.0.0.0/24")], &Ipv4Addr::new(10, 0, 0, 127)));
    assert!(any_serves(&[net("10.0.0.0/24")], &net("10.0.0.0/25")));
    assert!(any_serves(&[net("10.0.0.0/24")], &net("10.0.0.5/32")));
    assert!(!any_serves(&[net("10.0.0.0/25")], &net("10.0.0.127/32")));
    assert!(!any_serves(&[net("10.0.0.0/25")], &net("10.0.0.0/24")));
}

#[test]
fn a_large_sweep_is_reported_on() {
    let sweep = Sweep::new(&[net("192.168.0.0/16")], &[], Pace::default());
    assert!(sweep.is_big());
    assert_eq!(sweep.total(), 2 * 256 * 254);
}

#[test]
fn bursts_stay_small() {
    assert_eq!(burst_size(0), 1);
    assert_eq!(burst_size(99), 1);
    assert_eq!(burst_size(500), 5);
    assert_eq!(burst_size(2_000), 16);
    assert_eq!(burst_size(u64::MAX), 16);
}

#[test]
fn a_burst_takes_the_next_addresses() {
    let l = local();
    let addrs = hosts(net("10.0.0.0/29"));
    let first = burst_frames(&l, Spa::Probe, &addrs, 0, 4);
    assert_eq!(first.len(), 4);
    assert_eq!(first[0], build_request(&l, Ipv4Addr::unspecified(), addrs[0]));
    let rest = burst_frames(&l, Spa::Local, &addrs, 4, 4);
    assert_eq!(rest.len(), 2);
    assert_eq!(rest[1], build_request(&l, Ipv4Addr::new(192, 168, 1, 18), addrs[5]));
}

#[test]
fn durations_are_short() {
    assert_eq!(fmt_dur(0), "0s");
    assert_eq!(fmt_dur(59), "59s");
    assert_eq!(fmt_dur(61), "1m01s");
    assert_eq!(fmt_dur(3_600), "1h00m");
    assert_eq!(fmt_dur(7_265), "2h01m");
}

#[test]
fn the_default_pace_is_gentle() {
    assert_eq!(Pace::default(), Pace { rate: 2_000, settle_ms: 150, passes: 2 });
}

#[test]
fn a_sweep_can_always_be_counted() {
    let pace = Pace { rate: 1, settle_ms: 0, passes: u32::MAX };
    let parts = [net("10.0.0.0/8"), net("172.16.0.0/12"), net("192.168.0.0/16"), net("10.0.0.0/8")];
    let sweep = Sweep::new(&parts[..3], &parts[3..], pace);
    assert_eq!(sweep.total(), u32::MAX as u64 * (4096 + 256) * 254);
}
