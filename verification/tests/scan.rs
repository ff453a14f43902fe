use ipscan::addr::{Ipv4Addr, Ipv6Addr, MacAddr};
use ipscan::arp::{Pace, Spa, Step, Sweep};
use ipscan::capture::{Event, Source};
use ipscan::cli::{expected_or_local, factory_defaults, parse_nets, Cli, Scope};
use ipscan::correlate::{analyze, Finding};
use ipscan::iface::{IfaceAddr, Interface, Local};
use ipscan::iface;
use ipscan::inventory::Inventory;
use ipscan::net::Ipv4Net;
use ipscan::oui::OuiDb;
use ipscan::scan::{
    build_targets, collect_window, config_from, dedup_nets, first_inventory, fresh, prepare, run_layers, validate_spa,
    Phase, ScanConfig, ScanProgress, Stage, Task,
};
use std::time::Duration;

fn net(s: &str) -> Ipv4Net {
    Ipv4Net::parse(s).unwrap().trunc()
}

fn strings(v: &[&str]) -> Vec<String> {
    v.iter().map(|s| s.to_string()).collect()
}

fn cli() -> Cli {
    Cli {
        iface: None,
        tui: false,
        expected: vec![],
        excluded: vec![],
        scope: Scope::Auto,
        ranges: vec![],
        passive_secs: 15,
        rate: 2_000,
        settle: 150,
        passes: 2,
        passive_only: false,
        no_ipv6: false,
        leases_file: None,
        watch: false,
        watch_interval: 60,
        json: false,
        csv: false,
        all: false,
        spa: "probe".to_string(),
    }
}

fn interfaces() -> Vec<Interface> {
    vec![
        Interface {
            name: "lo".to_string(),
            index: 1,
            mac: Some(MacAddr::zero()),
            up: true,
            loopback: true,
            ips: vec![IfaceAddr::V4 { addr: Ipv4Addr::new(127, 0, 0, 1), prefix_len: 8 }],
        },
        Interface {
            name: "eth0".to_string(),
            index: 2,
            mac: Some(MacAddr::new(2, 0, 0, 0, 0, 1)),
            up: true,
            loopback: false,
            ips: vec![IfaceAddr::V4 { addr: Ipv4Addr::new(192, 168, 1, 18), prefix_len: 24 }],
        },
    ]
}

fn local(link_local: bool) -> Local {
    let mut l = iface::resolve(&interfaces(), None).unwrap();
    if link_local {
        l.link_local = Some(Ipv6Addr { bits: 0xfe80 << 112 });
    }
    l
}

fn config() -> ScanConfig {
    config_from(&cli(), &interfaces()).unwrap()
}

#[test]
fn an_ignored_range_does_not_come_back_through_the_side_door() {
    // The local network is "expected", and `Scope::Auto` re-injects the
    // expected ones into the target list. Marking it ignored must win.
    let inv = Inventory::new();
    let expected = vec![net("192.168.1.0/24")];
    let excluded = vec![net("192.168.1.0/24")];
    let targets = build_targets(Scope::Auto, &expected, &[], &excluded, &inv);
    assert!(!targets.contains(&net("192.168.1.0/24")));
    // and the rest of the scope still stands
    assert!(targets.contains(&net("192.168.88.0/24")));
}

#[test]
fn apipa_is_never_a_target() {
    let inv = Inventory::new();
    let targets = build_targets(Scope::Auto, &[net("169.254.0.0/16")], &[], &[], &inv);
    assert!(!targets.iter().any(|n| iface::is_apipa_net(n)), "169.254/16 became a target: {:?}", targets);
    // A scope of nothing with nothing else: APIPA alone leaves nothing to sweep.
    let only_apipa = build_targets(Scope::Nothing, &[], &[net("169.254.0.0/16")], &[], &inv);
    assert!(only_apipa.is_empty(), "{:?}", only_apipa);
}

#[test]
fn targets_come_before_the_scope() {
    // List order is wire order: the user's hypothesis goes first.
    let inv = Inventory::new();
    let targets = build_targets(Scope::Auto, &[net("192.168.1.0/24")], &[net("10.0.0.0/24")], &[], &inv);
    assert_eq!(targets.first(), Some(&net("10.0.0.0/24")));
}

#[test]
fn a_larger_network_drives_no_range_out() {
    let inv = Inventory::new();
    let asked = net("10.0.0.0/24");
    let targets = build_targets(Scope::Rfc1918, &[], &[asked], &[], &inv);
    assert_eq!(targets.first(), Some(&asked));
    assert_eq!(targets[1..], [net("192.168.0.0/16"), net("172.16.0.0/12"), net("10.0.0.0/8")]);
    // The local subnet too keeps its place ahead of the /16 that holds it.
    let local = net("192.168.1.0/24");
    assert_eq!(build_targets(Scope::Private16, &[local], &[local], &[], &inv), vec![local, net("192.168.0.0/16")]);
    // What lies in an earlier network adds nothing.
    assert_eq!(build_targets(Scope::Rfc1918, &[], &[net("10.0.0.0/8"), asked], &[], &inv).len(), 3);
    assert_eq!(build_targets(Scope::Nothing, &[], &[asked, asked, net("10.0.0.7/32")], &[], &inv), vec![asked]);
    // An ignored range in front does not count.
    let targets = build_targets(Scope::Nothing, &[], &[local, asked], &[local], &inv);
    assert_eq!(targets, vec![asked]);
}

#[test]
fn what_is_asked_for_is_sent_first_and_once() {
    let inv = Inventory::new();
    let asked = net("192.168.77.0/24");
    let targets = build_targets(Scope::Private16, &[], &[asked], &[], &inv);
    let mut sweep = Sweep::new(&targets, &[], Pace { rate: 1, settle_ms: 0, passes: 1 });
    let mut batches = Vec::new();
    loop {
        match sweep.next(false) {
            Step::Send { addrs } => batches.push(addrs),
            Step::Skip => {}
            Step::Done => break,
        }
    }
    assert_eq!(batches.len(), 256);
    assert!(batches[0].iter().all(|ip| asked.contains(ip)));
    assert_eq!(batches[0].len(), 254);
    assert!(batches[1..].iter().all(|b| b.iter().all(|ip| !asked.contains(ip))));
    assert_eq!(sweep.sent(), 256 * 254);
}

#[test]
fn the_collect_window_tracks_the_sweep() {
    // A short /24: the 0.5s floor instead of the old fixed 3s.
    assert_eq!(collect_window(Duration::from_millis(400).as_nanos()), Duration::from_millis(500).as_nanos());
    // medium sweep: half of it
    assert_eq!(collect_window(Duration::from_secs(2).as_nanos()), Duration::from_secs(1).as_nanos());
    // huge sweep: the 3s ceiling
    assert_eq!(collect_window(Duration::from_secs(600).as_nanos()), Duration::from_secs(3).as_nanos());
}

#[test]
fn what_was_seen_is_swept() {
    let mut inv = Inventory::new();
    inv.apply(Event::V4 {
        mac: MacAddr::new(1, 2, 3, 4, 5, 6),
        ip: Ipv4Addr::new(10, 37, 129, 88),
        src: Source::ArpReply,
    });
    let targets = build_targets(Scope::Auto, &[], &[], &[], &inv);
    assert_eq!(targets[0], net("10.37.129.0/24"));
    assert_eq!(targets.len(), 1 + 22);
}

#[test]
fn the_scopes_cover_private_space() {
    let inv = Inventory::new();
    assert!(build_targets(Scope::Nothing, &[net("10.0.0.0/8")], &[], &[], &inv).is_empty());
    assert_eq!(build_targets(Scope::Private16, &[], &[], &[], &inv), vec![net("192.168.0.0/16")]);
    assert_eq!(
        build_targets(Scope::Rfc1918, &[], &[], &[], &inv),
        vec![net("192.168.0.0/16"), net("172.16.0.0/12"), net("10.0.0.0/8")]
    );
}

#[test]
fn covered_networks_are_dropped() {
    let a = net("10.0.0.0/24");
    let b = net("192.168.1.0/24");
    assert_eq!(dedup_nets(vec![a, b, a]), vec![a, b]);
    assert_eq!(dedup_nets(vec![net("10.0.0.0/8"), b, a]), vec![net("10.0.0.0/8"), b]);
    // A larger network that comes later takes the place of the smaller one.
    assert_eq!(dedup_nets(vec![a, b, net("10.0.0.0/8")]), vec![b, net("10.0.0.0/8")]);
}

#[test]
fn the_factory_defaults_are_networks() {
    let texts = [
        "192.168.0.0/24", "192.168.1.0/24", "192.168.2.0/24", "192.168.8.0/24", "192.168.10.0/24", "192.168.11.0/24",
        "192.168.15.0/24", "192.168.16.0/24", "192.168.25.0/24", "192.168.50.0/24", "192.168.88.0/24",
        "192.168.100.0/24", "192.168.123.0/24", "192.168.127.0/24", "192.168.178.0/24", "192.168.254.0/24",
        "10.0.0.0/24", "10.0.1.0/24", "10.1.1.0/24", "10.10.10.0/24", "172.16.0.0/24", "172.20.0.0/24",
    ];
    let shown: Vec<String> = factory_defaults().iter().map(|n| n.to_string()).collect();
    assert_eq!(shown, strings(&texts));
}

#[test]
fn networks_are_read_or_refused() {
    assert_eq!(
        parse_nets(&strings(&["192.168.1.77/24", "10.0.0.1/8"])).unwrap(),
        vec![net("192.168.1.0/24"), net("10.0.0.0/8")]
    );
    let e = parse_nets(&strings(&["10.0.0.0/8", "10.0.0.0/33", "nonsense"])).unwrap_err();
    assert_eq!(e.message(), "invalid CIDR \"10.0.0.0/33\": invalid IP address syntax");
}

#[test]
fn the_command_line_becomes_a_configuration() {
    let mut c = cli();
    c.excluded = strings(&["10.0.0.0/8"]);
    c.ranges = strings(&["172.16.5.0/24"]);
    c.leases_file = Some("/tmp/leases".to_string());
    let cfg = config_from(&c, &interfaces()).unwrap();
    assert_eq!(cfg.expected, vec![net("192.168.1.0/24"), net("10.0.0.0/8")]);
    assert_eq!(cfg.excluded, vec![net("10.0.0.0/8")]);
    assert_eq!(cfg.ranges, vec![net("172.16.5.0/24")]);
    assert_eq!(cfg.spa, Spa::Probe);
    assert_eq!(cfg.pace, Pace::default());
    assert_eq!(cfg.passive_secs, 15);
    assert_eq!(cfg.leases_file.as_deref(), Some("/tmp/leases"));
    assert!(cfg.verbose);
    let copy = cfg.clone();
    assert_eq!(copy.expected, cfg.expected);
}

#[test]
fn errors_come_in_order() {
    let mut c = cli();
    c.spa = "nobody".to_string();
    c.ranges = strings(&["bad"]);
    assert!(config_from(&c, &interfaces()).unwrap_err().message().starts_with("invalid CIDR \"bad\""));
    c.ranges = vec![];
    assert!(config_from(&c, &interfaces()).unwrap_err().message().starts_with("invalid --spa"));
    c.iface = Some("wlan7".to_string());
    assert_eq!(config_from(&c, &interfaces()).unwrap_err().message(), "interface \"wlan7\" not found");
    c.expected = strings(&["192.168.7.0/24"]);
    assert_eq!(expected_or_local(&c, &interfaces()).unwrap(), vec![net("192.168.7.0/24")]);
}

#[test]
fn our_own_address_must_exist() {
    let mut l = local(false);
    assert!(validate_spa(Spa::Local, &l).is_ok());
    l.ipv4 = None;
    assert!(validate_spa(Spa::Probe, &l).is_ok());
    assert_eq!(
        validate_spa(Spa::Local, &l).unwrap_err().message(),
        "spa=local requires an IPv4 on interface eth0, which has no address. Use spa=probe (the default), which sweeps with sender 0.0.0.0."
    );
    let mut cfg = config();
    cfg.spa = Spa::Local;
    assert_eq!(prepare(&cfg, &interfaces()).unwrap().name, "eth0");
    let mut bare = interfaces();
    bare[1].ips.clear();
    assert!(prepare(&cfg, &bare).unwrap_err().message().starts_with("spa=local requires"));
}

#[test]
fn leases_are_loaded_first() {
    let (inv, n) = first_inventory(Some("1 02:00:00:00:00:11 192.168.1.90 a *\n"));
    assert_eq!(n, 1);
    assert!(inv.lease_file_loaded);
    assert_eq!(inv.orphan_leases.len(), 1);
    let (inv, n) = first_inventory(None);
    assert_eq!(n, 0);
    assert!(!inv.lease_file_loaded);
}

#[test]
fn phases_have_numbers_and_names() {
    let all = [Phase::Idle, Phase::Passive, Phase::Ipv6, Phase::Sweep, Phase::Collecting, Phase::Done];
    for (i, p) in all.iter().enumerate() {
        assert_eq!(p.as_u8() as usize, i);
        assert_eq!(Phase::from_u8(i as u8), *p);
    }
    assert_eq!(Phase::from_u8(77), Phase::Idle);
    let names: Vec<&str> = all.iter().map(|p| p.label()).collect();
    assert_eq!(
        names,
        vec!["idle", "passive listening", "IPv6 enumeration", "ARP sweep", "collecting replies", "done"]
    );
    let mut p = ScanProgress::default();
    assert_eq!(p.phase(), Phase::Idle);
    p.set_phase(Phase::Sweep);
    p.sent = 3;
    p.total = 9;
    assert_eq!(p.phase(), Phase::Sweep);
    assert_eq!(p.sweep_counts(), (3, 9));
}

#[test]
fn the_four_layers_follow_one_another() {
    let cfg = config();
    let inv = Inventory::new();
    let l = local(true);
    let (s, t) = run_layers(&cfg, &l, Stage::Start, &inv, false, 0);
    assert!(matches!(t, Task::Listen { secs: 15 }));
    assert_eq!(t.phase(), Some(Phase::Passive));
    let (s, t) = run_layers(&cfg, &l, s, &inv, false, 0);
    assert!(matches!(t, Task::Enumerate));
    let (s, t) = run_layers(&cfg, &l, s, &inv, false, 0);
    match &t {
        Task::Sweep { nets } => assert_eq!(nets[0], net("192.168.1.0/24")),
        _ => panic!("a sweep was due"),
    }
    let (s, t) = run_layers(&cfg, &l, s, &inv, false, 2_000_000_000);
    assert!(matches!(t, Task::Collect { nanos: 1_000_000_000 }));
    let (s, t) = run_layers(&cfg, &l, s, &inv, false, 0);
    assert!(matches!(t, Task::Finish));
    assert_eq!(t.phase(), Some(Phase::Done));
    assert_eq!(s, Stage::Over);
}

#[test]
fn layers_are_skipped_where_they_cannot_help() {
    let inv = Inventory::new();
    let mut cfg = config();
    cfg.passive_secs = 0;
    // No link-local address to ask from.
    let (s, t) = run_layers(&cfg, &local(false), Stage::Start, &inv, false, 0);
    assert!(matches!(t, Task::NoLinkLocal));
    assert_eq!(t.phase(), None);
    assert_eq!(s, Stage::Enumerated);
    // The user wants to stop.
    assert!(matches!(run_layers(&cfg, &local(true), s, &inv, true, 0).1, Task::Finish));
    // No IPv6.
    cfg.no_ipv6 = true;
    assert!(matches!(run_layers(&cfg, &local(true), Stage::Start, &inv, false, 0).1, Task::Sweep { .. }));
    // Nothing to sweep.
    cfg.scope = Scope::Nothing;
    assert!(matches!(run_layers(&cfg, &local(true), Stage::Start, &inv, false, 0).1, Task::Finish));
    // Listening only.
    let mut quiet = config();
    quiet.passive_only = true;
    assert!(matches!(run_layers(&quiet, &local(true), Stage::Start, &inv, false, 0).1, Task::Listen { .. }));
    assert!(matches!(run_layers(&quiet, &local(true), Stage::Listened, &inv, false, 0).1, Task::Finish));
}

fn found(last: u8) -> Vec<Finding> {
    let mut inv = Inventory::new();
    for i in 1..=last {
        inv.apply(Event::V4 {
            mac: MacAddr::new(2, 0, 0, 0, 0, i),
            ip: Ipv4Addr::new(10, 1, 1, i),
            src: Source::ArpReply,
        });
    }
    analyze(&inv, &[net("192.168.1.0/24")], &OuiDb::load(None))
}

#[test]
fn nothing_is_reported_a_second_time() {
    let mut known = Vec::new();
    assert_eq!(fresh(&found(2), &mut known).len(), 2);
    assert_eq!(fresh(&found(2), &mut known).len(), 0);
    let new = fresh(&found(3), &mut known);
    assert_eq!(new.len(), 1);
    assert_eq!(new[0].mac, "02:00:00:00:00:03");
    assert_eq!(known.len(), 3);
}
