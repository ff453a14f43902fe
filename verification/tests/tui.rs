use ipscan::addr::{Ipv4Addr, MacAddr};
use ipscan::arp::Spa;
use ipscan::capture::{Event, Source};
use ipscan::cli::{Cli, Scope};
use ipscan::correlate::{analyze, Finding};
use ipscan::iface::Iface;
use ipscan::inventory::Inventory;
use ipscan::net::Ipv4Net;
use ipscan::oui::OuiDb;
use ipscan::scan::Phase;
use ipscan::tui::app::{Action, App, FormFocus, Pane, RangeKind, RangeRow, ScanState};
use ipscan::tui::keys::{form_items, handle_key, Key};
use ipscan::tui::probe::probe_args;
use ipscan::tui::theme::{severity_glyph, Tone};
use ipscan::tui::view::{
    border, centered, progress_label, render_detail, render_form, render_help, render_status, render_table, scope_label,
    table_title, trunc, Area, Span,
};

fn net(s: &str) -> Ipv4Net {
    Ipv4Net::parse(s).unwrap()
}

fn app() -> App {
    let ifaces = vec![
        Iface { name: "eth0".to_string(), net: Some(net("192.168.1.0/24")) },
        Iface { name: "eth1".to_string(), net: Some(net("10.5.0.0/16")) },
        Iface { name: "wlan0".to_string(), net: None },
    ];
    App::new(ifaces, OuiDb::load(None), 1_000)
}

fn press(app: &mut App, k: Key) -> Action {
    handle_key(app, k, false)
}

fn write(app: &mut App, s: &str) {
    for c in s.chars() {
        assert!(matches!(press(app, Key::Char(c)), Action::Nothing));
    }
}

fn inventory() -> Inventory {
    let mut inv = Inventory::new();
    for (last, ip) in [(1, Ipv4Addr::new(10, 1, 1, 1)), (2, Ipv4Addr::new(192, 168, 1, 2)), (3, Ipv4Addr::new(10, 9, 1, 1))] {
        inv.apply(Event::V4 { mac: MacAddr::new(0, 0, 0, 0, 0xAB, last), ip, src: Source::ArpReply });
    }
    inv
}

fn findings() -> Vec<Finding> {
    analyze(&inventory(), &[net("192.168.1.0/24")], &OuiDb::load(None))
}

/// An application whose scan has found three devices.
fn with_results() -> App {
    let mut a = app();
    a.launch_succeeded("sweep started".to_string());
    a.refresh_findings(findings());
    a
}

fn said(app: &App) -> &str {
    app.toast.as_ref().map(|t| t.0.as_str()).unwrap_or("")
}

fn shown(line: &[Span]) -> String {
    line.iter().map(|s| s.text.as_str()).collect()
}

#[test]
fn the_form_opens_with_the_local_subnet() {
    let a = app();
    assert_eq!(a.ranges.len(), 1);
    assert_eq!(a.ranges[0].text, "192.168.1.0/24");
    assert_eq!(a.ranges[0].kind, RangeKind::Expected);
    assert!(a.only_flagged);
    assert_eq!(a.iface_name().as_deref(), Some("eth0"));
    assert_eq!(a.local_net(), Some(net("192.168.1.0/24")));
    let bare = App::new(vec![], OuiDb::load(None), 0);
    assert!(bare.ranges.is_empty());
    assert!(!bare.only_flagged);
    assert_eq!(bare.iface_name(), None);
}

#[test]
fn roles_go_round() {
    let k = RangeKind::Expected;
    assert_eq!(k.next(), RangeKind::Target);
    assert_eq!(k.next().next(), RangeKind::Ignored);
    assert_eq!(k.next().next().next(), k);
    assert_eq!(k.prev(), RangeKind::Ignored);
    assert_eq!(k.next().prev(), k);
    assert_eq!(k.marker(), " ");
    assert_eq!(RangeKind::Target.marker(), ">");
    assert_eq!(RangeKind::Ignored.marker(), "!");
}

#[test]
fn a_row_is_a_network_or_blank() {
    let row = |s: &str| RangeRow::new(s.to_string(), RangeKind::Target);
    assert_eq!(row(" 10.0.0.9/24 ").parsed(), Some(net("10.0.0.0/24")));
    assert!(row("  ").valid());
    assert_eq!(row("  ").parsed(), None);
    assert!(!row("10.0.0.9").valid());
}

#[test]
fn roles_decide_what_is_swept_and_what_is_legitimate() {
    let mut a = app();
    a.ranges.push(RangeRow::new("10.1.0.0/24".to_string(), RangeKind::Target));
    a.ranges.push(RangeRow::new("10.2.0.0/24".to_string(), RangeKind::Ignored));
    a.ranges.push(RangeRow::new("".to_string(), RangeKind::Expected));
    a.session_whitelist.push(net("10.3.0.0/24"));
    a.adv.leases_file = "  /tmp/leases ".to_string();
    let cfg = a.build_config().unwrap();
    assert_eq!(cfg.ranges, vec![net("10.1.0.0/24"), net("192.168.1.0/24")]);
    assert_eq!(cfg.expected, vec![net("192.168.1.0/24"), net("10.2.0.0/24"), net("10.3.0.0/24")]);
    assert_eq!(cfg.excluded, vec![net("10.2.0.0/24")]);
    assert_eq!(cfg.scope, Scope::Auto);
    assert_eq!(cfg.spa, Spa::Probe);
    assert_eq!(cfg.leases_file.as_deref(), Some("/tmp/leases"));
    assert!(!cfg.verbose);
    assert!(!cfg.passive_only);
}

#[test]
fn one_range_is_swept_alone() {
    let mut a = app();
    a.adv.passive_secs = 30;
    a.ranges.push(RangeRow::new("10.1.0.0/24".to_string(), RangeKind::Target));
    a.ranges.push(RangeRow::new("10.2.0.0/24".to_string(), RangeKind::Ignored));
    let cfg = a.build_config_single(2).unwrap();
    assert_eq!(cfg.ranges, vec![net("10.2.0.0/24")]);
    assert_eq!(cfg.expected, vec![net("192.168.1.0/24")]);
    assert!(cfg.excluded.is_empty());
    assert_eq!(cfg.scope, Scope::Nothing);
    assert_eq!(cfg.passive_secs, 0);
    a.ranges.push(RangeRow::new("".to_string(), RangeKind::Target));
    for idx in [3, 4] {
        assert_eq!(
            a.build_config_single(idx).unwrap_err().message(),
            "the focused range is empty or has an invalid CIDR"
        );
    }
}

#[test]
fn the_baseline_falls_back_to_the_interface() {
    let mut a = app();
    a.ranges[0].kind = RangeKind::Target;
    assert_eq!(a.build_config().unwrap().expected, vec![net("192.168.1.0/24")]);
    a.iface_idx = 2;
    assert!(a.build_config().unwrap().expected.is_empty());
}

#[test]
fn one_range_is_judged_by_the_others() {
    let mut a = app();
    let local = net("192.168.1.0/24");
    // The focused row is the only network and nothing else is expected.
    assert_eq!(a.build_config_single(0).unwrap().expected, vec![local]);
    // Something else is, and a range is left as a network: no fallback.
    a.session_whitelist.push(net("10.3.0.0/24"));
    assert_eq!(a.build_config_single(0).unwrap().expected, vec![net("10.3.0.0/24")]);
    a.ranges.push(RangeRow::new("10.2.0.0/24".to_string(), RangeKind::Ignored));
    assert_eq!(a.build_config_single(0).unwrap().expected, vec![net("10.2.0.0/24"), net("10.3.0.0/24")]);
    assert_eq!(a.build_config_single(1).unwrap().expected, vec![local, net("10.3.0.0/24")]);
    // No range is left as a network: the interface's subnet joins in.
    a.ranges[0].kind = RangeKind::Target;
    let expected = a.build_config_single(0).unwrap().expected;
    assert_eq!(expected, vec![net("10.2.0.0/24"), net("10.3.0.0/24"), local]);
}

#[test]
fn the_run_key_launches() {
    let mut a = app();
    match press(&mut a, Key::Char('r')) {
        Action::Launch { cfg, notice } => {
            assert_eq!(cfg.iface.as_deref(), Some("eth0"));
            assert_eq!(notice, "sweep started");
        }
        _ => panic!("a launch was due"),
    }
    a.launch_succeeded("sweep started".to_string());
    assert_eq!(a.scan, ScanState::Running);
    assert_eq!(a.pane, Pane::Results);
    assert_eq!(said(&a), "sweep started");
    // A second one has to wait.
    assert!(matches!(press(&mut a, Key::Char('r')), Action::Nothing));
    assert!(matches!(press(&mut a, Key::Esc), Action::Stop));
    assert_eq!(said(&a), "sweep cancelled (partial results kept)");
}

#[test]
fn a_bad_range_stops_the_launch() {
    let mut a = app();
    a.ranges.push(RangeRow::new("10.0.0.0/40".to_string(), RangeKind::Target));
    assert!(a.any_invalid_range());
    assert!(matches!(a.start_scan(), Action::Nothing));
    assert_eq!(said(&a), "some range has an invalid CIDR — fix it before running");
}

#[test]
fn a_bad_sender_stops_the_launch() {
    let mut a = app();
    a.adv.spa = "nobody".to_string();
    assert!(matches!(a.start_scan(), Action::Abandon));
    assert!(said(&a).starts_with("failed to start: invalid --spa: \"nobody\""));
}

#[test]
fn a_missing_capability_takes_the_screen() {
    let mut a = app();
    a.launch_failed("needs CAP_NET_RAW".to_string());
    assert_eq!(a.perm_error.as_deref(), Some("needs CAP_NET_RAW"));
    assert!(a.toast.is_none());
    press(&mut a, Key::Char('x'));
    assert!(a.should_quit);
}

#[test]
fn ctrl_c_always_quits() {
    let mut a = app();
    a.editing = Some("10".to_string());
    handle_key(&mut a, Key::Char('c'), true);
    assert!(a.should_quit);
    assert_eq!(a.editing.as_deref(), Some("10"));
}

#[test]
fn the_form_is_walked_and_edited() {
    let mut a = app();
    assert_eq!(
        form_items(&a),
        vec![FormFocus::Interface, FormFocus::Scope, FormFocus::Range(0), FormFocus::AdvancedToggle]
    );
    press(&mut a, Key::Char('j'));
    press(&mut a, Key::Down);
    assert_eq!(a.form_focus, FormFocus::Range(0));
    // Add a range behind it.
    press(&mut a, Key::Char('a'));
    assert_eq!(a.form_focus, FormFocus::Range(1));
    write(&mut a, "10.7.0.0/245");
    press(&mut a, Key::Backspace);
    press(&mut a, Key::Enter);
    assert_eq!(a.editing, None);
    assert_eq!(a.ranges[1].text, "10.7.0.0/24");
    press(&mut a, Key::Char(' '));
    assert_eq!(a.ranges[1].kind, RangeKind::Target);
    press(&mut a, Key::Left);
    assert_eq!(a.ranges[1].kind, RangeKind::Expected);
    // Sweep it alone.
    match press(&mut a, Key::Char('s')) {
        Action::Launch { cfg, notice } => {
            assert_eq!(cfg.ranges, vec![net("10.7.0.0/24")]);
            assert_eq!(notice, "sweeping 10.7.0.0/24");
        }
        _ => panic!("a launch was due"),
    }
    // Remove both.
    press(&mut a, Key::Char('d'));
    assert_eq!(a.form_focus, FormFocus::Range(0));
    press(&mut a, Key::Char('d'));
    assert_eq!(a.form_focus, FormFocus::Scope);
    assert!(a.ranges.is_empty());
    press(&mut a, Key::Char('s'));
    assert_eq!(said(&a), "put the cursor on a range to sweep just that one");
}

#[test]
fn adding_and_removing_cancel_out() {
    let mut a = app();
    a.form_focus = FormFocus::Range(0);
    press(&mut a, Key::Char('a'));
    press(&mut a, Key::Esc);
    press(&mut a, Key::Char('d'));
    assert_eq!(a.ranges.len(), 1);
    assert_eq!(a.ranges[0].text, "192.168.1.0/24");
}

#[test]
fn fields_cycle_both_ways() {
    let mut a = app();
    press(&mut a, Key::Right);
    assert_eq!(a.iface_idx, 1);
    // The only row follows the interface.
    assert_eq!(a.ranges[0].text, "10.5.0.0/16");
    press(&mut a, Key::Left);
    press(&mut a, Key::Left);
    assert_eq!(a.iface_idx, 2);
    a.form_focus = FormFocus::Scope;
    let mut seen = Vec::new();
    for _ in 0..4 {
        seen.push(a.scope);
        press(&mut a, Key::Enter);
    }
    assert_eq!(seen, vec![Scope::Auto, Scope::Rfc1918, Scope::Private16, Scope::Nothing]);
    assert_eq!(a.scope, Scope::Auto);
    a.form_focus = FormFocus::AdvSpa;
    press(&mut a, Key::Char('h'));
    assert_eq!(a.adv.spa, "neighbor");
    press(&mut a, Key::Char('l'));
    assert_eq!(a.adv.spa, "probe");
}

#[test]
fn numbers_are_taken_or_left() {
    let mut a = app();
    a.form_focus = FormFocus::AdvancedToggle;
    press(&mut a, Key::Enter);
    assert!(a.advanced_open);
    assert_eq!(form_items(&a).len(), 11);
    a.form_focus = FormFocus::AdvRate;
    press(&mut a, Key::Enter);
    assert_eq!(a.editing.as_deref(), Some("2000"));
    write(&mut a, "0 ");
    press(&mut a, Key::Enter);
    assert_eq!(a.adv.rate, 20_000);
    press(&mut a, Key::Enter);
    write(&mut a, "x");
    press(&mut a, Key::Enter);
    assert_eq!(a.adv.rate, 20_000);
    a.form_focus = FormFocus::AdvPasses;
    press(&mut a, Key::Enter);
    write(&mut a, "9999999999");
    press(&mut a, Key::Enter);
    assert_eq!(a.adv.passes, 2);
    a.form_focus = FormFocus::AdvNoIpv6;
    press(&mut a, Key::Char(' '));
    assert!(a.adv.no_ipv6);
}

#[test]
fn the_form_is_locked_while_a_sweep_runs() {
    let mut a = app();
    a.launch_succeeded("go".to_string());
    a.pane = Pane::Form;
    a.form_focus = FormFocus::Range(0);
    for k in [Key::Char('d'), Key::Char('a'), Key::Char(' '), Key::Enter, Key::Right] {
        press(&mut a, k);
    }
    assert_eq!(a.ranges.len(), 1);
    assert_eq!(a.ranges[0].kind, RangeKind::Expected);
    assert_eq!(a.editing, None);
}

#[test]
fn the_cursor_walks_the_results() {
    let mut a = with_results();
    assert_eq!(a.visible_indices(), vec![0, 1]);
    assert_eq!(a.selected_finding().unwrap().mac, "00:00:00:00:ab:01");
    for _ in 0..5 {
        press(&mut a, Key::Char('j'));
    }
    assert_eq!(a.result_idx, 1);
    press(&mut a, Key::Char('f'));
    assert_eq!(a.result_idx, 0);
    assert_eq!(a.visible_indices().len(), 3);
    press(&mut a, Key::Up);
    assert_eq!(a.result_idx, 0);
}

#[test]
fn the_filter_looks_everywhere() {
    let mut a = with_results();
    press(&mut a, Key::Char('f'));
    press(&mut a, Key::Char('/'));
    write(&mut a, "AB:03");
    press(&mut a, Key::Enter);
    assert!(!a.filtering);
    let vis = a.visible_indices();
    assert_eq!(vis.len(), 1);
    assert_eq!(a.findings[vis[0]].mac, "00:00:00:00:ab:03");
    a.filter = Some("10.1.".to_string());
    assert_eq!(a.visible_indices().len(), 1);
    a.filter = Some("zzz".to_string());
    assert!(a.visible_indices().is_empty());
    assert!(a.selected_finding().is_none());
    // Deleting the last character drops the filter.
    a.filter = Some("z".to_string());
    press(&mut a, Key::Char('/'));
    press(&mut a, Key::Backspace);
    assert_eq!(a.filter, None);
    assert!(!a.filtering);
}

#[test]
fn a_device_can_be_accepted_for_the_session() {
    let mut a = with_results();
    assert!(matches!(press(&mut a, Key::Char('w')), Action::Reanalyze));
    assert_eq!(a.session_whitelist, vec![net("10.1.1.0/24")]);
    assert_eq!(said(&a), "10.1.1.0/24 marked as known (this session)");
    a.reapply_whitelist(&inventory(), &[net("192.168.1.0/24")]);
    assert_eq!(a.visible_indices().len(), 1);
    press(&mut a, Key::Char('w'));
    press(&mut a, Key::Char('w'));
    assert_eq!(a.session_whitelist.len(), 2);
}

#[test]
fn a_device_can_be_copied_probed_and_exported() {
    let mut a = with_results();
    match press(&mut a, Key::Char('y')) {
        Action::Copy { text } => assert_eq!(text, "00:00:00:00:ab:01"),
        _ => panic!("a copy was due"),
    }
    assert_eq!(said(&a), "MAC 00:00:00:00:ab:01 copied");
    match press(&mut a, Key::Char('p')) {
        Action::Probe { ip, iface } => {
            assert_eq!(ip, Ipv4Addr::new(10, 1, 1, 1));
            assert_eq!(probe_args(&iface, ip), vec!["-c", "1", "-W", "1", "-n", "-I", "eth0", "10.1.1.1"]);
            assert_eq!(probe_args(&None, ip), vec!["-c", "1", "-W", "1", "-n", "10.1.1.1"]);
        }
        _ => panic!("a probe was due"),
    }
    let ip = Ipv4Addr::new(10, 1, 1, 1);
    a.probe_done(ip, Some(true));
    assert_eq!(said(&a), "10.1.1.1 answered (alive)");
    a.probe_done(ip, Some(false));
    assert_eq!(said(&a), "10.1.1.1 did not answer");
    a.probe_done(ip, None);
    assert_eq!(said(&a), "could not probe 10.1.1.1");
    assert!(matches!(press(&mut a, Key::Char('e')), Action::Export));
    a.export_done(Ok("x + y".to_string()));
    assert_eq!(said(&a), "exported: x + y");
    a.export_done(Err("disk full".to_string()));
    assert_eq!(said(&a), "export failed: disk full");
}

#[test]
fn with_nothing_selected_there_is_nothing_to_do() {
    let mut a = app();
    a.pane = Pane::Results;
    assert!(matches!(press(&mut a, Key::Char('y')), Action::Nothing));
    assert!(a.toast.is_none());
    assert!(matches!(press(&mut a, Key::Char('w')), Action::Nothing));
    assert_eq!(said(&a), "host has no IPv4 to whitelist");
    assert!(matches!(press(&mut a, Key::Char('p')), Action::Nothing));
    assert_eq!(said(&a), "host has no IPv4 to probe");
    assert!(matches!(a.cancel_scan(), Action::Nothing));
}

#[test]
fn messages_fade_and_findings_refresh() {
    let mut a = app();
    a.toast("hello".to_string());
    a.clock += 4_000_000_000;
    a.tick_toast();
    assert_eq!(said(&a), "hello");
    a.clock += 1;
    a.tick_toast();
    assert!(a.toast.is_none());
    assert!(!a.refresh_due());
    a.scan = ScanState::Finished;
    assert!(a.refresh_due());
    a.last_refresh = a.clock;
    a.clock += 250_000_000;
    assert!(!a.refresh_due());
    a.clock += 1;
    assert!(a.refresh_due());
    a.result_idx = 99;
    a.refresh_findings(findings());
    assert_eq!(a.result_idx, 1);
    assert!(!a.refresh_due());
}

#[test]
fn flags_fill_the_form() {
    let mut a = app();
    let cli = Cli {
        iface: Some("eth1".to_string()),
        tui: true,
        expected: vec!["192.168.9.0/24".to_string()],
        excluded: vec!["10.0.0.0/8".to_string()],
        scope: Scope::Rfc1918,
        ranges: vec!["172.16.0.0/24".to_string()],
        passive_secs: 15,
        rate: 500,
        settle: 1,
        passes: 9,
        passive_only: false,
        no_ipv6: true,
        leases_file: Some("/x".to_string()),
        watch: false,
        watch_interval: 60,
        json: false,
        csv: false,
        all: false,
        spa: "dest".to_string(),
    };
    a.apply_cli(&cli);
    assert_eq!(a.iface_idx, 1);
    assert_eq!(a.scope, Scope::Rfc1918);
    assert_eq!((a.adv.rate, a.adv.settle, a.adv.passes, a.adv.no_ipv6), (500, 1, 9, true));
    assert_eq!(a.adv.passive_secs, 0);
    assert_eq!(a.adv.spa, "dest");
    assert_eq!(a.adv.leases_file, "/x");
    let rows: Vec<(&str, RangeKind)> = a.ranges.iter().map(|r| (r.text.as_str(), r.kind)).collect();
    assert_eq!(
        rows,
        vec![
            ("192.168.9.0/24", RangeKind::Expected),
            ("10.0.0.0/8", RangeKind::Ignored),
            ("172.16.0.0/24", RangeKind::Target)
        ]
    );
}

#[test]
fn the_form_is_drawn() {
    let mut a = app();
    a.ranges.push(RangeRow::new("bad".to_string(), RangeKind::Target));
    a.form_focus = FormFocus::Range(0);
    a.editing = Some("192".to_string());
    a.advanced_open = true;
    let lines: Vec<String> = render_form(&a).iter().map(|l| shown(l)).collect();
    let want = [
        "  Interface: eth0",
        "  Scope:     auto",
        "",
        "  Ranges (s sweeps the focused):",
        "  [ ]network [>]target [!]ignore",
        "› [ ] 192_",
        "  [>] bad",
        "",
        "  ▾ Advanced",
        "    spa       probe",
        "    rate      2000",
        "    settle    150",
        "    passes    2",
        "    no-ipv6   no",
        "    leases    —",
        "    passive-s 0",
    ];
    assert_eq!(lines, want.iter().map(|s| s.to_string()).collect::<Vec<_>>());
    assert_eq!(border(&a, Pane::Form), Tone::Accent);
    assert_eq!(border(&a, Pane::Results), Tone::Dim);
    assert_eq!(scope_label(Scope::Nothing), "ranges only");
}

#[test]
fn the_table_keeps_the_cursor_in_sight() {
    let mut a = with_results();
    press(&mut a, Key::Char('f'));
    assert_eq!(table_title(&a), " hosts (3, all) ");
    a.result_idx = 2;
    let lines = render_table(&a, 3);
    assert_eq!(lines.len(), 3);
    assert_eq!(shown(&lines[0]), "   MAC                IPv4             VENDOR                  FLAGS");
    assert_eq!(shown(&lines[1]), "●  00:00:00:00:ab:03  10.9.1.1         (?)                     OUTSIDE_SUBNET");
    assert_eq!(shown(&lines[2]), "·  00:00:00:00:ab:02  192.168.1.2      (?)                     ");
    assert!(matches!(lines[2][0].tone, Tone::Selected(_)));
    assert!(matches!(lines[1][0].tone, Tone::Severe(_)));
    let empty = app();
    assert_eq!(shown(&render_table(&empty, 10)[1]), "  (nothing yet — press r/Enter to sweep)");
    assert_eq!(table_title(&empty), " hosts (0, flagged only) ");
}

#[test]
fn the_selected_device_is_described() {
    let a = with_results();
    let lines: Vec<String> = render_detail(&a).iter().map(|l| shown(l)).collect();
    assert_eq!(lines[0], "00:00:00:00:ab:01  (vendor ?)");
    assert_eq!(lines[1], "IPv4: 10.1.1.1");
    assert!(lines[2].starts_with("OUTSIDE_SUBNET uses 10.1.1.1"));
    assert_eq!(lines[3], "seen via: arp-reply");
    assert_eq!(shown(&render_detail(&app())[0]), "no host selected");
}

#[test]
fn the_status_line_tells_the_progress() {
    assert_eq!(progress_label(Phase::Sweep, 3, 9, "33"), " ARP sweep 33% (3/9)");
    assert_eq!(progress_label(Phase::Done, 3, 9, "33"), " done");
    assert_eq!(progress_label(Phase::Passive, 0, 0, "0"), " passive listening...");
    let mut a = with_results();
    a.filter = Some("x".to_string());
    assert_eq!(shown(&render_status(&a, " done")), " filter: x    done   • sweep started");
    a.toast = None;
    a.scan = ScanState::Absent;
    a.filter = None;
    assert!(shown(&render_status(&a, " done")).starts_with("r/Enter run"));
}

#[test]
fn overlays_are_centred() {
    let area = Area { x: 0, y: 0, width: 80, height: 24 };
    assert_eq!(centered(area, 62, 22), Area { x: 9, y: 1, width: 62, height: 22 });
    assert_eq!(centered(area, 100, 12), Area { x: 0, y: 6, width: 80, height: 12 });
    assert_eq!(render_help().len(), 19);
    assert_eq!(shown(&render_help()[0]), "Global");
}

#[test]
fn glyphs_and_cuts() {
    let fs = findings();
    assert_eq!(severity_glyph(fs[0].severity), "●");
    assert_eq!(severity_glyph(fs[2].severity), "·");
    assert_eq!(trunc("abcdef", 4), "abc…");
}
