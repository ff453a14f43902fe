use ipscan::addr::{Ipv4Addr, Ipv6Addr, MacAddr};
use ipscan::capture::{Event, Source};
use ipscan::correlate::{analyze, Finding, Severity};
use ipscan::dhcp::{DhcpObservation, MsgType};
use ipscan::inventory::Inventory;
use ipscan::net::Ipv4Net;
use ipscan::oui::OuiDb;
use ipscan::report::{
    another_pass, csv, fmt_secs, join_codes, output_for, q, table, truncate, Output, Style,
};
use ipscan::tui::export;

const PLAIN: Style = Style { on: false };
const COLOUR: Style = Style { on: true };

fn findings() -> Vec<Finding> {
    let mut inv = Inventory::new();
    inv.apply(Event::V4 {
        mac: MacAddr::new(0, 0, 0, 0, 0, 0x11),
        ip: Ipv4Addr::new(10, 37, 129, 88),
        src: Source::ArpReply,
    });
    inv.apply(Event::V6 {
        mac: MacAddr::new(0xbc, 0x24, 0x11, 0, 0, 1),
        ip: Ipv6Addr { bits: (0xfe80 << 112) | 1 },
    });
    inv.apply(Event::Dhcp(Box::new(DhcpObservation {
        client_mac: MacAddr::new(2, 0, 0, 0, 0, 0x22),
        msg_type: MsgType::Ack,
        assigned: Some(Ipv4Addr::new(192, 168, 1, 7)),
        requested: None,
        hostname: Some("a,\"b\"".to_string()),
        lease_secs: Some(7_200),
        server: Some(Ipv4Addr::new(192, 168, 1, 1)),
    })));
    analyze(&inv, &[Ipv4Net::parse("192.168.1.0/24").unwrap()], &OuiDb::load(None))
}

#[test]
fn the_table_shows_what_is_flagged() {
    let lines = table(&findings(), false, PLAIN);
    let want = [
        "",
        "MAC                IPv4          VENDOR                        FLAGS",
        &"-".repeat(17 + 12 + 28 + 24),
        "00:00:00:00:00:11  10.37.129.88  (unknown)                     OUTSIDE_SUBNET",
        "                   └─ uses 10.37.129.88 — outside every expected subnet; static IP set on the device itself",
        "                   └─ seen via: arp-reply",
        "bc:24:11:00:00:01  —             Proxmox Server Solutions (V…  L2_ONLY",
        "                   └─ answers on the link but never revealed an IPv4 — likely a silent static address; raise --passive-secs or widen --scope",
        "                   └─ seen via: ipv6-ndp",
        "",
        "3 host(s) inventoried · 2 critical · 0 high",
    ];
    assert_eq!(lines, want.iter().map(|s| s.to_string()).collect::<Vec<_>>());
}

#[test]
fn the_table_shows_everything_when_asked() {
    let lines = table(&findings(), true, PLAIN);
    let at = lines.iter().position(|l| l.starts_with("02:00:00:00:00:22")).unwrap();
    assert_eq!(lines[at], "02:00:00:00:00:22  192.168.1.7   Locally administered (VM/co…  ");
    assert_eq!(lines[at + 1], "                   └─ DHCP lease: 192.168.1.7 for 2h from server 192.168.1.1");
    assert_eq!(lines[at + 2], "                   └─ DHCP hostname: a,\"b\"");
    assert_eq!(lines[at + 3], "                   └─ seen via: dhcp");
}

#[test]
fn an_empty_table_says_so() {
    assert_eq!(
        table(&vec![], false, PLAIN),
        vec!["\nNo host looks anomalous. 0 device(s) inventoried — use -a to see them all.".to_string()]
    );
}

#[test]
fn colours_wrap_the_text() {
    assert_eq!(COLOUR.sev(Severity::Critical, "x"), "\x1b[1;31mx\x1b[0m");
    assert_eq!(COLOUR.sev(Severity::High, "x"), "\x1b[1;33mx\x1b[0m");
    assert_eq!(COLOUR.sev(Severity::Info, "x"), "\x1b[2mx\x1b[0m");
    assert_eq!(COLOUR.bold("x"), "\x1b[1mx\x1b[0m");
    assert_eq!(COLOUR.dim("x"), "\x1b[2mx\x1b[0m");
    assert_eq!(PLAIN.sev(Severity::Critical, "x"), "x");
    let lines = table(&findings(), false, COLOUR);
    assert!(lines[3].ends_with("\x1b[1;31mOUTSIDE_SUBNET\x1b[0m"));
    assert!(lines[1].starts_with("\x1b[1mMAC"));
}

#[test]
fn csv_has_a_line_per_host() {
    let lines = csv(&findings());
    assert_eq!(lines[0], "mac,ipv4,ipv6,vendor,hostname,dhcp_lease,severity,flags,seen_via");
    assert_eq!(lines[1], "00:00:00:00:00:11,10.37.129.88,,,,,Critical,OUTSIDE_SUBNET,arp-reply");
    assert_eq!(
        lines[2],
        "bc:24:11:00:00:01,,fe80::1,Proxmox Server Solutions (VM),,,Critical,L2_ONLY,ipv6-ndp"
    );
    assert_eq!(
        lines[3],
        "02:00:00:00:00:22,192.168.1.7,,Locally administered (VM/container),\"a,\"\"b\"\"\",192.168.1.7,Info,,dhcp"
    );
    assert_eq!(lines.len(), 4);
}

#[test]
fn the_export_is_a_shorter_csv() {
    assert_eq!(
        export::csv_text(&findings()),
        "mac,ipv4,vendor,hostname,lease,severity,flags\n\
         00:00:00:00:00:11,10.37.129.88,,,,Critical,OUTSIDE_SUBNET\n\
         bc:24:11:00:00:01,,Proxmox Server Solutions (VM),,,Critical,L2_ONLY\n\
         02:00:00:00:00:22,192.168.1.7,Locally administered (VM/container),\"a,\"\"b\"\"\",192.168.1.7,Info,\n"
    );
    assert_eq!(export::json_name(17), "ipscan-17.json");
    assert_eq!(export::csv_name(17), "ipscan-17.csv");
    assert_eq!(export::both_names(17), "ipscan-17.json + ipscan-17.csv");
}

#[test]
fn fields_are_quoted_where_they_must() {
    assert_eq!(q("plain"), "plain");
    assert_eq!(q("a,b"), "\"a,b\"");
    assert_eq!(q("say \"hi\""), "\"say \"\"hi\"\"\"");
    assert_eq!(export::csv_q("a,b"), "\"a,b\"");
}

#[test]
fn small_texts() {
    assert_eq!(fmt_secs(119), "119s");
    assert_eq!(fmt_secs(120), "2min");
    assert_eq!(fmt_secs(7_199), "119min");
    assert_eq!(fmt_secs(7_200), "2h");
    assert_eq!(truncate("abcdef", 6), "abcdef");
    assert_eq!(truncate("abcdef", 5), "abcd…");
    assert_eq!(truncate("äöüß", 3), "äö…");
    assert_eq!(truncate("abc", 0), "…");
    assert_eq!(join_codes(&findings()[0].flags), "OUTSIDE_SUBNET");
}

#[test]
fn one_output_is_chosen() {
    assert_eq!(output_for(true, true, true), Output::Fresh);
    assert_eq!(output_for(false, true, true), Output::Json);
    assert_eq!(output_for(false, false, true), Output::Csv);
    assert_eq!(output_for(false, false, false), Output::Table);
    assert!(another_pass(true, false));
    assert!(!another_pass(true, true));
    assert!(!another_pass(false, false));
}
