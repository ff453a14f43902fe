use ipscan::addr::MacAddr;
use ipscan::oui::{is_locally_administered, OuiDb};

#[test]
fn longest_prefix_uses_the_builtin_for_vms() {
    let db = OuiDb::load(None);
    // Proxmox lives in the builtin table (a 6-digit prefix)
    let mac = MacAddr::new(0xbc, 0x24, 0x11, 0xa8, 0xaf, 0x41);
    let v = db.lookup(mac).unwrap_or("");
    assert!(v.contains("Proxmox"), "expected Proxmox, got {:?}", v);
}

#[test]
fn locally_administered_bit() {
    // second least significant bit of the first octet
    assert!(is_locally_administered(MacAddr::new(0x02, 0, 0, 0, 0, 0)));
    assert!(is_locally_administered(MacAddr::new(0xaa, 0, 0, 0, 0, 0)));
    assert!(!is_locally_administered(MacAddr::new(0xf0, 0xda, 0x5e, 0, 0, 0)));
}

#[test]
fn a_file_adds_but_never_overrides() {
    let file = "# prefixes\n\nbc2411\tSomebody else\n001122\t Acme Inc \n0011223\tAcme Labs\n00\tShort\nno tab here\n";
    let db = OuiDb::load(Some(file));
    assert_eq!(db.lookup(MacAddr::new(0xbc, 0x24, 0x11, 0, 0, 0)), Some("Proxmox Server Solutions (VM)"));
    assert_eq!(db.lookup(MacAddr::new(0x00, 0x11, 0x22, 0x40, 0, 0)), Some("Acme Inc"));
    assert_eq!(db.lookup(MacAddr::new(0x00, 0x11, 0x22, 0x3f, 0, 0)), Some("Acme Labs"));
    assert_eq!(db.lookup(MacAddr::new(0x00, 0xff, 0, 0, 0, 0)), Some("Short"));
    assert_eq!(db.lookup(MacAddr::new(0x10, 0, 0, 0, 0, 0)), None);
}

#[test]
fn the_first_line_of_a_prefix_counts() {
    let db = OuiDb::load(Some("AABBCC\tFirst\naabbcc\tSecond\n"));
    assert_eq!(db.lookup(MacAddr::new(0xaa, 0xbb, 0xcc, 1, 2, 3)), Some("First"));
}
