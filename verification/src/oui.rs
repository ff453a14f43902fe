//! Who made a device: vendor prefixes of hardware addresses.
use crate::addr::MacAddr;
use crate::text;
use vstd::hash_map::StringHashMap;
use vstd::prelude::*;

verus! {

broadcast use {vstd::seq::group_seq_axioms, vstd::map::group_map_axioms};

/// Prefix table with longest-prefix lookup, the way arp-scan does it: a vendor
/// may register anywhere from 2 to 12 hex digits.
pub struct OuiDb {
    pub vendors: StringHashMap<String>,
}

/// The prefixes that are known without a file, or worth highlighting.
pub open spec fn builtin() -> Map<Seq<char>, Seq<char>> {
    Map::<Seq<char>, Seq<char>>::empty().insert(
        "BC2411"@,
        "Proxmox Server Solutions (VM)"@,
    ).insert("525400"@, "QEMU/KVM (VM)"@).insert(
        "020000"@,
        "Locally administered (VM/container)"@,
    ).insert("0A0027"@, "VirtualBox host-only"@).insert("080027"@, "Oracle VirtualBox"@).insert(
        "000C29"@,
        "VMware"@,
    ).insert("005056"@, "VMware"@).insert("001C42"@, "Parallels"@).insert(
        "00155D"@,
        "Microsoft Hyper-V"@,
    ).insert("B827EB"@, "Raspberry Pi Foundation"@).insert("DCA632"@, "Raspberry Pi Trading"@).insert(
        "E45F01"@,
        "Raspberry Pi Trading"@,
    ).insert("2CCF67"@, "Raspberry Pi Ltd"@)
}

/// An ASCII letter in upper case; any other character as it is.
pub open spec fn upper(c: char) -> char {
    if 'a' <= c && c <= 'z' {
        (c as u32 - 32) as char
    } else {
        c
    }
}

/// A text with its ASCII letters in upper case.
pub open spec fn uppercase(s: Seq<char>) -> Seq<char> {
    Seq::new(s.len(), |i: int| upper(s[i]))
}

/// Where the first tab stands; the length of the text where there is none.
pub open spec fn tab_at(s: Seq<char>) -> int
    decreases s.len(),
{
    if s.len() == 0 || s[0] == '\t' {
        0
    } else {
        1 + tab_at(s.drop_first())
    }
}

/// The prefix and the vendor on one line: they stand on either side of the first
/// tab. Blank lines and lines that start with a hash hold none.
pub open spec fn oui_entry(line: Seq<char>) -> Option<(Seq<char>, Seq<char>)> {
    let t = text::trim(line);
    if t.len() == 0 || t[0] == '#' || tab_at(t) >= t.len() {
        None
    } else {
        Some(
            (
                uppercase(text::trim(t.take(tab_at(t)))),
                text::trim(t.skip(tab_at(t) + 1)),
            ),
        )
    }
}

/// The table with one entry more, unless the prefix is in it.
pub open spec fn with_entry(
    table: Map<Seq<char>, Seq<char>>,
    e: Option<(Seq<char>, Seq<char>)>,
) -> Map<Seq<char>, Seq<char>> {
    match e {
        Some((prefix, vendor)) => if table.contains_key(prefix) {
            table
        } else {
            table.insert(prefix, vendor)
        },
        None => table,
    }
}

/// The built-in table with what the lines of a file add to it, taken in order.
pub open spec fn with_lines(lines: Seq<Seq<char>>) -> Map<Seq<char>, Seq<char>>
    decreases lines.len(),
{
    if lines.len() == 0 {
        builtin()
    } else {
        with_entry(with_lines(lines.drop_last()), oui_entry(lines.last()))
    }
}

/// The table that a file gives; without a file, the built-in one.
pub open spec fn table_of(file: Option<Seq<char>>) -> Map<Seq<char>, Seq<char>> {
    match file {
        Some(txt) => with_lines(text::lines(txt)),
        None => builtin(),
    }
}

/// The twelve upper-case hex digits of a hardware address.
pub open spec fn hex_digits(m: MacAddr) -> Seq<char> {
    text::hex2_upper(m.0) + text::hex2_upper(m.1) + text::hex2_upper(m.2) + text::hex2_upper(m.3)
        + text::hex2_upper(m.4) + text::hex2_upper(m.5)
}

/// The vendor of the longest prefix in the table, of those with at most `n`
/// digits.
pub open spec fn longest_match(
    table: Map<Seq<char>, Seq<char>>,
    hex: Seq<char>,
    n: nat,
) -> Option<Seq<char>>
    decreases n,
{
    if table.contains_key(hex.take(n as int)) {
        Some(table[hex.take(n as int)])
    } else if n == 0 {
        None
    } else {
        longest_match(table, hex, (n - 1) as nat)
    }
}

impl View for OuiDb {
    type V = Map<Seq<char>, Seq<char>>;

    open spec fn view(&self) -> Map<Seq<char>, Seq<char>> {
        self.vendors@.map_values(|v: String| v@)
    }
}

fn ascii_upper(c: char) -> (r: char)
    ensures
        r == upper(c),
{
    if 'a' <= c && c <= 'z' {
        (c as u8 - 32) as char
    } else {
        c
    }
}

fn upper_string(cs: &[char]) -> (r: String)
    ensures
        r@ == uppercase(cs@),
{
    let mut out = String::new();
    let mut i: usize = 0;
    while i < cs.len()
        invariant
            i <= cs.len(),
            out@ == uppercase(cs@.take(i as int)),
        decreases cs.len() - i,
    {
        out.push(ascii_upper(cs[i]));
        assert(uppercase(cs@.take(i + 1)) =~= uppercase(cs@.take(i as int)).push(upper(cs@[i as int])));
        i = i + 1;
    }
    assert(cs@.take(cs.len() as int) =~= cs@);
    out
}

fn find_tab(cs: &[char]) -> (r: usize)
    ensures
        r == tab_at(cs@),
        r <= cs.len(),
{
    let mut i: usize = 0;
    assert(cs@.skip(0) =~= cs@);
    while i < cs.len() && cs[i] != '\t'
        invariant
            i <= cs.len(),
            i + tab_at(cs@.skip(i as int)) == tab_at(cs@),
        decreases cs.len() - i,
    {
        assert(cs@.skip(i as int).drop_first() =~= cs@.skip(i + 1));
        i = i + 1;
    }
    i
}

fn read_entry(line: &Vec<char>) -> (r: Option<(String, String)>)
    ensures
        match oui_entry(line@) {
            Some((p, v)) => r matches Some((a, b)) && a@ == p && b@ == v,
            None => r is None,
        },
{
    let t: Vec<char> = text::trimmed(line.as_slice());
    if t.len() == 0 || t[0] == '#' {
        return None;
    }
    let i: usize = find_tab(t.as_slice());
    if i >= t.len() {
        return None;
    }
    let head: &[char] = vstd::slice::slice_subrange(t.as_slice(), 0, i);
    let tail: &[char] = vstd::slice::slice_subrange(t.as_slice(), i + 1, t.len());
    assert(head@ =~= t@.take(i as int));
    assert(tail@ =~= t@.skip(i + 1));
    let prefix: Vec<char> = text::trimmed(head);
    let vendor: Vec<char> = text::trimmed(tail);
    Some((upper_string(prefix.as_slice()), text::string_of(vendor.as_slice())))
}

impl OuiDb {
    fn put(&mut self, prefix: &str, vendor: &str)
        ensures
            final(self)@ == old(self)@.insert(prefix@, vendor@),
    {
        let ghost before = self.vendors@;
        self.vendors.insert(prefix.to_owned(), vendor.to_owned());
        assert(self@ =~= old(self)@.insert(prefix@, vendor@));
    }

    /// The prefixes that are known without a file.
    fn known() -> (r: OuiDb)
        ensures
            r@ == builtin(),
    {
        let mut db = OuiDb { vendors: StringHashMap::new() };
        assert(db@ =~= Map::<Seq<char>, Seq<char>>::empty());
        db.put("BC2411", "Proxmox Server Solutions (VM)");
        db.put("525400", "QEMU/KVM (VM)");
        db.put("020000", "Locally administered (VM/container)");
        db.put("0A0027", "VirtualBox host-only");
        db.put("080027", "Oracle VirtualBox");
        db.put("000C29", "VMware");
        db.put("005056", "VMware");
        db.put("001C42", "Parallels");
        db.put("00155D", "Microsoft Hyper-V");
        db.put("B827EB", "Raspberry Pi Foundation");
        db.put("DCA632", "Raspberry Pi Trading");
        db.put("E45F01", "Raspberry Pi Trading");
        db.put("2CCF67", "Raspberry Pi Ltd");
        db
    }

    /// The built-in prefixes and those of an arp-scan prefix file, given its text.
    pub fn load(file: Option<&str>) -> (r: OuiDb)
        ensures
            r@ == table_of(match file {
                Some(txt) => Some(txt@),
                None => None,
            }),
    {
        let mut db = OuiDb::known();
        let txt: &str = match file {
            Some(t) => t,
            None => {
                return db;
            },
        };
        let cs: Vec<char> = text::chars_of(txt);
        let lines: Vec<Vec<char>> = text::split_lines(cs.as_slice());
        let ghost all = text::lines(txt@);
        let mut i: usize = 0;
        assert(all.take(0) =~= Seq::empty());
        while i < lines.len()
            invariant
                i <= lines.len(),
                text::runs(lines@) == all,
                db@ == with_lines(all.take(i as int)),
            decreases lines.len() - i,
        {
            assert(all[i as int] == lines@[i as int]@);
            assert(all.take(i + 1).drop_last() =~= all.take(i as int));
            assert(all.take(i + 1).last() == all[i as int]);
            if let Some((prefix, vendor)) = read_entry(&lines[i]) {
                // Do not overwrite the builtin, which is more specific for VMs.
                if !db.vendors.contains_key(prefix.as_str()) {
                    db.put(prefix.as_str(), vendor.as_str());
                }
            }
            i = i + 1;
        }
        assert(all.take(lines.len() as int) =~= all);
        db
    }

    /// The vendor with the longest prefix that the address starts with.
    pub fn lookup(&self, mac: MacAddr) -> (r: Option<&str>)
        ensures
            match longest_match(self@, hex_digits(mac), 12) {
                Some(v) => r matches Some(x) && x@ == v,
                None => r is None,
            },
    {
        let mut hex: Vec<char> = Vec::new();
        text::push_hex_upper(&mut hex, mac.0);
        text::push_hex_upper(&mut hex, mac.1);
        text::push_hex_upper(&mut hex, mac.2);
        text::push_hex_upper(&mut hex, mac.3);
        text::push_hex_upper(&mut hex, mac.4);
        text::push_hex_upper(&mut hex, mac.5);
        assert(hex@ =~= hex_digits(mac));
        let mut n: usize = 12;
        loop
            invariant
                n <= 12,
                hex@.len() == 12,
                hex@ == hex_digits(mac),
                longest_match(self@, hex@, n as nat) == longest_match(self@, hex@, 12),
            decreases n,
        {
            let key = text::string_of(vstd::slice::slice_subrange(hex.as_slice(), 0, n));
            assert(key@ =~= hex@.take(n as int));
            match self.vendors.get(key.as_str()) {
                Some(v) => {
                    return Some(v.as_str());
                },
                None => {},
            }
            if n == 0 {
                return None;
            }
            n = n - 1;
        }
    }
}

/// MACs with the "locally administered" bit set are usually a VM, a container or
/// a randomised address: the second lowest bit of the first octet.
pub open spec fn locally_administered(mac: MacAddr) -> bool {
    mac.0 / 2 % 2 == 1
}

/// Is the "locally administered" bit set? Useful context when judging an unknown
/// device.
pub fn is_locally_administered(mac: MacAddr) -> (r: bool)
    ensures
        r == locally_administered(mac),
{
    mac.0 / 2 % 2 == 1
}

/// A file never overrides what is built in: every built-in prefix keeps its
/// vendor.
pub proof fn builtin_prefixes_win(lines: Seq<Seq<char>>, prefix: Seq<char>)
    requires
        builtin().contains_key(prefix),
    ensures
        with_lines(lines).contains_key(prefix),
        with_lines(lines)[prefix] == builtin()[prefix],
    decreases lines.len(),
{
    if lines.len() > 0 {
        builtin_prefixes_win(lines.drop_last(), prefix);
    }
}

/// A match is the vendor of a prefix of the address, and no longer prefix of it is
/// in the table; without a match none is.
pub proof fn longest_match_is_longest(
    table: Map<Seq<char>, Seq<char>>,
    hex: Seq<char>,
    n: nat,
)
    ensures
        match longest_match(table, hex, n) {
            Some(v) => exists|k: nat|
                k <= n && #[trigger] table.contains_key(hex.take(k as int)) && table[hex.take(
                    k as int,
                )] == v && forall|j: nat|
                    k < j <= n ==> !#[trigger] table.contains_key(hex.take(j as int)),
            None => forall|j: nat| j <= n ==> !#[trigger] table.contains_key(hex.take(j as int)),
        },
    decreases n,
{
    if table.contains_key(hex.take(n as int)) {
        assert(table[hex.take(n as int)] == longest_match(table, hex, n)->0);
    } else if n > 0 {
        longest_match_is_longest(table, hex, (n - 1) as nat);
        if longest_match(table, hex, n) is Some {
            let m = (n - 1) as nat;
            let v = longest_match(table, hex, n)->0;
            let k = choose|k: nat|
                k <= m && #[trigger] table.contains_key(hex.take(k as int)) && table[hex.take(
                    k as int,
                )] == v && forall|j: nat|
                    k < j <= m ==> !#[trigger] table.contains_key(hex.take(j as int));
            assert(table.contains_key(hex.take(k as int)));
        }
    }
}

// ---------------------------------------------------------------------
// What holds of every table
// ---------------------------------------------------------------------

/// The digits of a hardware address are those of its colon form, in upper case and
/// without the colons.
pub proof fn digits_of_the_colon_form(m: MacAddr, k: int)
    requires
        0 <= k < 6,
    ensures
        hex_digits(m).len() == 12,
        hex_digits(m)[2 * k] == upper(m.text()[3 * k]),
        hex_digits(m)[2 * k + 1] == upper(m.text()[3 * k + 1]),
{
    let (h, t) = (hex_digits(m), m.text());
    assert(k == 0 || k == 1 || k == 2 || k == 3 || k == 4 || k == 5);
    assert(forall|d: nat| d < 16 ==> upper(#[trigger] text::hex_lower(d)) == text::hex_upper(d));
}

/// A letter in upper case is the letter in the same place of the upper-case alphabet;
/// nothing else changes.
pub proof fn upper_case_moves_letters(c: char)
    ensures
        'a' <= c <= 'z' ==> 'A' <= upper(c) <= 'Z' && upper(c) as int - 'A' as int == c as int
            - 'a' as int,
        !('a' <= c <= 'z') ==> upper(c) == c,
        upper(upper(c)) == upper(c),
{
}

/// A line that was written is read: the prefix in front of the first tab, in upper case,
/// and the vendor behind it, whatever white space stands around either.
pub proof fn a_written_entry_is_read(
    a: Seq<char>,
    prefix: Seq<char>,
    b: Seq<char>,
    c: Seq<char>,
    vendor: Seq<char>,
    d: Seq<char>,
)
    requires
        text::blank(a),
        text::blank(b),
        text::blank(c),
        text::blank(d),
        text::is_word(prefix),
        prefix[0] != '#',
        !b.contains('\t'),
        vendor.len() > 0,
        !text::is_white(vendor[0]),
        !text::is_white(vendor.last()),
    ensures
        oui_entry(a + (prefix + b + seq!['\t'] + c + vendor) + d) == Some(
            (Seq::new(prefix.len(), |i: int| upper(prefix[i])), vendor),
        ),
{
    let t = prefix + b + seq!['\t'] + c + vendor;
    assert(t[0] == prefix[0]);
    assert(t.last() == vendor.last());
    text::trimming_cuts_only_white_space(a, t, d);
    let head = prefix + b;
    assert forall|i: int| 0 <= i < head.len() implies #[trigger] t[i] != '\t' by {
        if i < prefix.len() {
            assert(t[i] == prefix[i]);
        } else {
            assert(t[i] == b[i - prefix.len()]);
            assert(b.contains(b[i - prefix.len()]));
        }
    }
    assert(t[head.len() as int] == '\t');
    lemma_tab_at(t, head.len() as int);
    assert(t.take(head.len() as int) =~= head);
    assert(head =~= Seq::empty() + prefix + b);
    text::trimming_cuts_only_white_space(Seq::empty(), prefix, b);
    assert(t.skip(head.len() as int + 1) =~= c + vendor);
    assert(c + vendor =~= c + vendor + Seq::empty());
    text::trimming_cuts_only_white_space(c, vendor, Seq::empty());
}

proof fn lemma_tab_at(s: Seq<char>, n: int)
    requires
        0 <= n <= s.len(),
        forall|i: int| 0 <= i < n ==> #[trigger] s[i] != '\t',
        n < s.len() ==> s[n] == '\t',
    ensures
        tab_at(s) == n,
    decreases s.len(),
{
    if n > 0 {
        let r = s.drop_first();
        assert(s[0] != '\t');
        assert forall|i: int| 0 <= i < n - 1 implies #[trigger] r[i] != '\t' by {
            assert(r[i] == s[i + 1]);
        }
        if n < s.len() {
            assert(r[n - 1] == s[n]);
        }
        lemma_tab_at(r, n - 1);
    }
}

/// A comment and a line without a tab hold no entry.
pub proof fn comments_hold_nothing(lead: Seq<char>, line: Seq<char>)
    requires
        text::blank(lead),
        line.len() > 0,
        !text::is_white(line[0]),
        !text::is_white(line.last()),
        line[0] == '#' || !line.contains('\t'),
    ensures
        oui_entry(lead + line) is None,
        oui_entry(lead) is None,
{
    assert(lead + line =~= lead + line + Seq::empty());
    text::trimming_cuts_only_white_space(lead, line, Seq::empty());
    assert(lead =~= lead + Seq::empty() + Seq::empty());
    text::trimming_cuts_only_white_space(lead, Seq::empty(), Seq::empty());
    if !line.contains('\t') {
        assert forall|i: int| 0 <= i < line.len() implies #[trigger] line[i] != '\t' by {
            assert(line.contains(line[i]));
        }
        lemma_tab_at(line, line.len() as int);
    }
}

/// Of a prefix that is not built in, the first line of a file that gives it counts; one
/// that no line gives is not in the table.
pub proof fn the_first_entry_counts(lines: Seq<Seq<char>>, prefix: Seq<char>, k: int)
    requires
        !builtin().contains_key(prefix),
        0 <= k <= lines.len(),
        k < lines.len() ==> (oui_entry(lines[k]) matches Some(e) && e.0 == prefix),
        forall|j: int|
            0 <= j < k ==> !(oui_entry(#[trigger] lines[j]) matches Some(e) && e.0 == prefix),
    ensures
        k < lines.len() ==> with_lines(lines).contains_key(prefix) && with_lines(lines)[prefix] == (
        oui_entry(lines[k])->0).1,
        k == lines.len() ==> !with_lines(lines).contains_key(prefix),
    decreases lines.len(),
{
    if lines.len() > 0 {
        let init = lines.drop_last();
        let m = if k < lines.len() {
            if k < init.len() {
                k
            } else {
                init.len() as int
            }
        } else {
            init.len() as int
        };
        assert forall|j: int| 0 <= j < m implies !(oui_entry(#[trigger] init[j]) matches Some(e) && e.0
            == prefix) by {
            assert(init[j] == lines[j]);
        }
        if m < init.len() {
            assert(init[m] == lines[m]);
        }
        assert(lines.last() == lines[lines.len() - 1]);
        the_first_entry_counts(init, prefix, m);
    }
}

/// The vendor of a device is that of any prefix of its digits in the table, unless a
/// longer prefix is there as well.
pub proof fn a_prefix_is_found(table: Map<Seq<char>, Seq<char>>, m: MacAddr, k: int)
    requires
        0 <= k <= 12,
        table.contains_key(hex_digits(m).take(k)),
        forall|j: int| k < j <= 12 ==> !table.contains_key(#[trigger] hex_digits(m).take(j)),
    ensures
        longest_match(table, hex_digits(m), 12) == Some(table[hex_digits(m).take(k)]),
{
    lemma_prefix_is_found(table, hex_digits(m), k, 12);
}

proof fn lemma_prefix_is_found(table: Map<Seq<char>, Seq<char>>, hex: Seq<char>, k: int, n: nat)
    requires
        0 <= k <= n,
        table.contains_key(hex.take(k)),
        forall|j: int| k < j <= n ==> !table.contains_key(#[trigger] hex.take(j)),
    ensures
        longest_match(table, hex, n) == Some(table[hex.take(k)]),
    decreases n,
{
    if k < n {
        assert(!table.contains_key(hex.take(n as int)));
        lemma_prefix_is_found(table, hex, k, (n - 1) as nat);
    }
}

/// The bit that tells a locally administered address is worth two in the first octet.
pub proof fn the_local_bit_tells(m: MacAddr)
    ensures
        locally_administered(m) <==> m.0 & 2 != 0,
{
    let a = m.0;
    assert(a / 2 % 2 == 1 <==> a & 2 != 0) by (bit_vector);
}

/// The vendor of a device by its first three octets, where it is built in.
pub open spec fn builtin_vendor(m: MacAddr) -> Option<Seq<char>> {
    match (m.0, m.1, m.2) {
        (0xbc, 0x24, 0x11) => Some("Proxmox Server Solutions (VM)"@),
        (0x52, 0x54, 0x00) => Some("QEMU/KVM (VM)"@),
        (0x02, 0x00, 0x00) => Some("Locally administered (VM/container)"@),
        (0x0a, 0x00, 0x27) => Some("VirtualBox host-only"@),
        (0x08, 0x00, 0x27) => Some("Oracle VirtualBox"@),
        (0x00, 0x0c, 0x29) => Some("VMware"@),
        (0x00, 0x50, 0x56) => Some("VMware"@),
        (0x00, 0x1c, 0x42) => Some("Parallels"@),
        (0x00, 0x15, 0x5d) => Some("Microsoft Hyper-V"@),
        (0xb8, 0x27, 0xeb) => Some("Raspberry Pi Foundation"@),
        (0xdc, 0xa6, 0x32) => Some("Raspberry Pi Trading"@),
        (0xe4, 0x5f, 0x01) => Some("Raspberry Pi Trading"@),
        (0x2c, 0xcf, 0x67) => Some("Raspberry Pi Ltd"@),
        _ => None,
    }
}

/// The digits of three octets.
pub open spec fn six_digits(a: u8, b: u8, c: u8) -> Seq<char> {
    text::hex2_upper(a) + text::hex2_upper(b) + text::hex2_upper(c)
}

proof fn lemma_six_digits(k: Seq<char>, a: u8, b: u8, c: u8)
    requires
        k.len() == 6,
        k[0] == text::hex_upper((a / 16) as nat),
        k[1] == text::hex_upper((a % 16) as nat),
        k[2] == text::hex_upper((b / 16) as nat),
        k[3] == text::hex_upper((b % 16) as nat),
        k[4] == text::hex_upper((c / 16) as nat),
        k[5] == text::hex_upper((c % 16) as nat),
    ensures
        k == six_digits(a, b, c),
{
    assert(k =~= six_digits(a, b, c));
}

proof fn lemma_six_digits_differ(a: u8, b: u8, c: u8, x: u8, y: u8, z: u8)
    requires
        six_digits(a, b, c) == six_digits(x, y, z),
    ensures
        a == x,
        b == y,
        c == z,
{
    let (s, t) = (six_digits(a, b, c), six_digits(x, y, z));
    assert(s[0] == t[0] && s[1] == t[1] && s[2] == t[2] && s[3] == t[3] && s[4] == t[4] && s[5] == t[5]);
    lemma_digit_differs((a / 16) as nat, (x / 16) as nat);
    lemma_digit_differs((a % 16) as nat, (x % 16) as nat);
    lemma_digit_differs((b / 16) as nat, (y / 16) as nat);
    lemma_digit_differs((b % 16) as nat, (y % 16) as nat);
    lemma_digit_differs((c / 16) as nat, (z / 16) as nat);
    lemma_digit_differs((c % 16) as nat, (z % 16) as nat);
}

proof fn lemma_digit_differs(d: nat, e: nat)
    requires
        d < 16,
        e < 16,
        text::hex_upper(d) == text::hex_upper(e),
    ensures
        d == e,
{
}

/// The thirteen prefixes that are built in, by their digits.
proof fn lemma_builtin_keys()
    ensures
        "BC2411"@ == six_digits(0xbc, 0x24, 0x11),
        "525400"@ == six_digits(0x52, 0x54, 0x00),
        "020000"@ == six_digits(0x02, 0x00, 0x00),
        "0A0027"@ == six_digits(0x0a, 0x00, 0x27),
        "080027"@ == six_digits(0x08, 0x00, 0x27),
        "000C29"@ == six_digits(0x00, 0x0c, 0x29),
        "005056"@ == six_digits(0x00, 0x50, 0x56),
        "001C42"@ == six_digits(0x00, 0x1c, 0x42),
        "00155D"@ == six_digits(0x00, 0x15, 0x5d),
        "B827EB"@ == six_digits(0xb8, 0x27, 0xeb),
        "DCA632"@ == six_digits(0xdc, 0xa6, 0x32),
        "E45F01"@ == six_digits(0xe4, 0x5f, 0x01),
        "2CCF67"@ == six_digits(0x2c, 0xcf, 0x67),
{
    reveal_strlit("BC2411");
    reveal_strlit("525400");
    reveal_strlit("020000");
    reveal_strlit("0A0027");
    reveal_strlit("080027");
    reveal_strlit("000C29");
    reveal_strlit("005056");
    reveal_strlit("001C42");
    reveal_strlit("00155D");
    reveal_strlit("B827EB");
    reveal_strlit("DCA632");
    reveal_strlit("E45F01");
    reveal_strlit("2CCF67");
    lemma_six_digits("BC2411"@, 0xbc, 0x24, 0x11);
    lemma_six_digits("525400"@, 0x52, 0x54, 0x00);
    lemma_six_digits("020000"@, 0x02, 0x00, 0x00);
    lemma_six_digits("0A0027"@, 0x0a, 0x00, 0x27);
    lemma_six_digits("080027"@, 0x08, 0x00, 0x27);
    lemma_six_digits("000C29"@, 0x00, 0x0c, 0x29);
    lemma_six_digits("005056"@, 0x00, 0x50, 0x56);
    lemma_six_digits("001C42"@, 0x00, 0x1c, 0x42);
    lemma_six_digits("00155D"@, 0x00, 0x15, 0x5d);
    lemma_six_digits("B827EB"@, 0xb8, 0x27, 0xeb);
    lemma_six_digits("DCA632"@, 0xdc, 0xa6, 0x32);
    lemma_six_digits("E45F01"@, 0xe4, 0x5f, 0x01);
    lemma_six_digits("2CCF67"@, 0x2c, 0xcf, 0x67);
}

/// Without a file a device has the vendor that its first three octets stand for, and
/// none where they are not built in.
#[verifier::rlimit(40)]
pub proof fn builtin_vendors_are_found(m: MacAddr)
    ensures
        longest_match(builtin(), hex_digits(m), 12) == builtin_vendor(m),
{
    lemma_builtin_keys();
    let hex = hex_digits(m);
    let head = six_digits(m.0, m.1, m.2);
    assert(hex.take(6) =~= head);
    assert forall|a: u8, b: u8, c: u8| #[trigger] six_digits(a, b, c) == head implies a == m.0 && b == m.1
        && c == m.2 by {
        lemma_six_digits_differ(a, b, c, m.0, m.1, m.2);
    }
    assert(forall|k: Seq<char>| #[trigger] builtin().contains_key(k) ==> k.len() == 6) by {
        assert(forall|a: u8, b: u8, c: u8| (#[trigger] six_digits(a, b, c)).len() == 6);
    }
    assert forall|j: int| 0 <= j <= 12 && j != 6 implies !builtin().contains_key(#[trigger] hex.take(j)) by {
        assert(hex.take(j).len() == j);
    }
    longest_match_is_longest(builtin(), hex, 12);
    if builtin().contains_key(head) {
        a_prefix_is_found(builtin(), m, 6);
    }
}

} // verus!
