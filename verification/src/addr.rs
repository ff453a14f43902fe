//! Hardware and protocol addresses, and their textual forms.
use crate::text;
use vstd::prelude::*;

verus! {

broadcast use vstd::seq::group_seq_axioms;

// ---------------------------------------------------------------------
// IPv4
// ---------------------------------------------------------------------

/// An IPv4 address, as the number its four octets make up.
#[derive(Debug, Clone, Copy, PartialEq, Eq, Structural)]
pub struct Ipv4Addr {
    pub bits: u32,
}

/// The number that four octets make up, most significant first.
pub open spec fn quad(a: u8, b: u8, c: u8, d: u8) -> u32 {
    (a * 0x100_0000 + b * 0x1_0000 + c * 0x100 + d) as u32
}

/// A number made up of four octets gives them back.
pub proof fn lemma_quad_octets(a: u8, b: u8, c: u8, d: u8)
    ensures
        quad(a, b, c, d) == a * 0x100_0000 + b * 0x1_0000 + c * 0x100 + d,
        quad(a, b, c, d) / 0x100_0000 == a,
        quad(a, b, c, d) / 0x1_0000 % 0x100 == b,
        quad(a, b, c, d) / 0x100 % 0x100 == c,
        quad(a, b, c, d) % 0x100 == d,
{
    let n: int = a * 0x100_0000 + b * 0x1_0000 + c * 0x100 + d;
    let n2: int = a * 0x1_0000 + b * 0x100 + c;
    let n1: int = a * 0x100 + b;
    assert(n / 0x100 == n2);
    assert(n % 0x100 == d);
    assert(n / 0x1_0000 == n1);
    assert(n / 0x100_0000 == a);
    assert(n2 % 0x100 == c);
    assert(n1 % 0x100 == b);
}

impl Ipv4Addr {
    /// Octet `i`, counted from the left.
    pub open spec fn octet(self, i: int) -> u8 {
        if i == 0 {
            (self.bits / 0x100_0000) as u8
        } else if i == 1 {
            (self.bits / 0x1_0000 % 0x100) as u8
        } else if i == 2 {
            (self.bits / 0x100 % 0x100) as u8
        } else {
            (self.bits % 0x100) as u8
        }
    }

    /// The address with the given octets.
    pub fn new(a: u8, b: u8, c: u8, d: u8) -> (r: Ipv4Addr)
        ensures
            r.bits == quad(a, b, c, d),
            r.octet(0) == a,
            r.octet(1) == b,
            r.octet(2) == c,
            r.octet(3) == d,
    {
        proof {
            lemma_quad_octets(a, b, c, d);
        }
        Ipv4Addr { bits: a as u32 * 0x100_0000 + b as u32 * 0x1_0000 + c as u32 * 0x100 + d as u32 }
    }

    /// The four octets.
    pub fn octets(&self) -> (r: [u8; 4])
        ensures
            forall|i: int| 0 <= i < 4 ==> r@[i] == self.octet(i),
            self.bits == quad(r@[0], r@[1], r@[2], r@[3]),
    {
        [
            (self.bits / 0x100_0000) as u8,
            (self.bits / 0x1_0000 % 0x100) as u8,
            (self.bits / 0x100 % 0x100) as u8,
            (self.bits % 0x100) as u8,
        ]
    }

    /// 0.0.0.0.
    pub fn unspecified() -> (r: Ipv4Addr)
        ensures
            r.bits == 0,
    {
        Ipv4Addr { bits: 0 }
    }

    /// Is it 0.0.0.0?
    pub fn is_unspecified(&self) -> (r: bool)
        ensures
            r == (self.bits == 0),
    {
        self.bits == 0
    }

    /// Is it 255.255.255.255?
    pub fn is_broadcast(&self) -> (r: bool)
        ensures
            r == (self.bits == 0xffff_ffff),
    {
        self.bits == 0xffff_ffff
    }

    /// 224.0.0.0 to 239.255.255.255.
    pub open spec fn multicast(self) -> bool {
        224 <= self.octet(0) <= 239
    }

    /// Is it a multicast address?
    pub fn is_multicast(&self) -> (r: bool)
        ensures
            r == self.multicast(),
    {
        let a: u8 = self.octets()[0];
        224 <= a && a <= 239
    }

    /// The private blocks: 10/8, 172.16/12 and 192.168/16.
    pub open spec fn rfc1918(self) -> bool {
        ||| self.octet(0) == 10
        ||| self.octet(0) == 172 && 16 <= self.octet(1) <= 31
        ||| self.octet(0) == 192 && self.octet(1) == 168
    }

    /// Is it in one of the private blocks?
    pub fn is_private(&self) -> (r: bool)
        ensures
            r == self.rfc1918(),
    {
        let o: [u8; 4] = self.octets();
        o[0] == 10 || (o[0] == 172 && 16 <= o[1] && o[1] <= 31) || (o[0] == 192 && o[1] == 168)
    }

    /// The dotted form: the octets in decimal, a period between them.
    pub open spec fn text(self) -> Seq<char> {
        text::dec(self.octet(0) as nat) + seq!['.'] + text::dec(self.octet(1) as nat) + seq!['.'] + text::dec(
            self.octet(2) as nat,
        ) + seq!['.'] + text::dec(self.octet(3) as nat)
    }

    /// Writes the dotted form.
    pub fn to_string(&self) -> (r: String)
        ensures
            r@ == self.text(),
    {
        let o: [u8; 4] = self.octets();
        let mut s = String::new();
        text::push_dec(&mut s, o[0] as u64);
        s.push('.');
        text::push_dec(&mut s, o[1] as u64);
        s.push('.');
        text::push_dec(&mut s, o[2] as u64);
        s.push('.');
        text::push_dec(&mut s, o[3] as u64);
        s
    }

    /// The address that a text is the dotted form of.
    pub open spec fn parsed(s: Seq<char>) -> Option<Ipv4Addr> {
        if exists|ip: Ipv4Addr| s == #[trigger] ip.text() {
            Some(choose|ip: Ipv4Addr| s == #[trigger] ip.text())
        } else {
            None
        }
    }

    /// Reads the dotted form: `Some` on exactly the texts that some address is
    /// written as.
    pub fn parse(s: &str) -> (r: Option<Ipv4Addr>)
        ensures
            r == Ipv4Addr::parsed(s@),
            r matches Some(ip) ==> s@ == ip.text(),
            r is None ==> forall|ip: Ipv4Addr| s@ != #[trigger] ip.text(),
    {
        let cs: Vec<char> = text::chars_of(s);
        let r = parse_quad(cs.as_slice());
        proof {
            if r is Some {
                ipv4_text_is_injective(r->0, choose|ip: Ipv4Addr| s@ == #[trigger] ip.text());
            }
        }
        r
    }
}

// ---------------------------------------------------------------------
// Decimal notation read back
// ---------------------------------------------------------------------

/// A number in decimal notation is at least one digit, with no leading zero
/// unless it is the only digit, and reads back as itself.
pub proof fn lemma_dec_reads_back(n: nat)
    ensures
        text::dec(n).len() > 0,
        text::all_digits(text::dec(n)),
        text::digits_value(text::dec(n)) == n,
        text::dec(n).len() > 1 ==> text::dec(n)[0] != '0',
        text::dec(n)[0] == '0' ==> n == 0,
    decreases n,
{
    if n < 10 {
        assert(text::dec(n).drop_last() =~= Seq::empty());
        assert(text::digits_value(Seq::empty()) == 0);
    } else {
        lemma_dec_reads_back(n / 10);
        let h = text::dec(n / 10);
        assert(text::dec(n).drop_last() =~= h);
        assert(text::dec(n)[0] == h[0]);
        assert forall|i: int| 0 <= i < text::dec(n).len() implies text::is_digit(#[trigger] text::dec(n)[i]) by {
            if i < h.len() {
                assert(text::dec(n)[i] == h[i]);
            }
        }
    }
}

/// A run of digits with no leading zero is the decimal notation of its value.
pub proof fn lemma_digits_are_dec(s: Seq<char>)
    requires
        s.len() > 0,
        text::all_digits(s),
        s.len() > 1 ==> s[0] != '0',
    ensures
        text::dec(text::digits_value(s)) == s,
        s[0] != '0' ==> text::digits_value(s) > 0,
    decreases s.len(),
{
    assert(text::is_digit(s.last()));
    if s.len() == 1 {
        assert(s.drop_last() =~= Seq::empty());
        assert(text::digits_value(s.drop_last()) == 0);
        assert(text::dec(text::digits_value(s)) =~= s);
    } else {
        let h = s.drop_last();
        assert(text::all_digits(h)) by {
            assert forall|i: int| 0 <= i < h.len() implies text::is_digit(#[trigger] h[i]) by {
                assert(text::is_digit(s[i]));
            }
        }
        assert(h[0] == s[0]);
        lemma_digits_are_dec(h);
        assert(text::digits_value(s) / 10 == text::digits_value(h));
        assert(text::digits_value(s) % 10 == s.last() as nat - 48);
        assert(text::dec(text::digits_value(s)) =~= s);
    }
}

/// Does the decimal notation of `v` stand at `i`, with no further digit behind?
spec fn octet_at(s: Seq<char>, i: int, v: u8) -> bool {
    let n = text::dec(v as nat).len();
    &&& 0 <= i
    &&& i + n <= s.len()
    &&& s.subrange(i, i + n) == text::dec(v as nat)
    &&& i + n < s.len() ==> !text::is_digit(s[i + n])
}

proof fn lemma_octet_unique(s: Seq<char>, i: int, v: u8, w: u8)
    requires
        octet_at(s, i, v),
        octet_at(s, i, w),
    ensures
        v == w,
{
    lemma_dec_reads_back(v as nat);
    lemma_dec_reads_back(w as nat);
    let m = text::dec(v as nat).len();
    let n = text::dec(w as nat).len();
    if m < n {
        assert(text::is_digit(text::dec(w as nat)[m as int]));
        assert(s.subrange(i, i + n)[m as int] == s[i + m]);
    } else if n < m {
        assert(text::is_digit(text::dec(v as nat)[n as int]));
        assert(s.subrange(i, i + m)[n as int] == s[i + n]);
    }
}

/// Reads one octet and gives the position behind it.
fn read_octet(cs: &[char], i: usize) -> (r: Option<(u8, usize)>)
    requires
        i <= cs.len(),
    ensures
        r matches Some((v, j)) ==> octet_at(cs@, i as int, v) && j == i + text::dec(v as nat).len(),
        r is None ==> forall|v: u8| !octet_at(cs@, i as int, v),
{
    let mut j: usize = i;
    while j < cs.len() && '0' <= cs[j] && cs[j] <= '9'
        invariant
            i <= j <= cs.len(),
            forall|k: int| i <= k < j ==> text::is_digit(#[trigger] cs@[k]),
        decreases cs.len() - j,
    {
        j = j + 1;
    }
    let run: &[char] = vstd::slice::slice_subrange(cs, i, j);
    proof {
        // Whatever octet stands here takes up exactly this run of digits.
        assert forall|v: u8| octet_at(cs@, i as int, v) implies run@ == text::dec(v as nat) by {
            lemma_dec_reads_back(v as nat);
            let n = text::dec(v as nat).len();
            if i + n < j {
                assert(text::is_digit(cs@[i + n]));
            } else if j < i + n {
                assert(text::is_digit(text::dec(v as nat)[j - i]));
                assert(cs@.subrange(i as int, i + n)[j - i] == cs@[j as int]);
            }
        }
        assert forall|v: u8| octet_at(cs@, i as int, v) implies run@.len() > 0 && (run@.len() > 1
            ==> run@[0] != '0') && text::digits_value(run@) <= 255 by {
            lemma_dec_reads_back(v as nat);
        }
    }
    if i == j || (j - i > 1 && cs[i] == '0') {
        return None;
    }
    assert(run@[0] == cs@[i as int]);
    match text::read_digits(run, 255) {
        Some(v) => {
            proof {
                lemma_digits_are_dec(run@);
            }
            Some((v as u8, j))
        },
        None => {
            assert(text::all_digits(run@));
            None
        },
    }
}

/// The characters from position `i` on are the dotted form of the octets from
/// number `k` on.
spec fn quad_from(s: Seq<char>, i: int, k: int, ip: Ipv4Addr) -> bool
    decreases 4 - k,
{
    let n = text::dec(ip.octet(k) as nat).len();
    &&& octet_at(s, i, ip.octet(k))
    &&& if k >= 3 {
        i + n == s.len()
    } else {
        i + n < s.len() && s[i + n] == '.' && quad_from(s, i + n + 1, k + 1, ip)
    }
}

proof fn lemma_text_is_quad(s: Seq<char>, ip: Ipv4Addr)
    ensures
        s == ip.text() <==> quad_from(s, 0, 0, ip),
{
    reveal_with_fuel(quad_from, 5);
    let a = text::dec(ip.octet(0) as nat);
    let b = text::dec(ip.octet(1) as nat);
    let c = text::dec(ip.octet(2) as nat);
    let d = text::dec(ip.octet(3) as nat);
    let ia = a.len() as int;
    let ib = ia + 1 + b.len();
    let ic = ib + 1 + c.len();
    let id = ic + 1 + d.len();
    if s == ip.text() {
        assert(s.subrange(0, ia) =~= a);
        assert(s[ia] == '.');
        assert(s.subrange(ia + 1, ib) =~= b);
        assert(s[ib] == '.');
        assert(s.subrange(ib + 1, ic) =~= c);
        assert(s[ic] == '.');
        assert(s.subrange(ic + 1, id) =~= d);
        assert(s.len() == id);
    }
    if quad_from(s, 0, 0, ip) {
        assert(s =~= s.subrange(0, ia) + seq!['.'] + s.subrange(ia + 1, ib) + seq!['.']
            + s.subrange(ib + 1, ic) + seq!['.'] + s.subrange(ic + 1, id));
    }
}

fn read_dot(cs: &[char], i: usize) -> (r: Option<usize>)
    requires
        i <= cs.len(),
    ensures
        r is Some <==> i < cs.len() && cs@[i as int] == '.',
        r is Some ==> r->0 == i + 1 && r->0 <= cs.len(),
{
    if i < cs.len() && cs[i] == '.' {
        Some(i + 1)
    } else {
        None
    }
}

fn parse_quad(cs: &[char]) -> (r: Option<Ipv4Addr>)
    ensures
        r matches Some(ip) ==> cs@ == ip.text(),
        r is None ==> forall|ip: Ipv4Addr| cs@ != #[trigger] ip.text(),
{
    proof {
        reveal_with_fuel(quad_from, 5);
        assert forall|ip: Ipv4Addr| cs@ == #[trigger] ip.text() implies quad_from(cs@, 0, 0, ip) by {
            lemma_text_is_quad(cs@, ip);
        }
        assert forall|i: int, v: u8, w: u8| octet_at(cs@, i, v) && octet_at(cs@, i, w) implies v
            == w by {
            lemma_octet_unique(cs@, i, v, w);
        }
    }
    let (a, i) = match read_octet(cs, 0) {
        Some(x) => x,
        None => { return None; },
    };
    let i: usize = match read_dot(cs, i) {
        Some(x) => x,
        None => { return None; },
    };
    let (b, i) = match read_octet(cs, i) {
        Some(x) => x,
        None => { return None; },
    };
    let i: usize = match read_dot(cs, i) {
        Some(x) => x,
        None => { return None; },
    };
    let (c, i) = match read_octet(cs, i) {
        Some(x) => x,
        None => { return None; },
    };
    let i: usize = match read_dot(cs, i) {
        Some(x) => x,
        None => { return None; },
    };
    let (d, i) = match read_octet(cs, i) {
        Some(x) => x,
        None => { return None; },
    };
    if i != cs.len() {
        return None;
    }
    let ip = Ipv4Addr::new(a, b, c, d);
    proof {
        assert(quad_from(cs@, 0, 0, ip));
        lemma_text_is_quad(cs@, ip);
    }
    Some(ip)
}

proof fn lemma_quad_unique(s: Seq<char>, i: int, k: int, x: Ipv4Addr, y: Ipv4Addr)
    requires
        0 <= k <= 3,
        quad_from(s, i, k, x),
        quad_from(s, i, k, y),
    ensures
        forall|j: int| k <= j <= 3 ==> #[trigger] x.octet(j) == y.octet(j),
    decreases 4 - k,
{
    lemma_octet_unique(s, i, x.octet(k), y.octet(k));
    if k < 3 {
        lemma_quad_unique(s, i + text::dec(x.octet(k) as nat).len() + 1, k + 1, x, y);
    }
}

/// An address is the number that its octets make up.
pub proof fn lemma_bits_are_octets(x: Ipv4Addr)
    ensures
        x.bits == quad(x.octet(0), x.octet(1), x.octet(2), x.octet(3)),
{
}

/// Different addresses are written differently.
pub proof fn ipv4_text_is_injective(x: Ipv4Addr, y: Ipv4Addr)
    requires
        x.text() == y.text(),
    ensures
        x == y,
{
    let s = x.text();
    lemma_text_is_quad(s, x);
    lemma_text_is_quad(s, y);
    lemma_quad_unique(s, 0, 0, x, y);
    lemma_bits_are_octets(x);
    lemma_bits_are_octets(y);
}

/// The dotted form of an address reads back as that address.
pub proof fn ipv4_reads_back(ip: Ipv4Addr)
    ensures
        Ipv4Addr::parsed(ip.text()) == Some(ip),
{
    ipv4_text_is_injective(ip, choose|x: Ipv4Addr| ip.text() == #[trigger] x.text());
}

// ---------------------------------------------------------------------
// IPv6
// ---------------------------------------------------------------------

/// An IPv6 address, as the number its sixteen octets make up.
#[derive(Debug, Clone, Copy, PartialEq, Eq, Structural)]
pub struct Ipv6Addr {
    pub bits: u128,
}

/// The text that the `Display` form of an IPv6 address shows, by its number.
pub uninterp spec fn ipv6_display(bits: u128) -> Seq<char>;

/// Writes an IPv6 address with the `Display` of the standard library, reached
/// through `ipnet::Ipv6Net::addr` of the host network that holds it. The rules of
/// that notation are not restated: the result is the named text of the number.
#[verifier::external_body]
fn show_ipv6(bits: u128) -> (r: String)
    ensures
        r@ == ipv6_display(bits),
{
    ipnet::Ipv6Net::new(bits.into(), 128).unwrap().addr().to_string()
}

impl Ipv6Addr {
    /// The first of the eight 16-bit groups.
    pub open spec fn first_group(self) -> u16 {
        (self.bits / 0x1_0000_0000_0000_0000_0000_0000_0000) as u16
    }

    /// Computes the first of the eight 16-bit groups.
    pub fn group0(&self) -> (r: u16)
        ensures
            r == self.first_group(),
            r == self.bits / 0x1_0000_0000_0000_0000_0000_0000_0000,
    {
        (self.bits / 0x1_0000_0000_0000_0000_0000_0000_0000) as u16
    }

    /// Is it `::`?
    pub fn is_unspecified(&self) -> (r: bool)
        ensures
            r == (self.bits == 0),
    {
        self.bits == 0
    }

    /// ff00::/8.
    pub open spec fn multicast(self) -> bool {
        self.first_group() / 0x100 == 0xff
    }

    /// Is it a multicast address?
    pub fn is_multicast(&self) -> (r: bool)
        ensures
            r == self.multicast(),
    {
        self.group0() / 0x100 == 0xff
    }

    /// fe80::/10.
    pub open spec fn link_local(self) -> bool {
        0xfe80 <= self.first_group() <= 0xfebf
    }

    /// Is it a link-local address?
    pub fn is_link_local(&self) -> (r: bool)
        ensures
            r == self.link_local(),
    {
        let g: u16 = self.group0();
        0xfe80 <= g && g <= 0xfebf
    }

    /// The usual notation.
    pub open spec fn text(self) -> Seq<char> {
        ipv6_display(self.bits)
    }

    /// Writes the usual notation.
    pub fn to_string(&self) -> (r: String)
        ensures
            r@ == self.text(),
    {
        show_ipv6(self.bits)
    }
}

// ---------------------------------------------------------------------
// MAC
// ---------------------------------------------------------------------

/// A hardware address of six octets.
#[derive(Debug, Clone, Copy, PartialEq, Eq, Structural)]
pub struct MacAddr(pub u8, pub u8, pub u8, pub u8, pub u8, pub u8);

/// The six octets that a text names: six hexadecimal numbers between colons, each no
/// greater than a byte.
pub open spec fn mac_of(s: Seq<char>) -> Option<(u8, u8, u8, u8, u8, u8)> {
    let p = text::split(s, ':');
    if p.len() == 6 && forall|i: int| 0 <= i < 6 ==> text::hex_byte(#[trigger] p[i]) is Some {
        Some(
            (
                text::hex_byte(p[0])->0,
                text::hex_byte(p[1])->0,
                text::hex_byte(p[2])->0,
                text::hex_byte(p[3])->0,
                text::hex_byte(p[4])->0,
                text::hex_byte(p[5])->0,
            ),
        )
    } else {
        None
    }
}

/// The colon form: each octet as two lower-case hexadecimal digits.
pub open spec fn mac_text(m: (u8, u8, u8, u8, u8, u8)) -> Seq<char> {
    text::hex2_lower(m.0) + seq![':'] + text::hex2_lower(m.1) + seq![':'] + text::hex2_lower(m.2) + seq![':']
        + text::hex2_lower(m.3) + seq![':'] + text::hex2_lower(m.4) + seq![':'] + text::hex2_lower(m.5)
}

/// Reads a hardware address with `<pnet::util::MacAddr as FromStr>::from_str`, which
/// splits the text at its colons and reads each of the six components with
/// `u8::from_str_radix` in base sixteen. Any other number of components, and any
/// component that this refuses, is an error.
#[verifier::external_body]
fn read_mac(s: &str) -> (r: Option<(u8, u8, u8, u8, u8, u8)>)
    ensures
        r == mac_of(s@),
{
    match s.parse::<pnet::util::MacAddr>() {
        Ok(m) => Some((m.0, m.1, m.2, m.3, m.4, m.5)),
        Err(_) => None,
    }
}

impl MacAddr {
    /// The address with the given octets.
    pub fn new(a: u8, b: u8, c: u8, d: u8, e: u8, f: u8) -> (r: MacAddr)
        ensures
            r == MacAddr(a, b, c, d, e, f),
    {
        MacAddr(a, b, c, d, e, f)
    }

    /// 00:00:00:00:00:00.
    pub fn zero() -> (r: MacAddr)
        ensures
            r == MacAddr(0, 0, 0, 0, 0, 0),
    {
        MacAddr(0, 0, 0, 0, 0, 0)
    }

    /// ff:ff:ff:ff:ff:ff.
    pub fn broadcast() -> (r: MacAddr)
        ensures
            r == MacAddr(255, 255, 255, 255, 255, 255),
    {
        MacAddr(255, 255, 255, 255, 255, 255)
    }

    /// Neither all ones nor all zeros: an address that a device can have.
    pub open spec fn is_device(self) -> bool {
        self != MacAddr(255, 255, 255, 255, 255, 255) && self != MacAddr(0, 0, 0, 0, 0, 0)
    }

    /// Could a device have this address?
    pub fn names_a_device(&self) -> (r: bool)
        ensures
            r == self.is_device(),
    {
        *self != MacAddr::broadcast() && *self != MacAddr::zero()
    }

    /// The octets, most significant first.
    pub open spec fn octets(self) -> (u8, u8, u8, u8, u8, u8) {
        (self.0, self.1, self.2, self.3, self.4, self.5)
    }

    /// The address as a number. The order of addresses is the order of these.
    pub open spec fn number(self) -> nat {
        (self.0 * 0x100_0000_0000 + self.1 * 0x1_0000_0000 + self.2 * 0x100_0000 + self.3 * 0x1_0000
            + self.4 * 0x100 + self.5) as nat
    }

    /// Computes the address as a number.
    pub fn as_number(&self) -> (r: u64)
        ensures
            r == self.number(),
    {
        self.0 as u64 * 0x100_0000_0000 + self.1 as u64 * 0x1_0000_0000 + self.2 as u64 * 0x100_0000
            + self.3 as u64 * 0x1_0000 + self.4 as u64 * 0x100 + self.5 as u64
    }

    /// The colon form.
    pub open spec fn text(self) -> Seq<char> {
        mac_text(self.octets())
    }

    /// Writes the colon form.
    pub fn to_string(&self) -> (r: String)
        ensures
            r@ == self.text(),
    {
        let mut s = String::new();
        text::push_hex_lower(&mut s, self.0);
        s.push(':');
        text::push_hex_lower(&mut s, self.1);
        s.push(':');
        text::push_hex_lower(&mut s, self.2);
        s.push(':');
        text::push_hex_lower(&mut s, self.3);
        s.push(':');
        text::push_hex_lower(&mut s, self.4);
        s.push(':');
        text::push_hex_lower(&mut s, self.5);
        s
    }

    /// The address that a text names.
    pub open spec fn parsed(s: Seq<char>) -> Option<MacAddr> {
        match mac_of(s) {
            Some(m) => Some(MacAddr(m.0, m.1, m.2, m.3, m.4, m.5)),
            None => None,
        }
    }

    /// Reads a hardware address. Its own colon form is always read back.
    pub fn parse(s: &str) -> (r: Option<MacAddr>)
        ensures
            r == MacAddr::parsed(s@),
            forall|m: MacAddr| s@ == #[trigger] m.text() ==> r == Some(m),
    {
        let o = read_mac(s);
        proof {
            assert forall|m: MacAddr| s@ == #[trigger] m.text() implies o == Some(m.octets()) by {
                mac_text_reads_back(m);
            }
        }
        match o {
            Some((a, b, c, d, e, f)) => Some(MacAddr(a, b, c, d, e, f)),
            None => None,
        }
    }
}

/// Addresses with the same number are the same.
pub proof fn mac_number_is_injective(x: MacAddr, y: MacAddr)
    requires
        x.number() == y.number(),
    ensures
        x == y,
{
    lemma_mac_number_head(x);
    lemma_mac_number_head(y);
}

proof fn lemma_mac_number_head(x: MacAddr)
    ensures
        x.number() / 0x100_0000 == x.0 * 0x1_0000 + x.1 * 0x100 + x.2,
        x.number() % 0x100_0000 == x.3 * 0x1_0000 + x.4 * 0x100 + x.5,
        x.number() / 0x100_0000 / 0x1_0000 == x.0,
        x.number() / 0x100_0000 % 0x100 == x.2,
        x.number() / 0x100_0000 / 0x100 % 0x100 == x.1,
        x.number() % 0x100_0000 / 0x1_0000 == x.3,
        x.number() % 0x100_0000 % 0x100 == x.5,
        x.number() % 0x100_0000 / 0x100 % 0x100 == x.4,
{
    let h: int = x.0 * 0x1_0000 + x.1 * 0x100 + x.2;
    let l: int = x.3 * 0x1_0000 + x.4 * 0x100 + x.5;
    assert(x.number() == h * 0x100_0000 + l);
    assert(0 <= l < 0x100_0000);
    assert(x.number() / 0x100_0000 == h);
    assert(x.number() % 0x100_0000 == l);
    lemma_three_octets(x.0, x.1, x.2);
    lemma_three_octets(x.3, x.4, x.5);
}

proof fn lemma_three_octets(a: u8, b: u8, c: u8)
    ensures
        (a * 0x1_0000 + b * 0x100 + c) / 0x1_0000 == a,
        (a * 0x1_0000 + b * 0x100 + c) / 0x100 % 0x100 == b,
        (a * 0x1_0000 + b * 0x100 + c) % 0x100 == c,
{
    let n: int = a * 0x1_0000 + b * 0x100 + c;
    assert(n / 0x100 == a * 0x100 + b);
}

proof fn lemma_mac_text_at(m: MacAddr)
    ensures
        m.text().len() == 17,
        m.text()[0] == text::hex_lower((m.0 / 16) as nat),
        m.text()[1] == text::hex_lower((m.0 % 16) as nat),
        m.text()[3] == text::hex_lower((m.1 / 16) as nat),
        m.text()[4] == text::hex_lower((m.1 % 16) as nat),
        m.text()[6] == text::hex_lower((m.2 / 16) as nat),
        m.text()[7] == text::hex_lower((m.2 % 16) as nat),
        m.text()[9] == text::hex_lower((m.3 / 16) as nat),
        m.text()[10] == text::hex_lower((m.3 % 16) as nat),
        m.text()[12] == text::hex_lower((m.4 / 16) as nat),
        m.text()[13] == text::hex_lower((m.4 % 16) as nat),
        m.text()[15] == text::hex_lower((m.5 / 16) as nat),
        m.text()[16] == text::hex_lower((m.5 % 16) as nat),
{
}

/// The colon form of a hardware address reads back as that address.
pub proof fn mac_text_reads_back(m: MacAddr)
    ensures
        mac_of(m.text()) == Some(m.octets()),
        MacAddr::parsed(m.text()) == Some(m),
{
    let (t0, t1, t2) = (text::hex2_lower(m.0), text::hex2_lower(m.1), text::hex2_lower(m.2));
    let (t3, t4, t5) = (text::hex2_lower(m.3), text::hex2_lower(m.4), text::hex2_lower(m.5));
    text::lemma_hex_reads_back(m.0);
    text::lemma_hex_reads_back(m.1);
    text::lemma_hex_reads_back(m.2);
    text::lemma_hex_reads_back(m.3);
    text::lemma_hex_reads_back(m.4);
    text::lemma_hex_reads_back(m.5);
    let s1 = t0 + seq![':'] + t1;
    let s2 = s1 + seq![':'] + t2;
    let s3 = s2 + seq![':'] + t3;
    let s4 = s3 + seq![':'] + t4;
    text::lemma_one_piece(t0, ':');
    text::lemma_another_piece(t0, ':', t1);
    text::lemma_another_piece(s1, ':', t2);
    text::lemma_another_piece(s2, ':', t3);
    text::lemma_another_piece(s3, ':', t4);
    text::lemma_another_piece(s4, ':', t5);
    assert(m.text() == s4 + seq![':'] + t5);
    assert(text::split(m.text(), ':') =~= seq![t0, t1, t2, t3, t4, t5]);
}

/// Different hardware addresses are written differently.
pub proof fn mac_text_is_injective(x: MacAddr, y: MacAddr)
    requires
        x.text() == y.text(),
    ensures
        x == y,
{
    lemma_mac_text_at(x);
    lemma_mac_text_at(y);
}

/// A number written in decimal is read back exactly where it is not too large, with or
/// without a plus sign in front.
pub proof fn a_number_reads_back(n: nat, max: nat)
    ensures
        n <= max ==> text::parse_uint(text::dec(n), max) == Some(n) && text::parse_uint(
            seq!['+'] + text::dec(n),
            max,
        ) == Some(n),
        n > max ==> text::parse_uint(text::dec(n), max) is None,
{
    let d = text::dec(n);
    lemma_dec_reads_back(n);
    assert(text::is_digit(d[0]));
    assert((seq!['+'] + d).skip(1) =~= d);
}

/// The dotted form holds nothing but digits and periods, and starts and ends with a
/// digit.
pub proof fn the_dotted_form_is_digits_and_periods(ip: Ipv4Addr)
    ensures
        ip.text().len() >= 7,
        forall|i: int|
            0 <= i < ip.text().len() ==> text::is_digit(#[trigger] ip.text()[i]) || ip.text()[i] == '.',
        text::is_digit(ip.text()[0]),
        text::is_digit(ip.text().last()),
{
    let (a, b) = (text::dec(ip.octet(0) as nat), text::dec(ip.octet(1) as nat));
    let (c, d) = (text::dec(ip.octet(2) as nat), text::dec(ip.octet(3) as nat));
    lemma_dec_reads_back(ip.octet(0) as nat);
    lemma_dec_reads_back(ip.octet(1) as nat);
    lemma_dec_reads_back(ip.octet(2) as nat);
    lemma_dec_reads_back(ip.octet(3) as nat);
    let t = ip.text();
    let (m, n, o) = (a.len() + 1, a.len() + b.len() + 2, a.len() + b.len() + c.len() + 3);
    assert(t.len() == o + d.len());
    assert forall|i: int| 0 <= i < t.len() implies text::is_digit(#[trigger] t[i]) || t[i] == '.' by {
        if i < a.len() {
            assert(t[i] == a[i]);
        } else if m <= i < n - 1 {
            assert(t[i] == b[i - m]);
        } else if n <= i < o - 1 {
            assert(t[i] == c[i - n]);
        } else if o <= i {
            assert(t[i] == d[i - o]);
        }
    }
    assert(t[0] == a[0]);
    assert(t.last() == d[d.len() - 1]);
}

/// The colon form has seventeen characters: a colon in every third place, lower-case
/// hexadecimal digits in the others.
pub proof fn the_colon_form_is_digits_and_colons(m: MacAddr)
    ensures
        m.text().len() == 17,
        forall|i: int| 0 <= i < 17 && i % 3 == 2 ==> #[trigger] m.text()[i] == ':',
        forall|i: int|
            0 <= i < 17 && i % 3 != 2 ==> '0' <= #[trigger] m.text()[i] <= '9' || 'a' <= m.text()[i]
                <= 'f',
{
    lemma_mac_text_at(m);
    let t = m.text();
    assert(t[2] == ':' && t[5] == ':' && t[8] == ':' && t[11] == ':' && t[14] == ':');
    assert forall|i: int| 0 <= i < 17 && i % 3 != 2 implies '0' <= #[trigger] t[i] <= '9' || 'a' <= t[i]
        <= 'f' by {
        assert(i == 0 || i == 1 || i == 2 || i == 3 || i == 4 || i == 5 || i == 6 || i == 7 || i == 8 || i
            == 9 || i == 10 || i == 11 || i == 12 || i == 13 || i == 14 || i == 15 || i == 16);
    }
}

/// The blocks with a meaning of their own, as ranges of numbers: multicast, and the
/// three private ones.
pub proof fn blocks_are_ranges(ip: Ipv4Addr)
    ensures
        ip.multicast() <==> 0xe000_0000 <= ip.bits <= 0xefff_ffff,
        ip.rfc1918() <==> 0x0a00_0000 <= ip.bits <= 0x0aff_ffff || 0xac10_0000 <= ip.bits <= 0xac1f_ffff
            || 0xc0a8_0000 <= ip.bits <= 0xc0a8_ffff,
{
    let b = ip.bits;
    let (h, m) = (b / 0x100_0000, b / 0x1_0000 % 0x100);
    assert(b / 0x1_0000 == h * 0x100 + m);
}

/// The IPv6 blocks with a meaning of their own, as ranges of numbers.
pub proof fn ipv6_blocks_are_ranges(ip: Ipv6Addr)
    ensures
        ip.multicast() <==> ip.bits >= 0xff00_0000_0000_0000_0000_0000_0000_0000,
        ip.link_local() <==> 0xfe80_0000_0000_0000_0000_0000_0000_0000 <= ip.bits
            <= 0xfebf_ffff_ffff_ffff_ffff_ffff_ffff_ffff,
{
}

/// A device can have every hardware address but the first and the last.
pub proof fn all_but_two_name_a_device(m: MacAddr)
    ensures
        m.is_device() <==> 0 < m.number() < 0xffff_ffff_ffff,
{
    if m.number() == 0 {
        mac_number_is_injective(m, MacAddr(0, 0, 0, 0, 0, 0));
    }
    if m.number() == 0xffff_ffff_ffff {
        mac_number_is_injective(m, MacAddr(255, 255, 255, 255, 255, 255));
    }
}

/// A number below a hundred takes two digits where two places are asked for, and reads
/// back.
pub proof fn two_places_read_back(n: nat)
    requires
        n < 100,
    ensures
        text::dec2(n).len() == 2,
        text::digits_value(text::dec2(n)) == n,
{
    let d = text::dec2(n);
    assert(text::dec(n / 10).len() == 1);
    assert(d.drop_last() =~= seq![d[0]]);
    assert(seq![d[0]].drop_last() =~= Seq::empty());
    assert(text::digits_value(Seq::empty()) == 0);
    assert(text::digits_value(seq![d[0]]) == d[0] as nat - 48);
    assert(d.last() == text::digit_char(n % 10));
}

} // verus!
