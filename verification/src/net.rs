//! IPv4 networks: an address with a prefix length, seen as a run of addresses.
use crate::addr::{self, Ipv4Addr};
use crate::text;
use vstd::prelude::*;

verus! {

broadcast use vstd::seq::group_seq_axioms;

/// A network in prefix notation. The address may have host bits set; the network
/// it stands for is the block of addresses that share its first `prefix_len`
/// bits.
#[derive(Debug, Clone, Copy, PartialEq, Eq, Structural)]
pub struct Ipv4Net {
    pub addr: Ipv4Addr,
    pub prefix_len: u8,
}

/// How many addresses share a prefix of the given length.
pub open spec fn span(prefix_len: u8) -> nat
    decreases 32 - prefix_len,
{
    if prefix_len >= 32 {
        1
    } else {
        2 * span((prefix_len + 1) as u8)
    }
}

/// How many blocks of that size the address space has room for.
spec fn blocks_in_space(prefix_len: u8) -> nat
    decreases prefix_len,
{
    if prefix_len == 0 {
        1
    } else {
        2 * blocks_in_space((prefix_len - 1) as u8)
    }
}

proof fn lemma_span_divides(p: u8)
    requires
        p <= 32,
    ensures
        span(p) * blocks_in_space(p) == 0x1_0000_0000,
        1 <= span(p) <= 0x1_0000_0000,
    decreases p,
{
    if p == 0 {
        lemma_span_values();
        assert(span(0) == 0x1_0000_0000) by {
            reveal_with_fuel(span, 9);
        }
        assert(blocks_in_space(0) == 1);
        assert(span(0) * 1 == span(0)) by (nonlinear_arith);
    } else {
        lemma_span_divides((p - 1) as u8);
        let a = span(p);
        let b = blocks_in_space((p - 1) as u8);
        let c = blocks_in_space(p);
        assert(span((p - 1) as u8) == 2 * a);
        assert(a * c == 0x1_0000_0000) by (nonlinear_arith)
            requires
                (2 * a) * b == 0x1_0000_0000,
                c == 2 * b,
        ;
        assert(a <= 0x1_0000_0000);
    }
}

/// A network holds between one address and all of them.
pub proof fn lemma_span_bounds(p: u8)
    ensures
        1 <= span(p) <= 0x1_0000_0000,
{
    if p <= 32 {
        lemma_span_divides(p);
    }
}

/// The block sizes in use.
pub proof fn lemma_span_values()
    ensures
        span(8) == 0x100_0000,
        span(12) == 0x10_0000,
        span(16) == 0x1_0000,
        span(24) == 0x100,
        span(30) == 4,
        span(31) == 2,
        span(32) == 1,
{
    reveal_with_fuel(span, 26);
}

/// Shorter prefixes mean larger blocks.
pub proof fn lemma_span_monotone(p: u8, q: u8)
    requires
        p <= q,
    ensures
        span(q) <= span(p),
        q <= 32 ==> exists|k: nat| k >= 1 && span(p) == #[trigger] (k * span(q)),
    decreases q - p,
{
    if p < q {
        lemma_span_monotone((p + 1) as u8, q);
        lemma_span_bounds(q);
        if q <= 32 {
            let k = choose|k: nat| k >= 1 && span((p + 1) as u8) == #[trigger] (k * span(q));
            assert(2 * (k * span(q)) == (2 * k) * span(q)) by (nonlinear_arith);
            assert(span(p) == (2 * k) * span(q));
        }
    } else {
        assert(1 * span(q) == span(q)) by (nonlinear_arith);
    }
}

fn span_of(prefix_len: u8) -> (r: u64)
    ensures
        r == span(prefix_len),
{
    let mut n: u64 = 1;
    let mut q: u8 = 32;
    if prefix_len >= 32 {
        return n;
    }
    while q > prefix_len
        invariant
            prefix_len <= q <= 32,
            n == span(q),
        decreases q,
    {
        q = q - 1;
        proof {
            lemma_span_bounds(q);
        }
        n = 2 * n;
    }
    n
}

/// The address, as a number, and the prefix length that a text names: four numbers
/// of at most three digits between periods, each below 256, then a slash and a number
/// of at most two digits, no greater than 32.
pub open spec fn cidr_of(s: Seq<char>) -> Option<(u32, u8)> {
    let halves = text::split(s, '/');
    let o = text::split(halves[0], '.');
    if halves.len() == 2 && o.len() == 4 && (forall|i: int|
        0 <= i < 4 ==> text::short_number(#[trigger] o[i], 3, 255) is Some)
        && text::short_number(halves[1], 2, 32) is Some {
        Some(
            (
                addr::quad(
                    text::digits_value(o[0]) as u8,
                    text::digits_value(o[1]) as u8,
                    text::digits_value(o[2]) as u8,
                    text::digits_value(o[3]) as u8,
                ),
                text::digits_value(halves[1]) as u8,
            ),
        )
    } else {
        None
    }
}

/// Address, slash, prefix length.
pub open spec fn cidr_text(addr: Ipv4Addr, prefix_len: u8) -> Seq<char> {
    addr.text() + seq!['/'] + text::dec(prefix_len as nat)
}

/// Reads a network with `<ipnet::Ipv4Net as FromStr>::from_str`, whose parser reads
/// four numbers of up to three digits with periods in between, a slash, and a number
/// of up to two digits, all the way to the end of the text. Leading zeros are
/// accepted.
#[verifier::external_body]
fn read_cidr(s: &str) -> (r: Option<(u32, u8)>)
    ensures
        r == cidr_of(s@),
{
    match s.parse::<ipnet::Ipv4Net>() {
        Ok(n) => Some((u32::from(n.addr()), n.prefix_len())),
        Err(_) => None,
    }
}

impl Ipv4Net {
    /// The prefix length is that of an IPv4 network.
    pub open spec fn wf(self) -> bool {
        self.prefix_len <= 32
    }

    /// The number of addresses in the network.
    pub open spec fn size(self) -> nat {
        span(self.prefix_len)
    }

    /// The lowest address, as a number.
    pub open spec fn first(self) -> int {
        self.addr.bits - self.addr.bits as int % self.size() as int
    }

    /// The highest address, as a number.
    pub open spec fn last(self) -> int {
        self.first() + self.size() - 1
    }

    /// Does the address belong to the network?
    pub open spec fn has(self, ip: Ipv4Addr) -> bool {
        self.first() <= ip.bits <= self.last()
    }

    /// Does every address of the other network belong to this one?
    pub open spec fn covers(self, other: Ipv4Net) -> bool {
        self.first() <= other.first() && other.last() <= self.last()
    }

    /// Do the two networks have an address in common?
    pub open spec fn meets(self, other: Ipv4Net) -> bool {
        exists|ip: Ipv4Addr| #[trigger] self.has(ip) && other.has(ip)
    }

    /// The first and last address are addresses, with the network's own in
    /// between.
    pub proof fn lemma_bounds(self)
        ensures
            1 <= self.size() <= 0x1_0000_0000,
            0 <= self.first() <= self.addr.bits <= self.last() <= 0xffff_ffff,
    {
        lemma_span_bounds(self.prefix_len);
        let n = self.size() as int;
        let b = self.addr.bits as int;
        assert(0 <= b % n < n) by (nonlinear_arith)
            requires
                n >= 1,
        ;
        assert(b % n <= b) by (nonlinear_arith)
            requires
                n >= 1,
                b >= 0,
        ;
        if self.prefix_len <= 32 {
            lemma_span_divides(self.prefix_len);
            let k = blocks_in_space(self.prefix_len) as int;
            let q = b / n;
            assert(b == q * n + b % n) by (nonlinear_arith)
                requires
                    n >= 1,
                    q == b / n,
            ;
            assert(self.first() == q * n);
            assert(n * k == k * n) by (nonlinear_arith);
            assert(q < k) by (nonlinear_arith)
                requires
                    q * n <= b,
                    b < k * n,
                    n >= 1,
            ;
            assert((q + 1) * n <= k * n) by (nonlinear_arith)
                requires
                    q < k,
                    n >= 1,
            ;
            assert((q + 1) * n == q * n + n) by (nonlinear_arith);
        }
    }

    /// The network with the given address and prefix length; `None` where the
    /// prefix is longer than an address.
    pub fn new(addr: Ipv4Addr, prefix_len: u8) -> (r: Option<Ipv4Net>)
        ensures
            r is Some <==> prefix_len <= 32,
            r is Some ==> r->0 == (Ipv4Net { addr, prefix_len }) && (r->0).wf(),
    {
        if prefix_len <= 32 {
            Some(Ipv4Net { addr, prefix_len })
        } else {
            None
        }
    }

    /// The lowest address of the network.
    pub fn network(&self) -> (r: Ipv4Addr)
        ensures
            r.bits == self.first(),
    {
        let n: u64 = span_of(self.prefix_len);
        proof {
            self.lemma_bounds();
        }
        Ipv4Addr { bits: (self.addr.bits as u64 - self.addr.bits as u64 % n) as u32 }
    }

    /// The highest address of the network.
    pub fn broadcast(&self) -> (r: Ipv4Addr)
        ensures
            r.bits == self.last(),
    {
        let n: u64 = span_of(self.prefix_len);
        proof {
            self.lemma_bounds();
        }
        Ipv4Addr { bits: (self.network().bits as u64 + (n - 1)) as u32 }
    }

    /// The same block of addresses, written with its lowest address.
    pub open spec fn truncated(self) -> Ipv4Net {
        Ipv4Net { addr: Ipv4Addr { bits: self.first() as u32 }, prefix_len: self.prefix_len }
    }

    /// Clears the host bits. The network stays the same block of addresses.
    pub fn trunc(&self) -> (r: Ipv4Net)
        ensures
            r == self.truncated(),
            r.addr.bits == self.first(),
            r.first() == self.first(),
            r.last() == self.last(),
            self.wf() ==> r.wf(),
    {
        proof {
            self.lemma_bounds();
            lemma_truncated_keeps_block(*self);
        }
        Ipv4Net { addr: self.network(), prefix_len: self.prefix_len }
    }

    /// Does the address belong to the network?
    pub fn contains(&self, ip: &Ipv4Addr) -> (r: bool)
        ensures
            r == self.has(*ip),
    {
        self.network().bits <= ip.bits && ip.bits <= self.broadcast().bits
    }

    /// Does every address of the other network belong to this one?
    pub fn contains_net(&self, other: &Ipv4Net) -> (r: bool)
        ensures
            r == self.covers(*other),
    {
        self.network().bits <= other.network().bits && other.broadcast().bits
            <= self.broadcast().bits
    }

    /// Address, slash, prefix length.
    pub open spec fn text(self) -> Seq<char> {
        cidr_text(self.addr, self.prefix_len)
    }

    /// Writes the prefix notation.
    pub fn to_string(&self) -> (r: String)
        ensures
            r@ == self.text(),
    {
        let mut s = self.addr.to_string();
        s.push('/');
        text::push_dec(&mut s, self.prefix_len as u64);
        s
    }

    /// The network that a text names.
    pub open spec fn parsed(s: Seq<char>) -> Option<Ipv4Net> {
        match cidr_of(s) {
            Some((bits, prefix_len)) => Some(Ipv4Net { addr: Ipv4Addr { bits }, prefix_len }),
            None => None,
        }
    }

    /// Reads a network in prefix notation. Its own plain form is always read back.
    pub fn parse(s: &str) -> (r: Option<Ipv4Net>)
        ensures
            r == Ipv4Net::parsed(s@),
            r is Some ==> (r->0).wf(),
            forall|n: Ipv4Net| n.wf() && s@ == #[trigger] n.text() ==> r == Some(n),
    {
        let o = read_cidr(s);
        proof {
            assert forall|n: Ipv4Net| n.wf() && s@ == #[trigger] n.text() implies o == Some(
                (n.addr.bits, n.prefix_len),
            ) by {
                network_reads_back(n);
            }
        }
        match o {
            Some((bits, prefix_len)) => Some(Ipv4Net { addr: Ipv4Addr { bits }, prefix_len }),
            None => None,
        }
    }
}

proof fn lemma_number_piece(n: nat, digits: nat, c: char)
    requires
        digits == 2 && n < 100 || digits == 3 && n < 1000,
        !text::is_digit(c),
    ensures
        text::short_number(text::dec(n), digits, n) == Some(n),
        text::digits_value(text::dec(n)) == n,
        !text::dec(n).contains(c),
{
    addr::lemma_dec_reads_back(n);
    reveal_with_fuel(text::dec, 4);
    assert forall|i: int| 0 <= i < text::dec(n).len() implies text::dec(n)[i] != c by {
        assert(text::is_digit(text::dec(n)[i]));
    }
}

/// The plain form of a network reads back as that network.
pub proof fn network_reads_back(n: Ipv4Net)
    requires
        n.wf(),
    ensures
        cidr_of(n.text()) == Some((n.addr.bits, n.prefix_len)),
        Ipv4Net::parsed(n.text()) == Some(n),
{
    let a = text::dec(n.addr.octet(0) as nat);
    let b = text::dec(n.addr.octet(1) as nat);
    let c = text::dec(n.addr.octet(2) as nat);
    let d = text::dec(n.addr.octet(3) as nat);
    let q = text::dec(n.prefix_len as nat);
    lemma_number_piece(n.addr.octet(0) as nat, 3, '.');
    lemma_number_piece(n.addr.octet(1) as nat, 3, '.');
    lemma_number_piece(n.addr.octet(2) as nat, 3, '.');
    lemma_number_piece(n.addr.octet(3) as nat, 3, '.');
    lemma_number_piece(n.prefix_len as nat, 2, '/');
    let s = n.addr.text();
    let s1 = a + seq!['.'] + b;
    let s2 = s1 + seq!['.'] + c;
    text::lemma_one_piece(a, '.');
    text::lemma_another_piece(a, '.', b);
    text::lemma_another_piece(s1, '.', c);
    text::lemma_another_piece(s2, '.', d);
    assert(s == s2 + seq!['.'] + d);
    assert(text::split(s, '.') =~= seq![a, b, c, d]);
    assert(!s.contains('/')) by {
        addr::lemma_dec_reads_back(n.addr.octet(0) as nat);
        addr::lemma_dec_reads_back(n.addr.octet(1) as nat);
        addr::lemma_dec_reads_back(n.addr.octet(2) as nat);
        addr::lemma_dec_reads_back(n.addr.octet(3) as nat);
    }
    text::lemma_one_piece(s, '/');
    text::lemma_another_piece(s, '/', q);
    assert(text::split(n.text(), '/') =~= seq![s, q]);
    addr::lemma_bits_are_octets(n.addr);
}

/// Clearing the host bits keeps the block of addresses.
pub proof fn lemma_truncated_keeps_block(n: Ipv4Net)
    ensures
        n.truncated().first() == n.first(),
        n.truncated().last() == n.last(),
{
    n.lemma_bounds();
    let s = n.size() as int;
    let f = n.first();
    let b = n.addr.bits as int;
    let q = b / s;
    assert(f == q * s) by (nonlinear_arith)
        requires
            s >= 1,
            q == b / s,
            f == b - b % s,
    ;
    assert((q * s) % s == 0) by (nonlinear_arith)
        requires
            s >= 1,
    ;
}

/// Clearing the host bits twice is clearing them once.
pub proof fn trunc_is_idempotent(n: Ipv4Net)
    ensures
        n.truncated().truncated() == n.truncated(),
{
    lemma_truncated_keeps_block(n);
}

/// A network covers another exactly when every address of the other is its own.
pub proof fn covers_is_containment(a: Ipv4Net, b: Ipv4Net)
    ensures
        a.covers(b) <==> forall|ip: Ipv4Addr| #[trigger] b.has(ip) ==> a.has(ip),
{
    a.lemma_bounds();
    b.lemma_bounds();
    if forall|ip: Ipv4Addr| #[trigger] b.has(ip) ==> a.has(ip) {
        let lo = Ipv4Addr { bits: b.first() as u32 };
        let hi = Ipv4Addr { bits: b.last() as u32 };
        assert(b.has(lo) && b.has(hi));
    }
}

/// Two networks have an address in common exactly when one has the lowest
/// address of the other.
pub proof fn meets_at_an_end(a: Ipv4Net, b: Ipv4Net)
    ensures
        a.meets(b) <==> (a.first() <= b.first() <= a.last()) || (b.first() <= a.first()
            <= b.last()),
{
    a.lemma_bounds();
    b.lemma_bounds();
    let x = Ipv4Addr { bits: a.first() as u32 };
    let y = Ipv4Addr { bits: b.first() as u32 };
    if b.first() <= a.first() <= b.last() {
        assert(a.has(x) && b.has(x));
    }
    if a.first() <= b.first() <= a.last() {
        assert(a.has(y) && b.has(y));
    }
}

proof fn lemma_first_is_aligned(n: Ipv4Net) -> (q: int)
    ensures
        n.first() == q * n.size(),
{
    n.lemma_bounds();
    let s = n.size() as int;
    let b = n.addr.bits as int;
    let q = b / s;
    assert(n.first() == q * s) by (nonlinear_arith)
        requires
            s >= 1,
            q == b / s,
            n.first() == b - b % s,
    ;
    q
}

proof fn lemma_sizes_divide(p: u8, q: u8) -> (k: int)
    requires
        p <= q,
    ensures
        k >= 1,
        span(p) == k * span(q),
{
    lemma_span_monotone(p, q);
    lemma_span_bounds(p);
    if q <= 32 {
        let k = choose|k: nat| k >= 1 && span(p) == #[trigger] (k * span(q));
        k as int
    } else {
        assert(span(p) * 1 == span(p)) by (nonlinear_arith);
        span(p) as int
    }
}

proof fn lemma_larger_covers(a: Ipv4Net, b: Ipv4Net)
    requires
        a.prefix_len <= b.prefix_len,
        a.meets(b),
    ensures
        a.covers(b),
{
    a.lemma_bounds();
    b.lemma_bounds();
    meets_at_an_end(a, b);
    let k = lemma_sizes_divide(a.prefix_len, b.prefix_len);
    let q = lemma_first_is_aligned(a);
    let j = lemma_first_is_aligned(b);
    let s = b.size() as int;
    let m = q * k;
    assert(a.first() == m * s) by (nonlinear_arith)
        requires
            a.first() == q * a.size(),
            a.size() == k * s,
            m == q * k,
    ;
    let (af, al, bf, bl) = (a.first(), a.last(), b.first(), b.last());
    assert(m <= j <= m + k - 1) by (nonlinear_arith)
        requires
            s >= 1,
            af == m * s,
            al == af + k * s - 1,
            bf == j * s,
            bl == bf + s - 1,
            af <= bl,
            bf <= al,
    ;
    assert(af <= bf && bl <= al) by (nonlinear_arith)
        requires
            s >= 1,
            m <= j <= m + k - 1,
            af == m * s,
            al == af + k * s - 1,
            bf == j * s,
            bl == bf + s - 1,
    ;
}

/// Two networks either have no address in common, or one covers the other.
pub proof fn networks_nest_or_part(a: Ipv4Net, b: Ipv4Net)
    ensures
        a.meets(b) <==> a.covers(b) || b.covers(a),
{
    if a.meets(b) {
        if a.prefix_len <= b.prefix_len {
            lemma_larger_covers(a, b);
        } else {
            meets_at_an_end(a, b);
            meets_at_an_end(b, a);
            lemma_larger_covers(b, a);
        }
    }
    if a.covers(b) || b.covers(a) {
        a.lemma_bounds();
        b.lemma_bounds();
        meets_at_an_end(a, b);
    }
}

/// Is the address in one of the networks?
pub open spec fn in_any(nets: Seq<Ipv4Net>, ip: Ipv4Addr) -> bool {
    exists|i: int| 0 <= i < nets.len() && (#[trigger] nets[i]).has(ip)
}

/// Does one of the networks cover the given one?
pub open spec fn covered_by_any(nets: Seq<Ipv4Net>, n: Ipv4Net) -> bool {
    exists|i: int| 0 <= i < nets.len() && (#[trigger] nets[i]).covers(n)
}

/// Looks for a network that has the address.
pub fn any_has(nets: &[Ipv4Net], ip: &Ipv4Addr) -> (r: bool)
    ensures
        r == in_any(nets@, *ip),
{
    let mut i: usize = 0;
    while i < nets.len()
        invariant
            i <= nets.len(),
            forall|j: int| 0 <= j < i ==> !(#[trigger] nets@[j]).has(*ip),
        decreases nets.len() - i,
    {
        if nets[i].contains(ip) {
            assert(nets@[i as int].has(*ip));
            return true;
        }
        i = i + 1;
    }
    false
}

/// Looks for a network that covers the given one.
pub fn any_covers(nets: &[Ipv4Net], n: &Ipv4Net) -> (r: bool)
    ensures
        r == covered_by_any(nets@, *n),
{
    let mut i: usize = 0;
    while i < nets.len()
        invariant
            i <= nets.len(),
            forall|j: int| 0 <= j < i ==> !(#[trigger] nets@[j]).covers(*n),
        decreases nets.len() - i,
    {
        if nets[i].contains_net(n) {
            assert(nets@[i as int].covers(*n));
            return true;
        }
        i = i + 1;
    }
    false
}

/// A copy of a list of networks.
pub fn copy_nets(nets: &[Ipv4Net]) -> (r: Vec<Ipv4Net>)
    ensures
        r@ == nets@,
{
    let mut out: Vec<Ipv4Net> = Vec::new();
    append_nets(&mut out, nets);
    out
}

/// Appends networks to a list.
pub fn append_nets(out: &mut Vec<Ipv4Net>, nets: &[Ipv4Net])
    ensures
        final(out)@ == old(out)@ + nets@,
{
    let mut i: usize = 0;
    while i < nets.len()
        invariant
            i <= nets.len(),
            out@ == old(out)@ + nets@.take(i as int),
        decreases nets.len() - i,
    {
        out.push(nets[i]);
        i = i + 1;
    }
}

/// An address belongs to a network exactly when it shares the prefix: what is left of
/// both after the host bits are cut off is the same number.
pub proof fn the_prefix_decides(n: Ipv4Net, ip: Ipv4Addr)
    ensures
        n.has(ip) <==> ip.bits as int / n.size() as int == n.addr.bits as int / n.size() as int,
{
    n.lemma_bounds();
    let s = n.size() as int;
    let (a, b) = (n.addr.bits as int, ip.bits as int);
    let (q, r) = (a / s, b / s);
    assert(a == q * s + a % s && 0 <= a % s < s) by (nonlinear_arith)
        requires
            s >= 1,
            q == a / s,
    ;
    assert(b == r * s + b % s && 0 <= b % s < s) by (nonlinear_arith)
        requires
            s >= 1,
            r == b / s,
    ;
    assert(n.first() == q * s);
    if r < q {
        assert(r * s + s <= q * s) by (nonlinear_arith)
            requires
                r < q,
                s >= 1,
        ;
    }
    if q < r {
        assert(q * s + s <= r * s) by (nonlinear_arith)
            requires
                q < r,
                s >= 1,
        ;
    }
}

/// A network one bit longer is half as large.
pub proof fn a_longer_prefix_halves(p: u8)
    ensures
        p < 32 ==> span(p) == 2 * span((p + 1) as u8),
        span(32) == 1,
        span(24) == 256,
        span(16) == 0x1_0000,
        span(0) == 0x1_0000_0000,
{
    lemma_span_values();
    lemma_span_divides(0);
    assert(blocks_in_space(0) == 1);
    assert(span(0) * 1 == span(0)) by (nonlinear_arith);
    assert(span(16) == 0x1_0000) by {
        reveal_with_fuel(span, 9);
    }
}

/// Every address of every network of a list is in the list, and no other.
pub proof fn a_list_holds_what_its_networks_hold(nets: Seq<Ipv4Net>, n: Ipv4Net, ip: Ipv4Addr)
    ensures
        in_any(nets.push(n), ip) <==> in_any(nets, ip) || n.has(ip),
        !in_any(Seq::empty(), ip),
{
    if in_any(nets, ip) {
        let i = choose|i: int| 0 <= i < nets.len() && (#[trigger] nets[i]).has(ip);
        assert(nets.push(n)[i].has(ip));
    }
    if n.has(ip) {
        assert(nets.push(n)[nets.len() as int].has(ip));
    }
    if in_any(nets.push(n), ip) {
        let i = choose|i: int| 0 <= i <= nets.len() && (#[trigger] nets.push(n)[i]).has(ip);
        if i < nets.len() {
            assert(nets[i].has(ip));
        }
    }
}

} // verus!
