//! ARP requests: what they say, whom they go to, and in what order.
use crate::addr::{Ipv4Addr, MacAddr};
use crate::bytes;
use crate::capture::{self, EventView, Source};
use crate::error::{Error, ErrorView};
use crate::iface::Local;
use crate::net::{self, Ipv4Net};
use crate::ordered;
use crate::text;
use vstd::prelude::*;

verus! {

broadcast use vstd::seq::group_seq_axioms;

/// Length of an Ethernet frame with an ARP packet in it.
pub const FRAME: usize = 42;

/// Write buffer size for the datalink channel. pnet defaults to 4096 bytes,
/// which would cap every burst at ~97 frames; with 4 MiB a burst of thousands
/// of packets fits comfortably.
pub const WRITE_BUF: usize = 4 * 1024 * 1024;

/// Packets-per-burst ceiling imposed by the buffer above.
pub const MAX_BURST: usize = WRITE_BUF / FRAME;

/// Packets-per-burst ceiling for *broadcast safety*. Every ARP request goes out
/// as broadcast and is flooded to all switch ports. Large instantaneous bursts
/// trip the "broadcast storm control" on managed switches, which then starts
/// DROPPING broadcasts, including the replies we are after. Keeping bursts small
/// smooths the send rate and the switch never reacts.
pub const SAFE_BURST: usize = 16;

/// Which address to put in the ARP request's "sender protocol address" field.
///
/// This is the most delicate point of the tool. Measured in a lab against a
/// Linux target holding a static address in a subnet the prober is not part of:
///
/// | sender                        | reply    |
/// |-------------------------------|----------|
/// | our own IP (another subnet)   | none     |
/// | the target's own address      | none     |
/// | a neighbour of the target     | answers  |
/// | 0.0.0.0 (ARP probe)           | answers  |
///
/// In short: a sender from another subnet is ignored. The RFC 5227 ARP probe
/// solves that and is also the only option that dirties nobody's ARP cache: a
/// forged neighbour sender would be recorded as a bogus IP->MAC pair for the
/// gateway on every host of the segment, which is ARP poisoning.
#[derive(Debug, Clone, Copy, PartialEq, Eq, Structural)]
pub enum Spa {
    /// sender 0.0.0.0 (RFC 5227). The default: reaches any subnet and writes
    /// into nobody's ARP cache.
    Probe,
    /// Our own address. Only works inside our own subnet.
    Local,
    /// The target itself: mimics duplicate-address detection.
    Dest,
    /// First host of the target's subnet. Beats stacks that ignore the probe,
    /// but POISONS the neighbours' ARP caches with a bogus pair, use knowingly.
    Neighbor,
    Fixed(Ipv4Addr),
}

impl Spa {
    /// The sender that a text names.
    pub open spec fn parsed(s: Seq<char>) -> Result<Spa, ErrorView> {
        if s == "probe"@ || s == "auto"@ {
            Ok(Spa::Probe)
        } else if s == "local"@ {
            Ok(Spa::Local)
        } else if s == "dest"@ {
            Ok(Spa::Dest)
        } else if s == "neighbor"@ {
            Ok(Spa::Neighbor)
        } else {
            match Ipv4Addr::parsed(s) {
                Some(ip) => Ok(Spa::Fixed(ip)),
                None => Err(ErrorView::InvalidSpa { text: s }),
            }
        }
    }

    /// Reads the name of a sender, or its address.
    pub fn parse(s: &str) -> (r: Result<Spa, Error>)
        ensures
            match Spa::parsed(s@) {
                Ok(x) => r matches Ok(y) && y == x,
                Err(e) => r matches Err(x) && x@ == e,
            },
    {
        if text::same_text(s, "probe") || text::same_text(s, "auto") {
            Ok(Spa::Probe)
        } else if text::same_text(s, "local") {
            Ok(Spa::Local)
        } else if text::same_text(s, "dest") {
            Ok(Spa::Dest)
        } else if text::same_text(s, "neighbor") {
            Ok(Spa::Neighbor)
        } else {
            match Ipv4Addr::parse(s) {
                Some(ip) => Ok(Spa::Fixed(ip)),
                None => Err(Error::InvalidSpa { text: s.to_owned() }),
            }
        }
    }

    /// The sender of a request for a target. The neighbour is the .1 of the
    /// target's /24, or the .2 where the target is the .1 itself.
    pub open spec fn sender(self, target: Ipv4Addr, local: Option<Ipv4Addr>) -> Ipv4Addr {
        match self {
            Spa::Probe => Ipv4Addr { bits: 0 },
            Spa::Local => match local {
                Some(ip) => ip,
                None => Ipv4Addr { bits: 0 },
            },
            Spa::Dest => target,
            Spa::Neighbor => {
                let base = target.bits - target.bits % 256;
                Ipv4Addr {
                    bits: (if target.bits % 256 == 1 {
                        base + 2
                    } else {
                        base + 1
                    }) as u32,
                }
            },
            Spa::Fixed(ip) => ip,
        }
    }

    /// The sender of a request for a target.
    pub fn for_target(&self, target: Ipv4Addr, local: Option<Ipv4Addr>) -> (r: Ipv4Addr)
        ensures
            r == self.sender(target, local),
    {
        match self {
            Spa::Probe => Ipv4Addr::unspecified(),
            // Without a local IPv4 the `local` mode is rejected before it gets
            // here (`scan::validate_spa`); this fallback is belt and braces.
            Spa::Local => match local {
                Some(ip) => ip,
                None => Ipv4Addr::unspecified(),
            },
            Spa::Dest => target,
            Spa::Neighbor => {
                let base: u32 = target.bits - target.bits % 256;
                if target.bits % 256 == 1 {
                    Ipv4Addr { bits: base + 2 }
                } else {
                    Ipv4Addr { bits: base + 1 }
                }
            },
            Spa::Fixed(ip) => *ip,
        }
    }

    /// Neighbor mode forges an address other hosts may end up caching, and so does
    /// an address given by hand.
    pub fn poisons_arp_cache(&self) -> (r: bool)
        ensures
            r == (*self is Neighbor || *self is Fixed),
    {
        match self {
            Spa::Neighbor => true,
            Spa::Fixed(_) => true,
            _ => false,
        }
    }
}

/// Sweep pacing parameters, grouped so we do not carry six arguments around.
#[derive(Debug, Clone, Copy, PartialEq, Eq, Structural)]
pub struct Pace {
    /// Packets per second inside one /24 block.
    pub rate: u64,
    /// Silence after each /24, in milliseconds. This is what keeps storm
    /// control at bay: every /24 becomes a short burst followed by quiet, the
    /// pattern in which replies get through and the switch stands down.
    pub settle_ms: u64,
    /// How many times to resend each /24. A reply lost on one pass tends to
    /// arrive on the next; arp-scan uses the same idea with --retry.
    pub passes: u32,
}

impl Default for Pace {
    fn default() -> (r: Pace)
        ensures
            r == (Pace { rate: 2_000, settle_ms: 150, passes: 2 }),
    {
        Pace { rate: 2_000, settle_ms: 150, passes: 2 }
    }
}

/// How many packets to send at once at a rate: a hundredth of a second's worth, at
/// least one and never more than a switch takes calmly.
pub fn burst_size(rate: u64) -> (r: usize)
    ensures
        r == (if rate / 100 < 1 {
            1
        } else if rate / 100 > SAFE_BURST {
            SAFE_BURST as u64
        } else {
            rate / 100
        }),
        1 <= r <= SAFE_BURST,
        r <= MAX_BURST,
{
    let n: u64 = rate / 100;
    if n < 1 {
        1
    } else if n > SAFE_BURST as u64 {
        SAFE_BURST
    } else {
        n as usize
    }
}

// ---------------------------------------------------------------------
// The request
// ---------------------------------------------------------------------

/// An Ethernet frame with an ARP request in it: to everyone, from us; Ethernet
/// and IPv4, addresses of six and four bytes, operation 1; from us with the given
/// sender address, for the target's hardware address, which is not known.
pub open spec fn request_frame(mac: MacAddr, spa: Ipv4Addr, target: Ipv4Addr) -> Seq<u8> {
    bytes::mac_bytes(MacAddr(255, 255, 255, 255, 255, 255)) + bytes::mac_bytes(mac)
        + bytes::word_bytes(capture::ETHERTYPE_ARP) + request_packet(mac, spa, target)
}

/// The ARP packet of that frame.
pub open spec fn request_packet(mac: MacAddr, spa: Ipv4Addr, target: Ipv4Addr) -> Seq<u8> {
    bytes::word_bytes(1) + bytes::word_bytes(capture::ETHERTYPE_IPV4) + seq![6u8, 4u8]
        + bytes::word_bytes(1) + bytes::mac_bytes(mac) + bytes::ipv4_bytes(spa) + bytes::mac_bytes(
        MacAddr(0, 0, 0, 0, 0, 0),
    ) + bytes::ipv4_bytes(target)
}

/// Builds a complete Ethernet+ARP request frame (42 bytes).
pub fn build_request(local: &Local, spa: Ipv4Addr, target: Ipv4Addr) -> (r: Vec<u8>)
    ensures
        r@ == request_frame(local.mac, spa, target),
        r.len() == FRAME,
{
    let mut buf: Vec<u8> = Vec::new();
    bytes::push_mac(&mut buf, MacAddr::broadcast());
    bytes::push_mac(&mut buf, local.mac);
    bytes::push_word(&mut buf, capture::ETHERTYPE_ARP);
    bytes::push_word(&mut buf, 1);
    bytes::push_word(&mut buf, capture::ETHERTYPE_IPV4);
    buf.push(6);
    buf.push(4);
    bytes::push_word(&mut buf, 1);
    bytes::push_mac(&mut buf, local.mac);
    bytes::push_ipv4(&mut buf, spa);
    bytes::push_mac(&mut buf, MacAddr::zero());
    bytes::push_ipv4(&mut buf, target);
    assert(buf@ =~= request_frame(local.mac, spa, target));
    buf
}

/// A request says to every other station what it was built to say: who asks, under
/// which address and for which. A probe tells of the address it asks for, any
/// other request of the sender it names.
pub proof fn a_request_is_understood(
    mac: MacAddr,
    spa: Ipv4Addr,
    target: Ipv4Addr,
    other: MacAddr,
)
    requires
        mac != other,
    ensures
        capture::frame_says(request_frame(mac, spa, target), other) == capture::maybe(
            if spa.bits != 0 {
                Some(
                    EventView::V4 {
                        mac,
                        ip: spa,
                        src: if spa == target {
                            Source::Gratuitous
                        } else {
                            Source::ArpRequest
                        },
                    },
                )
            } else if target.bits != 0 {
                Some(EventView::V4 { mac, ip: target, src: Source::Gratuitous })
            } else {
                None
            },
        ),
{
    let f = request_frame(mac, spa, target);
    let p = request_packet(mac, spa, target);
    assert(f.len() == 42);
    assert(f.skip(14) =~= p);
    assert(f.subrange(6, 12) =~= bytes::mac_bytes(mac));
    bytes::mac_reads_back(f, 6, mac);
    assert(f.subrange(12, 14) =~= bytes::word_bytes(capture::ETHERTYPE_ARP));
    bytes::word_reads_back(f, 12, capture::ETHERTYPE_ARP);
    assert(p.subrange(6, 8) =~= bytes::word_bytes(1));
    bytes::word_reads_back(p, 6, 1);
    assert(p.subrange(8, 14) =~= bytes::mac_bytes(mac));
    bytes::mac_reads_back(p, 8, mac);
    assert(p.subrange(14, 18) =~= bytes::ipv4_bytes(spa));
    bytes::ipv4_bytes_read_back(p, 14, spa);
    assert(p.subrange(24, 28) =~= bytes::ipv4_bytes(target));
    bytes::ipv4_bytes_read_back(p, 24, target);
}

/// A probe names no sender at all, so it can write into nobody's ARP cache; and of
/// all senders only a neighbour or a fixed address names one that is neither ours
/// nor the target's.
pub proof fn only_forged_senders_poison(spa: Spa, target: Ipv4Addr, local: Option<Ipv4Addr>)
    ensures
        spa.sender(target, local).bits == 0 || spa.sender(target, local) == target || Some(
            spa.sender(target, local),
        ) == local || spa is Neighbor || spa is Fixed,
        spa is Probe ==> spa.sender(target, local).bits == 0,
{
}

/// A neighbour is never the target itself, and lies in the target's /24.
pub proof fn a_neighbour_is_not_the_target(target: Ipv4Addr, local: Option<Ipv4Addr>)
    ensures
        Spa::Neighbor.sender(target, local) != target,
        Spa::Neighbor.sender(target, local).bits / 256 == target.bits / 256,
{
}

// ---------------------------------------------------------------------
// Blocks and their addresses
// ---------------------------------------------------------------------

/// Do two ranges touch? It is enough for one to contain the other's network.
pub fn overlaps(a: &Ipv4Net, b: &Ipv4Net) -> (r: bool)
    ensures
        r == a.meets(*b),
{
    proof {
        net::meets_at_an_end(*a, *b);
    }
    a.contains(&b.network()) || b.contains(&a.network())
}

/// The lowest address of a network that can be probed: behind the network's own,
/// except in a /31 or a /32, which have no such thing.
pub open spec fn lowest_host(n: Ipv4Net) -> int {
    if n.prefix_len >= 31 {
        n.first()
    } else {
        n.first() + 1
    }
}

/// How many addresses of a network can be probed.
pub open spec fn hosts_in(n: Ipv4Net) -> nat {
    if n.prefix_len >= 31 {
        n.size()
    } else {
        (n.size() - 2) as nat
    }
}

/// The addresses of a network that can be probed, in order.
pub open spec fn host_addrs(n: Ipv4Net) -> Seq<Ipv4Addr> {
    Seq::new(hosts_in(n), |i: int| Ipv4Addr { bits: (lowest_host(n) + i) as u32 })
}

/// The addresses that can be probed are addresses of the network: all of them but
/// for the first and the last, where the network has more than two.
pub proof fn hosts_are_in_the_network(n: Ipv4Net)
    ensures
        n.first() <= lowest_host(n),
        lowest_host(n) + hosts_in(n) - 1 <= n.last(),
        n.prefix_len < 31 ==> n.size() >= 4,
        forall|i: int|
            0 <= i < host_addrs(n).len() ==> (#[trigger] host_addrs(n)[i]).bits == lowest_host(n) + i
                && n.has(host_addrs(n)[i]),
        forall|ip: Ipv4Addr| #[trigger]
            host_addrs(n).contains(ip) <==> n.has(ip) && (n.prefix_len < 31 ==> ip.bits != n.first()
                && ip.bits != n.last()),
{
    n.lemma_bounds();
    net::lemma_span_values();
    if n.prefix_len < 31 {
        net::lemma_span_monotone(n.prefix_len, 30);
    }
    let s = host_addrs(n);
    assert forall|ip: Ipv4Addr| #[trigger] s.contains(ip) <==> n.has(ip) && (n.prefix_len < 31
        ==> ip.bits != n.first() && ip.bits != n.last()) by {
        if n.has(ip) && (n.prefix_len < 31 ==> ip.bits != n.first() && ip.bits != n.last()) {
            assert(s[ip.bits - lowest_host(n)] == ip);
        }
        if s.contains(ip) {
            let i = choose|i: int| 0 <= i < s.len() && s[i] == ip;
            assert(s[i].bits == lowest_host(n) + i);
        }
    }
}

/// How many addresses of a network can be probed.
pub fn host_count(n: &Ipv4Net) -> (r: u64)
    ensures
        r == hosts_in(*n),
        r == host_addrs(*n).len(),
{
    let lo: u64 = n.network().bits as u64;
    let hi: u64 = n.broadcast().bits as u64;
    proof {
        n.lemma_bounds();
        hosts_are_in_the_network(*n);
    }
    if n.prefix_len >= 31 {
        hi - lo + 1
    } else {
        hi - lo - 1
    }
}

/// Probeable addresses of a network. For /31 and /32 there is no usable-host
/// concept, so we hand back the raw addresses.
pub fn hosts(n: Ipv4Net) -> (r: Vec<Ipv4Addr>)
    ensures
        r@ == host_addrs(n),
{
    let count: u64 = host_count(&n);
    let lo: u32 = n.network().bits;
    proof {
        n.lemma_bounds();
        hosts_are_in_the_network(n);
    }
    let base: u64 = if n.prefix_len >= 31 {
        lo as u64
    } else {
        lo as u64 + 1
    };
    let mut out: Vec<Ipv4Addr> = Vec::new();
    let mut i: u64 = 0;
    while i < count
        invariant
            i <= count,
            count == hosts_in(n),
            base == lowest_host(n),
            base + count <= 0x1_0000_0000,
            out@ == host_addrs(n).take(i as int),
        decreases count - i,
    {
        out.push(Ipv4Addr { bits: (base + i) as u32 });
        assert(out@ =~= host_addrs(n).take(i + 1));
        i = i + 1;
    }
    assert(out@ =~= host_addrs(n));
    out
}

/// How many aligned /24 blocks a network is swept in: one where it is a /24 or
/// smaller.
pub open spec fn blocks_in(n: Ipv4Net) -> nat {
    if n.prefix_len >= 24 {
        1
    } else {
        n.size() / 256
    }
}

/// A block of a network.
pub open spec fn block(n: Ipv4Net, i: int) -> Ipv4Net {
    if n.prefix_len >= 24 {
        n
    } else {
        Ipv4Net { addr: Ipv4Addr { bits: (n.first() + 256 * i) as u32 }, prefix_len: 24 }
    }
}

/// The blocks of a network, in order.
pub open spec fn blocks(n: Ipv4Net) -> Seq<Ipv4Net> {
    Seq::new(blocks_in(n), |i: int| block(n, i))
}

proof fn lemma_blocks(n: Ipv4Net)
    requires
        n.prefix_len < 24,
    ensures
        blocks_in(n) >= 2,
        256 * blocks_in(n) == n.size(),
        n.first() % 256 == 0,
        forall|i: int|
            0 <= i < blocks_in(n) ==> (#[trigger] block(n, i)).addr.bits == n.first() + 256 * i
                && block(n, i).first() == n.first() + 256 * i && block(n, i).size() == 256,
{
    n.lemma_bounds();
    net::lemma_span_values();
    net::lemma_span_monotone((n.prefix_len + 1) as u8, 24);
    let k = choose|k: nat| k >= 1 && net::span((n.prefix_len + 1) as u8) == #[trigger] (k * net::span(24));
    assert(n.size() == 2 * (k * 256));
    assert(n.size() == 256 * (2 * k)) by (nonlinear_arith)
        requires
            n.size() == 2 * (k * 256),
    ;
    let b = n.addr.bits as int;
    let s = n.size() as int;
    let m = (2 * k) as int;
    let q = b / s;
    assert(n.first() == q * s) by (nonlinear_arith)
        requires
            s >= 1,
            q == b / s,
            n.first() == b - b % s,
    ;
    assert(q * s == 256 * (q * m)) by (nonlinear_arith)
        requires
            s == 256 * m,
    ;
    assert((256 * (q * m)) % 256 == 0);
    assert forall|i: int| 0 <= i < blocks_in(n) implies (#[trigger] block(n, i)).addr.bits
        == n.first() + 256 * i && block(n, i).first() == n.first() + 256 * i && block(n, i).size()
        == 256 by {
        assert(n.first() + 256 * i <= n.last());
        assert((n.first() + 256 * i) % 256 == 0);
    }
}

/// The blocks of a network hold its addresses and no others, each in one block.
pub proof fn blocks_part_the_network(n: Ipv4Net, ip: Ipv4Addr)
    ensures
        n.has(ip) <==> exists|i: int| 0 <= i < blocks(n).len() && (#[trigger] blocks(n)[i]).has(ip),
        forall|i: int, j: int|
            0 <= i < j < blocks(n).len() ==> !((#[trigger] blocks(n)[i]).has(ip) && (
            #[trigger] blocks(n)[j]).has(ip)),
{
    if n.prefix_len >= 24 {
        assert(blocks(n)[0] == n);
    } else {
        n.lemma_bounds();
        lemma_blocks(n);
        if n.has(ip) {
            let i = (ip.bits - n.first()) / 256;
            assert(0 <= i < blocks_in(n));
            assert(block(n, i).first() == n.first() + 256 * i);
            assert(blocks(n)[i] == block(n, i));
            assert(blocks(n)[i].has(ip));
        }
        if exists|i: int| 0 <= i < blocks(n).len() && (#[trigger] blocks(n)[i]).has(ip) {
            let i = choose|i: int| 0 <= i < blocks(n).len() && (#[trigger] blocks(n)[i]).has(ip);
            assert(block(n, i).first() == n.first() + 256 * i);
            assert(n.has(ip));
        }
        assert forall|i: int, j: int| 0 <= i < j < blocks(n).len() implies !((
        #[trigger] blocks(n)[i]).has(ip) && (#[trigger] blocks(n)[j]).has(ip)) by {
            assert(block(n, i).first() == n.first() + 256 * i);
            assert(block(n, j).first() == n.first() + 256 * j);
        }
    }
}

/// How many /24 blocks a network is swept in.
pub fn block_number(n: &Ipv4Net) -> (r: u32)
    ensures
        r == blocks_in(*n),
        1 <= r <= 0x100_0000,
{
    if n.prefix_len >= 24 {
        return 1;
    }
    proof {
        n.lemma_bounds();
        lemma_blocks(*n);
    }
    let span: u64 = n.broadcast().bits as u64 - n.network().bits as u64 + 1;
    (span / 256) as u32
}

/// One of the blocks of a network.
pub fn nth_block(n: &Ipv4Net, i: u32) -> (r: Ipv4Net)
    requires
        i < blocks_in(*n),
    ensures
        r == blocks(*n)[i as int],
{
    if n.prefix_len >= 24 {
        return *n;
    }
    proof {
        n.lemma_bounds();
        lemma_blocks(*n);
        assert(block(*n, i as int).addr.bits == n.first() + 256 * i);
    }
    Ipv4Net { addr: Ipv4Addr { bits: n.network().bits + 256 * i }, prefix_len: 24 }
}

/// Splits a network into aligned /24 blocks. Networks smaller than a /24 (prefix >
/// 24) are returned whole.
pub fn slash24_blocks(n: Ipv4Net) -> (r: Vec<Ipv4Net>)
    ensures
        r@ == blocks(n),
{
    let count: u32 = block_number(&n);
    let mut out: Vec<Ipv4Net> = Vec::new();
    let mut i: u32 = 0;
    while i < count
        invariant
            i <= count,
            count == blocks_in(n),
            out@ == blocks(n).take(i as int),
        decreases count - i,
    {
        out.push(nth_block(&n, i));
        assert(out@ =~= blocks(n).take(i + 1));
        i = i + 1;
    }
    assert(out@ =~= blocks(n));
    out
}

/// Is the address in none of the ignored ranges?
pub open spec fn allowed(excluded: Seq<Ipv4Net>) -> spec_fn(Ipv4Addr) -> bool {
    |ip: Ipv4Addr| !net::in_any(excluded, ip)
}

/// The addresses of a block that survive the ignored ranges.
pub open spec fn survivors(b: Ipv4Net, excluded: Seq<Ipv4Net>) -> Seq<Ipv4Addr> {
    host_addrs(b).filter(allowed(excluded))
}

fn any_touches(excluded: &[Ipv4Net], b: &Ipv4Net) -> (r: bool)
    ensures
        r == exists|i: int| 0 <= i < excluded@.len() && b.meets(#[trigger] excluded@[i]),
{
    let mut i: usize = 0;
    while i < excluded.len()
        invariant
            i <= excluded.len(),
            forall|j: int| 0 <= j < i ==> !b.meets(#[trigger] excluded@[j]),
        decreases excluded.len() - i,
    {
        if overlaps(b, &excluded[i]) {
            assert(b.meets(excluded@[i as int]));
            return true;
        }
        i = i + 1;
    }
    false
}

proof fn lemma_covered_block_is_empty(b: Ipv4Net, excluded: Seq<Ipv4Net>)
    requires
        net::covered_by_any(excluded, b),
    ensures
        survivors(b, excluded) == Seq::<Ipv4Addr>::empty(),
{
    hosts_are_in_the_network(b);
    let k = choose|k: int| 0 <= k < excluded.len() && (#[trigger] excluded[k]).covers(b);
    assert forall|i: int| 0 <= i < host_addrs(b).len() implies !allowed(excluded)(
        #[trigger] host_addrs(b)[i],
    ) by {
        assert(excluded[k].has(host_addrs(b)[i]));
    }
    ordered::lemma_filter_none(host_addrs(b), allowed(excluded));
}

proof fn lemma_untouched_block_is_whole(b: Ipv4Net, excluded: Seq<Ipv4Net>)
    requires
        forall|i: int| 0 <= i < excluded.len() ==> !b.meets(#[trigger] excluded[i]),
    ensures
        survivors(b, excluded) == host_addrs(b),
{
    hosts_are_in_the_network(b);
    assert forall|i: int| 0 <= i < host_addrs(b).len() implies allowed(excluded)(
        #[trigger] host_addrs(b)[i],
    ) by {
        let ip = host_addrs(b)[i];
        if net::in_any(excluded, ip) {
            let k = choose|k: int| 0 <= k < excluded.len() && (#[trigger] excluded[k]).has(ip);
            assert(b.has(ip) && excluded[k].has(ip));
            assert(b.meets(excluded[k]));
        }
    }
    ordered::lemma_filter_all(host_addrs(b), allowed(excluded));
}

/// Addresses of a /24 block that survive the ignored ranges. A fully covered
/// block becomes empty; an untouched block never pays for the filter; only a
/// partially covered block is walked address by address.
pub fn block_addrs(b: Ipv4Net, excluded: &[Ipv4Net]) -> (r: Vec<Ipv4Addr>)
    ensures
        r@ == survivors(b, excluded@),
{
    if net::any_covers(excluded, &b) {
        proof {
            lemma_covered_block_is_empty(b, excluded@);
        }
        return Vec::new();
    }
    let all: Vec<Ipv4Addr> = hosts(b);
    if !any_touches(excluded, &b) {
        proof {
            lemma_untouched_block_is_whole(b, excluded@);
        }
        return all;
    }
    let ghost p = allowed(excluded@);
    let mut out: Vec<Ipv4Addr> = Vec::new();
    let mut i: usize = 0;
    proof {
        assert(all@.take(0) =~= Seq::empty());
        ordered::lemma_filter_none(all@.take(0), p);
    }
    while i < all.len()
        invariant
            i <= all.len(),
            p == allowed(excluded@),
            out@ == all@.take(i as int).filter(p),
        decreases all.len() - i,
    {
        proof {
            ordered::lemma_filter_step(all@, i as int, p);
        }
        if !net::any_has(excluded, &all[i]) {
            out.push(all[i]);
        }
        i = i + 1;
    }
    assert(all@.take(all.len() as int) =~= all@);
    out
}

/// How many addresses the block contributes, without materialising the list where
/// it is untouched or covered.
pub fn block_count(b: Ipv4Net, excluded: &[Ipv4Net]) -> (r: u64)
    ensures
        r == survivors(b, excluded@).len(),
        r <= hosts_in(b),
{
    proof {
        host_addrs(b).lemma_filter_len(allowed(excluded@));
    }
    if net::any_covers(excluded, &b) {
        proof {
            lemma_covered_block_is_empty(b, excluded@);
        }
        return 0;
    }
    if !any_touches(excluded, &b) {
        proof {
            lemma_untouched_block_is_whole(b, excluded@);
        }
        return host_count(&b);
    }
    block_addrs(b, excluded).len() as u64
}

/// An address of a block is probed exactly when it can be and is in no ignored
/// range.
pub proof fn ignored_means_not_a_single_packet(b: Ipv4Net, excluded: Seq<Ipv4Net>, ip: Ipv4Addr)
    ensures
        survivors(b, excluded).contains(ip) <==> host_addrs(b).contains(ip) && !net::in_any(
            excluded,
            ip,
        ),
{
    ordered::lemma_filter_holds(host_addrs(b), allowed(excluded), ip);
}

/// Is the address one that a block of the network probes?
pub open spec fn probed_in(n: Ipv4Net, ip: Ipv4Addr) -> bool {
    reached(blocks(n), ip)
}

/// Is the address one that one of the networks probes?
pub open spec fn probed_in_any(nets: Seq<Ipv4Net>, ip: Ipv4Addr) -> bool {
    exists|i: int| 0 <= i < nets.len() && probed_in(#[trigger] nets[i], ip)
}

/// What a network probes is an address of it: every one but for the first and the
/// last of each /24, or of the network itself where it is smaller. A /31 and a /32
/// are probed whole.
pub proof fn probed_means_inside(n: Ipv4Net, ip: Ipv4Addr)
    ensures
        probed_in(n, ip) <==> n.has(ip) && (if n.prefix_len < 24 {
            ip.bits % 256 != 0 && ip.bits % 256 != 255
        } else if n.prefix_len < 31 {
            ip.bits != n.first() && ip.bits != n.last()
        } else {
            true
        }),
{
    let bs = blocks(n);
    blocks_part_the_network(n, ip);
    if n.prefix_len >= 24 {
        assert(bs[0] == n);
        hosts_are_in_the_network(n);
        if probed_in(n, ip) {
            let k = choose|k: int| 0 <= k < bs.len() && host_addrs(#[trigger] bs[k]).contains(ip);
            assert(bs[k] == n);
        }
        if host_addrs(n).contains(ip) {
            assert(host_addrs(bs[0]).contains(ip));
        }
    } else {
        lemma_blocks(n);
        if probed_in(n, ip) {
            let k = choose|k: int| 0 <= k < bs.len() && host_addrs(#[trigger] bs[k]).contains(ip);
            assert(bs[k] == block(n, k));
            hosts_are_in_the_network(bs[k]);
            assert(bs[k].has(ip));
        }
        if n.has(ip) && ip.bits % 256 != 0 && ip.bits % 256 != 255 {
            let k = choose|k: int| 0 <= k < bs.len() && (#[trigger] bs[k]).has(ip);
            assert(bs[k] == block(n, k));
            hosts_are_in_the_network(bs[k]);
            assert(host_addrs(bs[k]).contains(ip));
        }
    }
}

proof fn lemma_probed_is_inside(n: Ipv4Net, ip: Ipv4Addr)
    requires
        probed_in(n, ip),
    ensures
        n.has(ip),
{
    probed_means_inside(n, ip);
}

/// Does the network probe the address?
pub fn probes(n: &Ipv4Net, ip: &Ipv4Addr) -> (r: bool)
    ensures
        r == probed_in(*n, *ip),
{
    proof {
        probed_means_inside(*n, *ip);
    }
    if !n.contains(ip) {
        return false;
    }
    if n.prefix_len < 24 {
        ip.bits % 256 != 0 && ip.bits % 256 != 255
    } else if n.prefix_len < 31 {
        ip.bits != n.network().bits && ip.bits != n.broadcast().bits
    } else {
        true
    }
}

/// Does a network probe all that another would, which lies in it?
pub open spec fn serves(k: Ipv4Net, n: Ipv4Net) -> bool {
    &&& k.covers(n)
    &&& forall|ip: Ipv4Addr| #[trigger] probed_in(n, ip) ==> probed_in(k, ip)
}

/// A network probes all that another in it would, unless that is a /31 or a /32 at
/// one of the ends that it leaves out.
proof fn lemma_cover_serves(k: Ipv4Net, n: Ipv4Net)
    requires
        k.covers(n),
        n.prefix_len < 31,
    ensures
        serves(k, n),
{
    k.lemma_bounds();
    n.lemma_bounds();
    net::lemma_span_values();
    assert forall|ip: Ipv4Addr| #[trigger] probed_in(n, ip) implies probed_in(k, ip) by {
        probed_means_inside(n, ip);
        probed_means_inside(k, ip);
        net::lemma_span_monotone(n.prefix_len, 30);
        if k.prefix_len >= 31 {
            net::lemma_span_monotone(31, k.prefix_len);
        } else if k.prefix_len >= 24 {
            net::lemma_span_monotone(24, k.prefix_len);
            if n.prefix_len < 24 {
                net::lemma_span_monotone(n.prefix_len, 23);
            }
        } else if n.prefix_len >= 24 {
            let a = Ipv4Net { addr: ip, prefix_len: 24 };
            a.lemma_bounds();
            net::lemma_span_monotone(24, n.prefix_len);
            assert(a.has(ip) && n.has(ip));
            net::networks_nest_or_part(a, n);
            assert(a.meets(n));
            assert(a.first() <= n.first() && n.last() <= a.last());
        }
    }
}

/// Looks for a network that probes all that the given one would.
pub fn any_serves(nets: &[Ipv4Net], n: &Ipv4Net) -> (r: bool)
    ensures
        r == exists|i: int| 0 <= i < nets@.len() && serves(#[trigger] nets@[i], *n),
{
    let lo = n.network();
    let hi = n.broadcast();
    let mut i: usize = 0;
    while i < nets.len()
        invariant
            i <= nets.len(),
            lo.bits == n.first(),
            hi.bits == n.last(),
            forall|j: int| 0 <= j < i ==> !serves(#[trigger] nets@[j], *n),
        decreases nets.len() - i,
    {
        let k: Ipv4Net = nets[i];
        proof {
            lemma_ends_decide(k, *n, lo, hi);
        }
        if k.contains_net(n) && (n.prefix_len < 31 || (probes(&k, &lo) && probes(&k, &hi))) {
            assert(serves(nets@[i as int], *n));
            return true;
        }
        i = i + 1;
    }
    false
}

proof fn lemma_ends_decide(k: Ipv4Net, n: Ipv4Net, lo: Ipv4Addr, hi: Ipv4Addr)
    requires
        lo.bits == n.first(),
        hi.bits == n.last(),
    ensures
        serves(k, n) <==> k.covers(n) && (n.prefix_len < 31 || (probed_in(k, lo) && probed_in(k, hi))),
{
    n.lemma_bounds();
    net::lemma_span_values();
    if n.prefix_len < 31 {
        if k.covers(n) {
            lemma_cover_serves(k, n);
        }
    } else {
        net::lemma_span_monotone(31, n.prefix_len);
        probed_means_inside(n, lo);
        probed_means_inside(n, hi);
        assert(probed_in(n, lo) && probed_in(n, hi));
        if k.covers(n) && probed_in(k, lo) && probed_in(k, hi) {
            assert forall|ip: Ipv4Addr| #[trigger] probed_in(n, ip) implies probed_in(k, ip) by {
                probed_means_inside(n, ip);
                assert(ip == lo || ip == hi);
            }
        }
    }
}

// ---------------------------------------------------------------------
// The sweep
// ---------------------------------------------------------------------

/// The blocks of all networks, in the order of the networks.
pub open spec fn all_blocks(nets: Seq<Ipv4Net>) -> Seq<Ipv4Net>
    decreases nets.len(),
{
    if nets.len() == 0 {
        Seq::empty()
    } else {
        blocks(nets[0]) + all_blocks(nets.drop_first())
    }
}

/// Does one of the blocks probe the address?
pub open spec fn reached(bs: Seq<Ipv4Net>, ip: Ipv4Addr) -> bool {
    exists|k: int| 0 <= k < bs.len() && host_addrs(#[trigger] bs[k]).contains(ip)
}

/// The addresses that none of the blocks probes.
pub open spec fn not_reached(bs: Seq<Ipv4Net>) -> spec_fn(Ipv4Addr) -> bool {
    |ip: Ipv4Addr| !reached(bs, ip)
}

/// The addresses of a block that survive the ignored ranges and that no block
/// ahead of it probes: a sweep goes to no address for two blocks.
pub open spec fn newcomers(b: Ipv4Net, ahead: Seq<Ipv4Net>, excluded: Seq<Ipv4Net>) -> Seq<
    Ipv4Addr,
> {
    survivors(b, excluded).filter(not_reached(ahead))
}

/// The batches that a block is sent in: all its new addresses as often as there are
/// passes, and none at all where it has none.
pub open spec fn rounds(
    b: Ipv4Net,
    ahead: Seq<Ipv4Net>,
    excluded: Seq<Ipv4Net>,
    passes: nat,
) -> Seq<Seq<Ipv4Addr>> {
    let a = newcomers(b, ahead, excluded);
    if a.len() == 0 {
        Seq::empty()
    } else {
        Seq::new(passes, |i: int| a)
    }
}

/// The batches that blocks are sent in behind others.
pub open spec fn plan_behind(
    ahead: Seq<Ipv4Net>,
    bs: Seq<Ipv4Net>,
    excluded: Seq<Ipv4Net>,
    passes: nat,
) -> Seq<Seq<Ipv4Addr>>
    decreases bs.len(),
{
    if bs.len() == 0 {
        Seq::empty()
    } else {
        rounds(bs[0], ahead, excluded, passes) + plan_behind(
            ahead.push(bs[0]),
            bs.drop_first(),
            excluded,
            passes,
        )
    }
}

/// The batches that blocks are sent in: one block at a time, with all its passes.
pub open spec fn plan(bs: Seq<Ipv4Net>, excluded: Seq<Ipv4Net>, passes: nat) -> Seq<Seq<Ipv4Addr>> {
    plan_behind(Seq::empty(), bs, excluded, passes)
}

/// How many addresses blocks are sent to behind others.
pub open spec fn sum_behind(
    ahead: Seq<Ipv4Net>,
    bs: Seq<Ipv4Net>,
    excluded: Seq<Ipv4Net>,
) -> nat
    decreases bs.len(),
{
    if bs.len() == 0 {
        0
    } else {
        newcomers(bs[0], ahead, excluded).len() + sum_behind(
            ahead.push(bs[0]),
            bs.drop_first(),
            excluded,
        )
    }
}

/// How many addresses blocks are sent to.
pub open spec fn host_sum(bs: Seq<Ipv4Net>, excluded: Seq<Ipv4Net>) -> nat {
    sum_behind(Seq::empty(), bs, excluded)
}

/// How many packets batches hold.
pub open spec fn packets(batches: Seq<Seq<Ipv4Addr>>) -> nat
    decreases batches.len(),
{
    if batches.len() == 0 {
        0
    } else {
        batches[0].len() + packets(batches.drop_first())
    }
}

/// The blocks from block `j` of network `i` on.
pub open spec fn blocks_from(nets: Seq<Ipv4Net>, i: int, j: int) -> Seq<Ipv4Net> {
    if i < nets.len() {
        blocks(nets[i]).skip(j) + all_blocks(nets.skip(i + 1))
    } else {
        Seq::empty()
    }
}

proof fn lemma_blocks_from_start(nets: Seq<Ipv4Net>, i: int)
    requires
        0 <= i <= nets.len(),
    ensures
        blocks_from(nets, i, 0) == all_blocks(nets.skip(i)),
{
    if i < nets.len() {
        assert(blocks(nets[i]).skip(0) =~= blocks(nets[i]));
        assert(nets.skip(i).drop_first() =~= nets.skip(i + 1));
        assert(nets.skip(i)[0] == nets[i]);
    } else {
        assert(nets.skip(i) =~= Seq::empty());
    }
}

/// Moving on by one block leaves the blocks behind it.
proof fn lemma_blocks_from_step(nets: Seq<Ipv4Net>, i: int, j: int)
    requires
        0 <= i < nets.len(),
        0 <= j < blocks_in(nets[i]),
    ensures
        blocks_from(nets, i, j).len() > 0,
        blocks_from(nets, i, j)[0] == blocks(nets[i])[j],
        blocks_from(nets, i, j).drop_first() == (if j + 1 < blocks_in(nets[i]) {
            blocks_from(nets, i, j + 1)
        } else {
            blocks_from(nets, i + 1, 0)
        }),
{
    let b = blocks(nets[i]);
    let rest = all_blocks(nets.skip(i + 1));
    assert(b.skip(j).len() > 0);
    assert((b.skip(j) + rest)[0] == b[j]);
    assert((b.skip(j) + rest).drop_first() =~= b.skip(j + 1) + rest);
    if j + 1 >= blocks_in(nets[i]) {
        assert(b.skip(j + 1) + rest =~= rest);
        lemma_blocks_from_start(nets, i + 1);
    }
}

/// The blocks ahead of block `j` of network `i`.
pub open spec fn blocks_ahead(nets: Seq<Ipv4Net>, i: int, j: int) -> Seq<Ipv4Net> {
    all_blocks(nets.take(i)) + (if i < nets.len() {
        blocks(nets[i]).take(j)
    } else {
        Seq::empty()
    })
}

proof fn lemma_all_blocks_add(a: Seq<Ipv4Net>, b: Seq<Ipv4Net>)
    ensures
        all_blocks(a + b) == all_blocks(a) + all_blocks(b),
    decreases a.len(),
{
    if a.len() == 0 {
        assert(a + b =~= b);
        assert(all_blocks(a) + all_blocks(b) =~= all_blocks(b));
    } else {
        assert((a + b).drop_first() =~= a.drop_first() + b);
        lemma_all_blocks_add(a.drop_first(), b);
        assert(all_blocks(a + b) =~= all_blocks(a) + all_blocks(b));
    }
}

proof fn lemma_all_blocks_step(nets: Seq<Ipv4Net>, i: int)
    requires
        0 <= i < nets.len(),
    ensures
        all_blocks(nets.take(i + 1)) == all_blocks(nets.take(i)) + blocks(nets[i]),
{
    let one = seq![nets[i]];
    assert(nets.take(i + 1) =~= nets.take(i) + one);
    lemma_all_blocks_add(nets.take(i), one);
    assert(one.drop_first() =~= Seq::empty());
    assert(all_blocks(one.drop_first()) =~= Seq::empty());
    assert(all_blocks(one) =~= blocks(nets[i]));
}

/// Moving on by one block puts it ahead.
proof fn lemma_blocks_ahead_step(nets: Seq<Ipv4Net>, i: int, j: int)
    requires
        0 <= i < nets.len(),
        0 <= j < blocks_in(nets[i]),
    ensures
        blocks_ahead(nets, i, j).push(blocks(nets[i])[j]) == (if j + 1 < blocks_in(nets[i]) {
            blocks_ahead(nets, i, j + 1)
        } else {
            blocks_ahead(nets, i + 1, 0)
        }),
{
    let b = blocks(nets[i]);
    lemma_all_blocks_step(nets, i);
    assert(b.take(j).push(b[j]) =~= b.take(j + 1));
    assert(blocks_ahead(nets, i, j).push(b[j]) =~= all_blocks(nets.take(i)) + b.take(j + 1));
    if j + 1 >= blocks_in(nets[i]) {
        assert(b.take(j + 1) =~= b);
        if i + 1 < nets.len() {
            assert(blocks(nets[i + 1]).take(0) =~= Seq::empty());
        }
        assert(blocks_ahead(nets, i + 1, 0) =~= all_blocks(nets.take(i + 1)));
    }
}

proof fn lemma_nothing_ahead(nets: Seq<Ipv4Net>)
    ensures
        blocks_ahead(nets, 0, 0) == Seq::<Ipv4Net>::empty(),
{
    assert(nets.take(0) =~= Seq::empty());
    if nets.len() > 0 {
        assert(blocks(nets[0]).take(0) =~= Seq::empty());
    }
    assert(blocks_ahead(nets, 0, 0) =~= Seq::empty());
}

proof fn lemma_reached_add(a: Seq<Ipv4Net>, b: Seq<Ipv4Net>, ip: Ipv4Addr)
    ensures
        reached(a + b, ip) <==> reached(a, ip) || reached(b, ip),
{
    let c = a + b;
    if reached(a, ip) {
        let k = choose|k: int| 0 <= k < a.len() && host_addrs(#[trigger] a[k]).contains(ip);
        assert(c[k] == a[k]);
    }
    if reached(b, ip) {
        let k = choose|k: int| 0 <= k < b.len() && host_addrs(#[trigger] b[k]).contains(ip);
        assert(c[a.len() + k] == b[k]);
    }
    if reached(c, ip) {
        let k = choose|k: int| 0 <= k < c.len() && host_addrs(#[trigger] c[k]).contains(ip);
        if k < a.len() {
            assert(a[k] == c[k]);
        } else {
            assert(b[k - a.len()] == c[k]);
        }
    }
}

proof fn lemma_reached_push(a: Seq<Ipv4Net>, b: Ipv4Net, ip: Ipv4Addr)
    ensures
        reached(a.push(b), ip) <==> reached(a, ip) || host_addrs(b).contains(ip),
{
    assert(a.push(b) =~= a + seq![b]);
    lemma_reached_add(a, seq![b], ip);
    assert(seq![b][0] == b);
}

/// The blocks of networks probe what one of the networks does.
proof fn lemma_reached_by_networks(nets: Seq<Ipv4Net>, ip: Ipv4Addr)
    ensures
        reached(all_blocks(nets), ip) <==> probed_in_any(nets, ip),
    decreases nets.len(),
{
    if nets.len() > 0 {
        let rest = nets.drop_first();
        lemma_reached_by_networks(rest, ip);
        lemma_reached_add(blocks(nets[0]), all_blocks(rest), ip);
        if probed_in_any(rest, ip) {
            let i = choose|i: int| 0 <= i < rest.len() && probed_in(#[trigger] rest[i], ip);
            assert(nets[i + 1] == rest[i]);
        }
        if probed_in_any(nets, ip) {
            let i = choose|i: int| 0 <= i < nets.len() && probed_in(#[trigger] nets[i], ip);
            if i > 0 {
                assert(rest[i - 1] == nets[i]);
            }
        }
    }
}

/// Of a block's own addresses, the blocks ahead of it probe those that an earlier
/// network does: the blocks of one network have no address in common.
proof fn lemma_reached_ahead(nets: Seq<Ipv4Net>, i: int, j: int, ip: Ipv4Addr)
    requires
        0 <= i < nets.len(),
        0 <= j < blocks_in(nets[i]),
        host_addrs(blocks(nets[i])[j]).contains(ip),
    ensures
        reached(blocks_ahead(nets, i, j), ip) <==> probed_in_any(nets.take(i), ip),
{
    let b = blocks(nets[i]);
    lemma_reached_by_networks(nets.take(i), ip);
    lemma_reached_add(all_blocks(nets.take(i)), b.take(j), ip);
    if reached(b.take(j), ip) {
        let k = choose|k: int|
            0 <= k < b.take(j).len() && host_addrs(#[trigger] b.take(j)[k]).contains(ip);
        hosts_are_in_the_network(b[k]);
        hosts_are_in_the_network(b[j]);
        blocks_part_the_network(nets[i], ip);
        assert(b[k].has(ip) && b[j].has(ip));
    }
}

/// Looks for a network that probes the address.
pub fn any_probes(nets: &[Ipv4Net], ip: &Ipv4Addr) -> (r: bool)
    ensures
        r == probed_in_any(nets@, *ip),
{
    let mut i: usize = 0;
    while i < nets.len()
        invariant
            i <= nets.len(),
            forall|j: int| 0 <= j < i ==> !probed_in(#[trigger] nets@[j], *ip),
        decreases nets.len() - i,
    {
        if probes(&nets[i], ip) {
            assert(probed_in(nets@[i as int], *ip));
            return true;
        }
        i = i + 1;
    }
    false
}

proof fn lemma_untouched_block_is_new(nets: Seq<Ipv4Net>, i: int, j: int, excluded: Seq<Ipv4Net>)
    requires
        0 <= i < nets.len(),
        0 <= j < blocks_in(nets[i]),
        forall|k: int|
            0 <= k < i ==> !blocks(nets[i])[j].meets(#[trigger] nets.take(i)[k]),
    ensures
        newcomers(blocks(nets[i])[j], blocks_ahead(nets, i, j), excluded) == survivors(
            blocks(nets[i])[j],
            excluded,
        ),
{
    let b = blocks(nets[i])[j];
    let all = survivors(b, excluded);
    let p = not_reached(blocks_ahead(nets, i, j));
    assert forall|k: int| 0 <= k < all.len() implies p(#[trigger] all[k]) by {
        let ip = all[k];
        assert(all.contains(ip));
        ignored_means_not_a_single_packet(b, excluded, ip);
        lemma_reached_ahead(nets, i, j, ip);
        if probed_in_any(nets.take(i), ip) {
            let m = choose|m: int|
                0 <= m < nets.take(i).len() && probed_in(#[trigger] nets.take(i)[m], ip);
            lemma_probed_is_inside(nets.take(i)[m], ip);
            hosts_are_in_the_network(b);
            assert(b.has(ip) && nets.take(i)[m].has(ip));
            assert(b.meets(nets.take(i)[m]));
        }
    }
    ordered::lemma_filter_all(all, p);
}

/// The addresses that block `j` of network `i` is sent to.
fn new_addrs(nets: &[Ipv4Net], i: usize, j: u32, excluded: &[Ipv4Net]) -> (r: Vec<Ipv4Addr>)
    requires
        i < nets.len(),
        j < blocks_in(nets@[i as int]),
    ensures
        r@ == newcomers(
            blocks(nets@[i as int])[j as int],
            blocks_ahead(nets@, i as int, j as int),
            excluded@,
        ),
{
    let b: Ipv4Net = nth_block(&nets[i], j);
    let all: Vec<Ipv4Addr> = block_addrs(b, excluded);
    let earlier: &[Ipv4Net] = vstd::slice::slice_subrange(nets, 0, i);
    assert(earlier@ =~= nets@.take(i as int));
    if !any_touches(earlier, &b) {
        proof {
            lemma_untouched_block_is_new(nets@, i as int, j as int, excluded@);
        }
        return all;
    }
    let ghost p = not_reached(blocks_ahead(nets@, i as int, j as int));
    let mut out: Vec<Ipv4Addr> = Vec::new();
    let mut k: usize = 0;
    proof {
        assert(all@.take(0) =~= Seq::empty());
        ordered::lemma_filter_none(all@.take(0), p);
    }
    while k < all.len()
        invariant
            k <= all.len(),
            i < nets.len(),
            j < blocks_in(nets@[i as int]),
            b == blocks(nets@[i as int])[j as int],
            all@ == survivors(b, excluded@),
            earlier@ == nets@.take(i as int),
            p == not_reached(blocks_ahead(nets@, i as int, j as int)),
            out@ == all@.take(k as int).filter(p),
        decreases all.len() - k,
    {
        proof {
            let ip = all@[k as int];
            assert(all@.contains(ip));
            ignored_means_not_a_single_packet(b, excluded@, ip);
            lemma_reached_ahead(nets@, i as int, j as int, ip);
            ordered::lemma_filter_step(all@, k as int, p);
        }
        if !any_probes(earlier, &all[k]) {
            out.push(all[k]);
        }
        k = k + 1;
    }
    assert(all@.take(all.len() as int) =~= all@);
    out
}

/// How many addresses block `j` of network `i` is sent to, without materialising
/// the list where no earlier network touches the block.
fn new_count(nets: &[Ipv4Net], i: usize, j: u32, excluded: &[Ipv4Net]) -> (r: u64)
    requires
        i < nets.len(),
        j < blocks_in(nets@[i as int]),
    ensures
        r == newcomers(
            blocks(nets@[i as int])[j as int],
            blocks_ahead(nets@, i as int, j as int),
            excluded@,
        ).len(),
{
    let b: Ipv4Net = nth_block(&nets[i], j);
    let earlier: &[Ipv4Net] = vstd::slice::slice_subrange(nets, 0, i);
    assert(earlier@ =~= nets@.take(i as int));
    if !any_touches(earlier, &b) {
        proof {
            lemma_untouched_block_is_new(nets@, i as int, j as int, excluded@);
        }
        return block_count(b, excluded);
    }
    new_addrs(nets, i, j, excluded).len() as u64
}

proof fn lemma_packets_add(a: Seq<Seq<Ipv4Addr>>, b: Seq<Seq<Ipv4Addr>>)
    ensures
        packets(a + b) == packets(a) + packets(b),
    decreases a.len(),
{
    if a.len() == 0 {
        assert(a + b =~= b);
    } else {
        assert((a + b).drop_first() =~= a.drop_first() + b);
        lemma_packets_add(a.drop_first(), b);
    }
}

proof fn lemma_packets_repeated(a: Seq<Ipv4Addr>, n: nat)
    ensures
        packets(Seq::new(n, |i: int| a)) == n * a.len(),
    decreases n,
{
    if n > 0 {
        let s = Seq::new(n, |i: int| a);
        let t = Seq::new((n - 1) as nat, |i: int| a);
        assert(s.drop_first() =~= t);
        lemma_packets_repeated(a, (n - 1) as nat);
        assert(n * a.len() == a.len() + (n - 1) * a.len()) by (nonlinear_arith);
    } else {
        assert(0 * a.len() == 0) by (nonlinear_arith);
    }
}

proof fn lemma_packets_behind(
    ahead: Seq<Ipv4Net>,
    bs: Seq<Ipv4Net>,
    excluded: Seq<Ipv4Net>,
    passes: nat,
)
    ensures
        packets(plan_behind(ahead, bs, excluded, passes)) == passes * sum_behind(
            ahead,
            bs,
            excluded,
        ),
    decreases bs.len(),
{
    if bs.len() == 0 {
        assert(passes * 0 == 0) by (nonlinear_arith);
    } else {
        let a = newcomers(bs[0], ahead, excluded);
        let next = ahead.push(bs[0]);
        let rest = bs.drop_first();
        lemma_packets_behind(next, rest, excluded, passes);
        lemma_packets_add(
            rounds(bs[0], ahead, excluded, passes),
            plan_behind(next, rest, excluded, passes),
        );
        lemma_packets_repeated(a, passes);
        if a.len() == 0 {
            assert(passes * 0 == 0) by (nonlinear_arith);
        }
        let x = a.len();
        let y = sum_behind(next, rest, excluded);
        assert(passes * (x + y) == passes * x + passes * y) by (nonlinear_arith);
    }
}

/// Resends included, the packets of a sweep number its addresses times the passes.
pub proof fn every_packet_is_counted(bs: Seq<Ipv4Net>, excluded: Seq<Ipv4Net>, passes: nat)
    ensures
        packets(plan(bs, excluded, passes)) == passes * host_sum(bs, excluded),
{
    lemma_packets_behind(Seq::empty(), bs, excluded, passes);
}

/// What a sweep has to do next.
#[derive(Debug)]
pub enum Step {
    /// Send a request to each of the addresses, then keep quiet for a while.
    Send { addrs: Vec<Ipv4Addr> },
    /// Nothing to send in this block.
    Skip,
    /// The sweep is over.
    Done,
}

/// A sweep of networks, one /24 block at a time. Networks are expanded into
/// blocks lazily: sweeping 10.0.0.0/8 never holds 16 million addresses.
///
/// The sweep runs **one /24 at a time**, with silence between blocks. An isolated
/// /24 finds its hosts reliably, but appending a large broadcast block right
/// behind it collapses the count: the managed switch turns on broadcast storm
/// control and starts dropping frames. Short-burst-then-quiet, per /24, keeps the
/// average broadcast rate under the trigger.
#[derive(Debug)]
pub struct Sweep {
    nets: Vec<Ipv4Net>,
    excluded: Vec<Ipv4Net>,
    passes: u32,
    net: usize,
    block: u32,
    /// The block being sent, and how many passes of it are left.
    current: Vec<Ipv4Addr>,
    passes_left: u32,
    hosts_total: u64,
    total: u64,
    sent: u64,
}

/// How often each block is sent: at least once.
pub open spec fn passes_of(pace: Pace) -> nat {
    if pace.passes == 0 {
        1
    } else {
        pace.passes as nat
    }
}

impl Sweep {
    /// The blocks that have not been started.
    pub closed spec fn blocks_left(self) -> Seq<Ipv4Net> {
        blocks_from(self.nets@, self.net as int, self.block as int)
    }

    /// The blocks that have been started.
    pub closed spec fn blocks_started(self) -> Seq<Ipv4Net> {
        blocks_ahead(self.nets@, self.net as int, self.block as int)
    }

    /// The batches still to be sent.
    pub closed spec fn remaining(self) -> Seq<Seq<Ipv4Addr>> {
        Seq::new(self.passes_left as nat, |i: int| self.current@) + plan_behind(
            self.blocks_started(),
            self.blocks_left(),
            self.excluded@,
            self.passes as nat,
        )
    }

    /// How many packets have been sent.
    pub closed spec fn packets_sent(self) -> nat {
        self.sent as nat
    }

    /// How many packets the whole sweep sends, resends included.
    pub closed spec fn packets_total(self) -> nat {
        self.total as nat
    }

    /// How many addresses the sweep goes to.
    pub closed spec fn addresses(self) -> nat {
        self.hosts_total as nat
    }

    /// The position is one in the networks, and what was sent and what is left
    /// make up the whole.
    pub closed spec fn wf(self) -> bool {
        &&& self.net <= self.nets@.len()
        &&& self.net < self.nets@.len() ==> self.block < blocks_in(self.nets@[self.net as int])
        &&& self.passes >= 1
        &&& self.sent + packets(self.remaining()) == self.total
    }

    /// A sweep of the networks but for the ignored ranges. The networks are swept in
    /// the order of the list; what an earlier one probes, a later one leaves out.
    pub fn new(nets: &[Ipv4Net], excluded: &[Ipv4Net], pace: Pace) -> (r: Sweep)
        ensures
            r.wf(),
            r.blocks_left() == all_blocks(nets@),
            r.remaining() == plan(all_blocks(nets@), excluded@, passes_of(pace)),
            r.packets_sent() == 0,
            r.packets_total() == passes_of(pace) * host_sum(all_blocks(nets@), excluded@),
            r.addresses() == host_sum(all_blocks(nets@), excluded@),
    {
        let passes: u32 = if pace.passes == 0 {
            1
        } else {
            pace.passes
        };
        let ghost all = all_blocks(nets@);
        let ghost n = host_sum(all, excluded@);
        let mut sum: u64 = 0;
        let mut i: usize = 0;
        proof {
            lemma_blocks_from_start(nets@, 0);
            lemma_nothing_ahead(nets@);
            assert(nets@.skip(0) =~= nets@);
            a_sweep_can_be_counted(all, excluded@, pace);
        }
        while i < nets.len()
            invariant
                i <= nets.len(),
                n <= 0x1_0000_0000,
                sum + sum_behind(
                    blocks_ahead(nets@, i as int, 0),
                    blocks_from(nets@, i as int, 0),
                    excluded@,
                ) == n,
            decreases nets.len() - i,
        {
            let count: u32 = block_number(&nets[i]);
            let mut j: u32 = 0;
            while j < count
                invariant
                    i < nets.len(),
                    j <= count,
                    count >= 1,
                    count == blocks_in(nets@[i as int]),
                    n <= 0x1_0000_0000,
                    j < count ==> sum + sum_behind(
                        blocks_ahead(nets@, i as int, j as int),
                        blocks_from(nets@, i as int, j as int),
                        excluded@,
                    ) == n,
                    j == count ==> sum + sum_behind(
                        blocks_ahead(nets@, i + 1, 0),
                        blocks_from(nets@, i + 1, 0),
                        excluded@,
                    ) == n,
                decreases count - j,
            {
                proof {
                    lemma_blocks_from_step(nets@, i as int, j as int);
                    lemma_blocks_ahead_step(nets@, i as int, j as int);
                }
                sum = sum + new_count(nets, i, j, excluded);
                j = j + 1;
            }
            i = i + 1;
        }
        assert(sum == n);
        assert(sum * passes == passes * sum) by (nonlinear_arith);
        let total: u64 = sum * passes as u64;
        let r = Sweep {
            nets: net::copy_nets(nets),
            excluded: net::copy_nets(excluded),
            passes,
            net: 0,
            block: 0,
            current: Vec::new(),
            passes_left: 0,
            hosts_total: sum,
            total,
            sent: 0,
        };
        proof {
            if nets@.len() > 0 && nets@[0].prefix_len < 24 {
                lemma_blocks(nets@[0]);
            }
            assert(r.blocks_left() == all);
            assert(r.blocks_started() == Seq::<Ipv4Net>::empty());
            assert(r.remaining() =~= plan(all, excluded@, passes as nat));
            every_packet_is_counted(all, excluded@, passes as nat);
        }
        r
    }

    /// How many packets the whole sweep sends, resends included, or progress would
    /// run past 100%.
    pub fn total(&self) -> (r: u64)
        ensures
            r == self.packets_total(),
    {
        self.total
    }

    /// How many packets have been sent.
    pub fn sent(&self) -> (r: u64)
        ensures
            r == self.packets_sent(),
    {
        self.sent
    }

    /// Is the sweep large enough to report on while it runs?
    pub fn is_big(&self) -> (r: bool)
        ensures
            r == (self.addresses() > 4096),
    {
        self.hosts_total > 4096
    }

    /// Moves on by one batch, or by one block where a block has nothing to send. A
    /// request to stop ends the sweep where it is.
    pub fn next(&mut self, stop: bool) -> (r: Step)
        requires
            old(self).wf(),
        ensures
            final(self).wf(),
            final(self).packets_total() == old(self).packets_total(),
            final(self).addresses() == old(self).addresses(),
            final(self).packets_sent() <= final(self).packets_total(),
            stop ==> r is Done,
            match r {
                Step::Send { addrs } => {
                    &&& old(self).remaining().len() > 0
                    &&& addrs@ == old(self).remaining()[0]
                    &&& final(self).remaining() == old(self).remaining().drop_first()
                    &&& final(self).packets_sent() == old(self).packets_sent() + addrs@.len()
                },
                Step::Skip => {
                    &&& final(self).remaining() == old(self).remaining()
                    &&& final(self).packets_sent() == old(self).packets_sent()
                    &&& final(self).blocks_left().len() < old(self).blocks_left().len()
                },
                Step::Done => {
                    &&& stop || old(self).remaining().len() == 0
                    &&& *final(self) == *old(self)
                },
            },
    {
        if stop {
            return Step::Done;
        }
        let ghost p = self.passes as nat;
        let ghost x = self.excluded@;
        if self.passes_left == 0 {
            if self.net >= self.nets.len() {
                assert(self.remaining() =~= Seq::empty());
                return Step::Done;
            }
            let ghost bs = self.blocks_left();
            let ghost ahead = self.blocks_started();
            proof {
                lemma_blocks_from_step(self.nets@, self.net as int, self.block as int);
                lemma_blocks_ahead_step(self.nets@, self.net as int, self.block as int);
                assert(self.remaining() =~= plan_behind(ahead, bs, x, p));
            }
            let n: Ipv4Net = self.nets[self.net];
            let addrs: Vec<Ipv4Addr> = new_addrs(
                self.nets.as_slice(),
                self.net,
                self.block,
                self.excluded.as_slice(),
            );
            assert(addrs@ == newcomers(bs[0], ahead, x));
            if self.block < block_number(&n) - 1 {
                self.block = self.block + 1;
            } else {
                self.net = self.net + 1;
                self.block = 0;
            }
            assert(self.blocks_left() == bs.drop_first());
            assert(self.blocks_started() == ahead.push(bs[0]));
            if self.net < self.nets.len() && self.block == 0 {
                let k: u32 = block_number(&self.nets[self.net]);
                assert(self.block < k);
            }
            if addrs.len() == 0 {
                assert(self.remaining() =~= old(self).remaining());
                return Step::Skip;
            }
            self.current = addrs;
            self.passes_left = self.passes;
            assert(self.remaining() =~= old(self).remaining());
        }
        let ghost before = self.remaining();
        self.passes_left = self.passes_left - 1;
        let out: Vec<Ipv4Addr> = copy_addrs(&self.current);
        proof {
            assert(before[0] == self.current@);
            assert(self.remaining() =~= before.drop_first());
            assert(packets(before) == before[0].len() + packets(before.drop_first()));
        }
        self.sent = self.sent + out.len() as u64;
        assert(self.remaining() =~= before.drop_first());
        Step::Send { addrs: out }
    }
}

fn copy_addrs(v: &Vec<Ipv4Addr>) -> (r: Vec<Ipv4Addr>)
    ensures
        r@ == v@,
{
    let mut out: Vec<Ipv4Addr> = Vec::new();
    let mut i: usize = 0;
    while i < v.len()
        invariant
            i <= v.len(),
            out@ == v@.take(i as int),
        decreases v.len() - i,
    {
        out.push(v[i]);
        i = i + 1;
    }
    out
}

/// The frames of one burst: requests for the next addresses of a batch, as many as
/// a burst holds and the batch has left.
pub fn burst_frames(
    local: &Local,
    spa: Spa,
    addrs: &Vec<Ipv4Addr>,
    from: usize,
    burst: usize,
) -> (r: Vec<Vec<u8>>)
    requires
        from <= addrs.len(),
    ensures
        r.len() == (if burst < addrs.len() - from {
            burst as int
        } else {
            addrs.len() - from
        }),
        forall|i: int|
            0 <= i < r.len() ==> (#[trigger] r@[i])@ == request_frame(
                local.mac,
                spa.sender(addrs@[from + i], local.ipv4),
                addrs@[from + i],
            ),
{
    let count: usize = if burst < addrs.len() - from {
        burst
    } else {
        addrs.len() - from
    };
    let mut out: Vec<Vec<u8>> = Vec::new();
    let mut i: usize = 0;
    while i < count
        invariant
            i <= count,
            from + count <= addrs.len(),
            out.len() == i,
            forall|k: int|
                0 <= k < i ==> (#[trigger] out@[k])@ == request_frame(
                    local.mac,
                    spa.sender(addrs@[from + k], local.ipv4),
                    addrs@[from + k],
                ),
        decreases count - i,
    {
        let target = addrs[from + i];
        out.push(build_request(local, spa.for_target(target, local.ipv4), target));
        i = i + 1;
    }
    out
}

// ---------------------------------------------------------------------
// What holds of every sweep
// ---------------------------------------------------------------------

/// How many of the batches hold an address.
pub open spec fn times_in(batches: Seq<Seq<Ipv4Addr>>, ip: Ipv4Addr) -> nat
    decreases batches.len(),
{
    if batches.len() == 0 {
        0
    } else {
        (if batches[0].contains(ip) {
            1nat
        } else {
            0
        }) + times_in(batches.drop_first(), ip)
    }
}

proof fn lemma_times_add(a: Seq<Seq<Ipv4Addr>>, b: Seq<Seq<Ipv4Addr>>, ip: Ipv4Addr)
    ensures
        times_in(a + b, ip) == times_in(a, ip) + times_in(b, ip),
    decreases a.len(),
{
    if a.len() == 0 {
        assert(a + b =~= b);
    } else {
        assert((a + b).drop_first() =~= a.drop_first() + b);
        lemma_times_add(a.drop_first(), b, ip);
    }
}

proof fn lemma_times_repeated(a: Seq<Ipv4Addr>, n: nat, ip: Ipv4Addr)
    ensures
        times_in(Seq::new(n, |i: int| a), ip) == (if a.contains(ip) {
            n
        } else {
            0
        }),
    decreases n,
{
    if n > 0 {
        let s = Seq::new(n, |i: int| a);
        assert(s.drop_first() =~= Seq::new((n - 1) as nat, |i: int| a));
        lemma_times_repeated(a, (n - 1) as nat, ip);
    }
}

proof fn lemma_newcomers(b: Ipv4Net, ahead: Seq<Ipv4Net>, excluded: Seq<Ipv4Net>, ip: Ipv4Addr)
    ensures
        newcomers(b, ahead, excluded).contains(ip) <==> host_addrs(b).contains(ip)
            && !net::in_any(excluded, ip) && !reached(ahead, ip),
{
    ordered::lemma_filter_holds(survivors(b, excluded), not_reached(ahead), ip);
    ignored_means_not_a_single_packet(b, excluded, ip);
}

proof fn lemma_times_behind(
    ahead: Seq<Ipv4Net>,
    bs: Seq<Ipv4Net>,
    excluded: Seq<Ipv4Net>,
    passes: nat,
    ip: Ipv4Addr,
)
    ensures
        times_in(plan_behind(ahead, bs, excluded, passes), ip) == (if !net::in_any(excluded, ip)
            && reached(bs, ip) && !reached(ahead, ip) {
            passes
        } else {
            0
        }),
    decreases bs.len(),
{
    if bs.len() > 0 {
        let rest = bs.drop_first();
        let next = ahead.push(bs[0]);
        lemma_times_behind(next, rest, excluded, passes, ip);
        lemma_times_add(
            rounds(bs[0], ahead, excluded, passes),
            plan_behind(next, rest, excluded, passes),
            ip,
        );
        lemma_times_repeated(newcomers(bs[0], ahead, excluded), passes, ip);
        lemma_newcomers(bs[0], ahead, excluded, ip);
        lemma_reached_push(ahead, bs[0], ip);
        assert(bs =~= seq![bs[0]] + rest);
        lemma_reached_add(seq![bs[0]], rest, ip);
        assert(seq![bs[0]][0] == bs[0]);
    }
}

/// An address that a block probes and that is not ignored is sent to exactly once
/// per pass, however many blocks probe it, and no other address is sent to at all.
pub proof fn every_address_gets_its_passes(
    bs: Seq<Ipv4Net>,
    excluded: Seq<Ipv4Net>,
    passes: nat,
    ip: Ipv4Addr,
)
    ensures
        times_in(plan(bs, excluded, passes), ip) == (if !net::in_any(excluded, ip) && reached(
            bs,
            ip,
        ) {
            passes
        } else {
            0
        }),
{
    lemma_times_behind(Seq::empty(), bs, excluded, passes, ip);
}

/// An ignored range receives not a single packet, whatever the networks.
pub proof fn ignored_ranges_stay_silent(
    bs: Seq<Ipv4Net>,
    excluded: Seq<Ipv4Net>,
    passes: nat,
    ip: Ipv4Addr,
)
    requires
        net::in_any(excluded, ip),
    ensures
        times_in(plan(bs, excluded, passes), ip) == 0,
{
    every_address_gets_its_passes(bs, excluded, passes, ip);
}

/// Every address that one of the networks probes and that is not ignored is sent to
/// exactly once per pass, and no other address is sent to at all, also where the
/// networks have addresses in common.
pub proof fn a_sweep_reaches_each_address(
    nets: Seq<Ipv4Net>,
    excluded: Seq<Ipv4Net>,
    passes: nat,
    ip: Ipv4Addr,
)
    ensures
        times_in(plan(all_blocks(nets), excluded, passes), ip) == (if !net::in_any(excluded, ip)
            && probed_in_any(nets, ip) {
            passes
        } else {
            0
        }),
{
    every_address_gets_its_passes(all_blocks(nets), excluded, passes, ip);
    lemma_reached_by_networks(nets, ip);
}

proof fn lemma_newcomers_are_distinct(b: Ipv4Net, ahead: Seq<Ipv4Net>, excluded: Seq<Ipv4Net>)
    ensures
        newcomers(b, ahead, excluded).no_duplicates(),
{
    hosts_are_in_the_network(b);
    ordered::lemma_filter_keeps_distinct(host_addrs(b), allowed(excluded));
    ordered::lemma_filter_keeps_distinct(survivors(b, excluded), not_reached(ahead));
}

proof fn lemma_sent_as_numbers(
    ahead: Seq<Ipv4Net>,
    bs: Seq<Ipv4Net>,
    excluded: Seq<Ipv4Net>,
) -> (s: Set<int>)
    ensures
        s.finite(),
        s.len() == sum_behind(ahead, bs, excluded),
        forall|x: int| #[trigger]
            s.contains(x) ==> 0 <= x < 0x1_0000_0000 && !reached(
                ahead,
                Ipv4Addr { bits: x as u32 },
            ),
    decreases bs.len(),
{
    if bs.len() == 0 {
        Set::empty()
    } else {
        let next = ahead.push(bs[0]);
        let later = lemma_sent_as_numbers(next, bs.drop_first(), excluded);
        let first = newcomers(bs[0], ahead, excluded);
        let numbers = Seq::new(first.len(), |i: int| first[i].bits as int);
        lemma_newcomers_are_distinct(bs[0], ahead, excluded);
        assert forall|i: int, j: int|
            0 <= i < numbers.len() && 0 <= j < numbers.len() && i != j implies numbers[i]
            != numbers[j] by {
            assert(first[i] != first[j]);
        }
        numbers.unique_seq_to_set();
        let here = numbers.to_set();
        assert forall|x: int| #[trigger] here.contains(x) implies 0 <= x < 0x1_0000_0000
            && !reached(ahead, Ipv4Addr { bits: x as u32 }) && host_addrs(bs[0]).contains(
            Ipv4Addr { bits: x as u32 },
        ) by {
            let i = choose|i: int| 0 <= i < numbers.len() && numbers[i] == x;
            assert(first[i] == Ipv4Addr { bits: x as u32 });
            assert(first.contains(first[i]));
            lemma_newcomers(bs[0], ahead, excluded, first[i]);
        }
        assert forall|x: int| here.contains(x) implies !later.contains(x) by {
            lemma_reached_push(ahead, bs[0], Ipv4Addr { bits: x as u32 });
        }
        assert(here.disjoint(later));
        vstd::set_lib::lemma_set_disjoint_lens(here, later);
        let both = here + later;
        assert forall|x: int| #[trigger] both.contains(x) implies 0 <= x < 0x1_0000_0000
            && !reached(ahead, Ipv4Addr { bits: x as u32 }) by {
            assert(here.contains(x) || later.contains(x));
            lemma_reached_push(ahead, bs[0], Ipv4Addr { bits: x as u32 });
        }
        both
    }
}

/// A sweep goes to no more addresses than there are, and however many passes it
/// makes, its packets can be counted.
pub proof fn a_sweep_can_be_counted(bs: Seq<Ipv4Net>, excluded: Seq<Ipv4Net>, pace: Pace)
    ensures
        host_sum(bs, excluded) <= 0x1_0000_0000,
        passes_of(pace) * host_sum(bs, excluded) <= u64::MAX,
{
    let s = lemma_sent_as_numbers(Seq::empty(), bs, excluded);
    let range = vstd::set_lib::set_int_range(0, 0x1_0000_0000);
    vstd::set_lib::lemma_int_range(0, 0x1_0000_0000);
    assert(s.subset_of(range));
    vstd::set_lib::lemma_len_subset(s, range);
    let n = host_sum(bs, excluded);
    let k = passes_of(pace);
    assert(k * n <= 0xffff_ffff * 0x1_0000_0000) by (nonlinear_arith)
        requires
            k <= 0xffff_ffff,
            n <= 0x1_0000_0000,
    ;
}

proof fn lemma_plan_splits(
    ahead: Seq<Ipv4Net>,
    a: Seq<Ipv4Net>,
    b: Seq<Ipv4Net>,
    excluded: Seq<Ipv4Net>,
    passes: nat,
)
    ensures
        plan_behind(ahead, a + b, excluded, passes) == plan_behind(ahead, a, excluded, passes)
            + plan_behind(ahead + a, b, excluded, passes),
    decreases a.len(),
{
    if a.len() == 0 {
        assert(a + b =~= b);
        assert(ahead + a =~= ahead);
        assert(plan_behind(ahead, a, excluded, passes) + plan_behind(ahead, b, excluded, passes)
            =~= plan_behind(ahead, b, excluded, passes));
    } else {
        let next = ahead.push(a[0]);
        let rest = a.drop_first();
        assert((a + b).drop_first() =~= rest + b);
        assert(next + rest =~= ahead + a);
        lemma_plan_splits(next, rest, b, excluded, passes);
        assert(plan_behind(ahead, a + b, excluded, passes) =~= plan_behind(
            ahead,
            a,
            excluded,
            passes,
        ) + plan_behind(ahead + a, b, excluded, passes));
    }
}

proof fn lemma_batch_behind(
    ahead: Seq<Ipv4Net>,
    bs: Seq<Ipv4Net>,
    excluded: Seq<Ipv4Net>,
    passes: nat,
    k: int,
    ip: Ipv4Addr,
)
    requires
        0 <= k < plan_behind(ahead, bs, excluded, passes).len(),
        plan_behind(ahead, bs, excluded, passes)[k].contains(ip),
    ensures
        reached(bs, ip),
        !reached(ahead, ip),
        !net::in_any(excluded, ip),
    decreases bs.len(),
{
    if bs.len() > 0 {
        let r = rounds(bs[0], ahead, excluded, passes);
        let next = ahead.push(bs[0]);
        let rest = bs.drop_first();
        lemma_newcomers(bs[0], ahead, excluded, ip);
        lemma_reached_push(ahead, bs[0], ip);
        assert(bs =~= seq![bs[0]] + rest);
        lemma_reached_add(seq![bs[0]], rest, ip);
        assert(seq![bs[0]][0] == bs[0]);
        if k < r.len() {
            assert(r[k] == newcomers(bs[0], ahead, excluded));
        } else {
            lemma_batch_behind(next, rest, excluded, passes, k - r.len(), ip);
        }
    }
}

/// The batches that a network of a list is sent in.
pub open spec fn share(
    nets: Seq<Ipv4Net>,
    i: int,
    excluded: Seq<Ipv4Net>,
    passes: nat,
) -> Seq<Seq<Ipv4Addr>> {
    plan_behind(all_blocks(nets.take(i)), blocks(nets[i]), excluded, passes)
}

/// A sweep goes network by network, in the order of the list, and each network is
/// sent what the ones before it leave: what it probes, is not ignored and none of
/// them probes.
pub proof fn each_network_takes_what_is_left(
    nets: Seq<Ipv4Net>,
    i: int,
    excluded: Seq<Ipv4Net>,
    passes: nat,
)
    requires
        0 <= i < nets.len(),
    ensures
        plan(all_blocks(nets.take(i + 1)), excluded, passes) == plan(
            all_blocks(nets.take(i)),
            excluded,
            passes,
        ) + share(nets, i, excluded, passes),
        forall|k: int, ip: Ipv4Addr|
            0 <= k < share(nets, i, excluded, passes).len() && #[trigger] share(
                nets,
                i,
                excluded,
                passes,
            )[k].contains(ip) ==> probed_in(nets[i], ip) && !net::in_any(excluded, ip)
                && !probed_in_any(nets.take(i), ip),
{
    lemma_all_blocks_step(nets, i);
    let ahead = all_blocks(nets.take(i));
    lemma_plan_splits(Seq::empty(), ahead, blocks(nets[i]), excluded, passes);
    assert(Seq::<Ipv4Net>::empty() + ahead =~= ahead);
    let s = share(nets, i, excluded, passes);
    assert forall|k: int, ip: Ipv4Addr| 0 <= k < s.len() && #[trigger] s[k].contains(
        ip,
    ) implies probed_in(nets[i], ip) && !net::in_any(excluded, ip) && !probed_in_any(
        nets.take(i),
        ip,
    ) by {
        lemma_batch_behind(ahead, blocks(nets[i]), excluded, passes, k, ip);
        lemma_reached_by_networks(nets.take(i), ip);
    }
}

/// No address is sent to for two networks of a list.
pub proof fn shares_do_not_overlap(
    nets: Seq<Ipv4Net>,
    i: int,
    j: int,
    excluded: Seq<Ipv4Net>,
    passes: nat,
    ip: Ipv4Addr,
)
    requires
        0 <= i < j < nets.len(),
    ensures
        times_in(share(nets, i, excluded, passes), ip) == 0 || times_in(
            share(nets, j, excluded, passes),
            ip,
        ) == 0,
{
    let ahead = all_blocks(nets.take(j));
    lemma_times_behind(all_blocks(nets.take(i)), blocks(nets[i]), excluded, passes, ip);
    lemma_times_behind(ahead, blocks(nets[j]), excluded, passes, ip);
    lemma_reached_by_networks(nets.take(j), ip);
    if probed_in(nets[i], ip) {
        assert(nets.take(j)[i] == nets[i]);
    }
}

/// What is listed first is sent first: every batch for an address that the first
/// networks probe comes before any batch for an address that they do not.
pub proof fn first_listed_is_first_sent(
    first: Seq<Ipv4Net>,
    rest: Seq<Ipv4Net>,
    excluded: Seq<Ipv4Net>,
    passes: nat,
    a: int,
    b: int,
    x: Ipv4Addr,
    y: Ipv4Addr,
)
    requires
        0 <= a < plan(all_blocks(first + rest), excluded, passes).len(),
        0 <= b < plan(all_blocks(first + rest), excluded, passes).len(),
        plan(all_blocks(first + rest), excluded, passes)[a].contains(x),
        plan(all_blocks(first + rest), excluded, passes)[b].contains(y),
        probed_in_any(first, x),
        !probed_in_any(first, y),
    ensures
        a < b,
{
    let f = all_blocks(first);
    let r = all_blocks(rest);
    lemma_all_blocks_add(first, rest);
    lemma_plan_splits(Seq::empty(), f, r, excluded, passes);
    assert(Seq::<Ipv4Net>::empty() + f =~= f);
    let head = plan(f, excluded, passes);
    let tail = plan_behind(f, r, excluded, passes);
    lemma_reached_by_networks(first, x);
    lemma_reached_by_networks(first, y);
    if a >= head.len() {
        assert(tail[a - head.len()].contains(x));
        lemma_batch_behind(f, r, excluded, passes, a - head.len(), x);
    }
    if b < head.len() {
        assert(head[b].contains(y));
        lemma_batch_behind(Seq::empty(), f, excluded, passes, b, y);
    }
}

/// The blocks of the first network of a list are the first to be swept.
pub proof fn first_blocks_are_the_first_networks(nets: Seq<Ipv4Net>)
    requires
        nets.len() > 0,
    ensures
        all_blocks(nets).take(blocks(nets[0]).len() as int) == blocks(nets[0]),
{
    assert(all_blocks(nets).take(blocks(nets[0]).len() as int) =~= blocks(nets[0]));
}

// ---------------------------------------------------------------------
// Durations
// ---------------------------------------------------------------------

/// Seconds as hours and minutes, minutes and seconds, or seconds.
pub open spec fn duration_text(s: u64) -> Seq<char> {
    if s >= 3600 {
        text::dec((s / 3600) as nat) + seq!['h'] + text::dec2(((s % 3600) / 60) as nat) + seq!['m']
    } else if s >= 60 {
        text::dec((s / 60) as nat) + seq!['m'] + text::dec2((s % 60) as nat) + seq!['s']
    } else {
        text::dec(s as nat) + seq!['s']
    }
}

/// Writes seconds as hours and minutes, minutes and seconds, or seconds.
pub fn fmt_dur(s: u64) -> (r: String)
    ensures
        r@ == duration_text(s),
{
    let mut out = String::new();
    if s >= 3600 {
        text::push_dec(&mut out, s / 3600);
        out.push('h');
        text::push_dec2(&mut out, (s % 3600) / 60);
        out.push('m');
    } else if s >= 60 {
        text::push_dec(&mut out, s / 60);
        out.push('m');
        text::push_dec2(&mut out, s % 60);
        out.push('s');
    } else {
        text::push_dec(&mut out, s);
        out.push('s');
    }
    out
}

// ---------------------------------------------------------------------
// What holds of every request
// ---------------------------------------------------------------------

/// Every way to name a sender gives what it says: nobody, ourselves, the target, the
/// first other address of the target's /24, or the address that was given.
pub proof fn senders_are_what_they_say(target: Ipv4Addr, local: Option<Ipv4Addr>, fixed: Ipv4Addr)
    ensures
        Spa::Probe.sender(target, local).bits == 0,
        local matches Some(ip) ==> Spa::Local.sender(target, local) == ip,
        local is None ==> Spa::Local.sender(target, local).bits == 0,
        Spa::Dest.sender(target, local) == target,
        Spa::Fixed(fixed).sender(target, local) == fixed,
        target.octet(3) != 1 ==> Spa::Neighbor.sender(target, local).octet(3) == 1,
        target.octet(3) == 1 ==> Spa::Neighbor.sender(target, local).octet(3) == 2,
        Spa::Neighbor.sender(target, local).octet(0) == target.octet(0),
        Spa::Neighbor.sender(target, local).octet(1) == target.octet(1),
        Spa::Neighbor.sender(target, local).octet(2) == target.octet(2),
{
    let (a, b) = (target.bits as int, Spa::Neighbor.sender(target, local).bits as int);
    assert(a / 256 == b / 256);
    assert(a / 0x1_0000 == (a / 256) / 256 && b / 0x1_0000 == (b / 256) / 256);
    assert(a / 0x100_0000 == (a / 256) / 0x1_0000 && b / 0x100_0000 == (b / 256) / 0x1_0000);
}

/// An address is read as that sender, and nothing but an address or one of the five
/// names is read at all.
pub proof fn senders_are_read(s: Seq<char>, ip: Ipv4Addr)
    ensures
        Spa::parsed(ip.text()) == Ok::<Spa, ErrorView>(Spa::Fixed(ip)),
        Spa::parsed("probe"@) == Ok::<Spa, ErrorView>(Spa::Probe),
        Spa::parsed("auto"@) == Ok::<Spa, ErrorView>(Spa::Probe),
        Spa::parsed("local"@) == Ok::<Spa, ErrorView>(Spa::Local),
        Spa::parsed("dest"@) == Ok::<Spa, ErrorView>(Spa::Dest),
        Spa::parsed("neighbor"@) == Ok::<Spa, ErrorView>(Spa::Neighbor),
        s != "probe"@ && s != "auto"@ && s != "local"@ && s != "dest"@ && s != "neighbor"@ && (forall|
            x: Ipv4Addr,
        |
            s != #[trigger] x.text()) ==> Spa::parsed(s) == Err::<Spa, ErrorView>(
            ErrorView::InvalidSpa { text: s },
        ),
{
    reveal_strlit("probe");
    reveal_strlit("auto");
    reveal_strlit("local");
    reveal_strlit("dest");
    reveal_strlit("neighbor");
    crate::addr::the_dotted_form_is_digits_and_periods(ip);
    crate::addr::ipv4_reads_back(ip);
    assert("probe"@[0] == 'p' && "auto"@[0] == 'a' && "local"@[0] == 'l' && "dest"@[0] == 'd'
        && "neighbor"@[0] == 'n');
    let t = ip.text();
    assert(text::is_digit(t[0]));
}

/// A request goes to everyone, from us, as an Ethernet and IPv4 request of a target that
/// is not known.
pub proof fn a_request_goes_to_everyone(mac: MacAddr, spa: Ipv4Addr, target: Ipv4Addr)
    ensures
        ({
            let f = request_frame(mac, spa, target);
            &&& f.len() == 42
            &&& forall|i: int| 0 <= i < 6 ==> #[trigger] f[i] == 255
            &&& f.subrange(6, 12) == seq![mac.0, mac.1, mac.2, mac.3, mac.4, mac.5]
            &&& f.subrange(12, 22) == seq![8u8, 6u8, 0u8, 1u8, 8u8, 0u8, 6u8, 4u8, 0u8, 1u8]
            &&& f.subrange(22, 28) == seq![mac.0, mac.1, mac.2, mac.3, mac.4, mac.5]
            &&& f.subrange(28, 32) == seq![spa.octet(0), spa.octet(1), spa.octet(2), spa.octet(3)]
            &&& forall|i: int| 32 <= i < 38 ==> #[trigger] f[i] == 0
            &&& f.subrange(38, 42) == seq![
                target.octet(0),
                target.octet(1),
                target.octet(2),
                target.octet(3),
            ]
        }),
{
    let f = request_frame(mac, spa, target);
    assert(f.subrange(6, 12) =~= seq![mac.0, mac.1, mac.2, mac.3, mac.4, mac.5]);
    assert(f.subrange(12, 22) =~= seq![8u8, 6u8, 0u8, 1u8, 8u8, 0u8, 6u8, 4u8, 0u8, 1u8]);
    assert(f.subrange(22, 28) =~= seq![mac.0, mac.1, mac.2, mac.3, mac.4, mac.5]);
    assert(f.subrange(28, 32) =~= seq![spa.octet(0), spa.octet(1), spa.octet(2), spa.octet(3)]);
    assert(f.subrange(38, 42) =~= seq![target.octet(0), target.octet(1), target.octet(2), target.octet(3)]);
}

/// The blocks of a network follow one another from its lowest address on, each a /24;
/// one that is a /24 or smaller is its own only block.
pub proof fn blocks_follow_one_another(n: Ipv4Net, i: int)
    requires
        0 <= i < blocks(n).len(),
    ensures
        n.prefix_len < 24 ==> blocks(n)[i].prefix_len == 24 && blocks(n)[i].first() == n.first() + 256 * i
            && blocks(n).len() * 256 == n.last() - n.first() + 1,
        n.prefix_len >= 24 ==> blocks(n).len() == 1 && blocks(n)[i] == n,
{
    if n.prefix_len < 24 {
        lemma_blocks(n);
        assert(block(n, i).first() == n.first() + 256 * i);
    }
}

/// Inside a block the addresses are gone through from the lowest to the highest, none
/// of them twice.
pub proof fn addresses_go_up(b: Ipv4Net, excluded: Seq<Ipv4Net>, i: int, j: int)
    requires
        0 <= i < j < survivors(b, excluded).len(),
    ensures
        survivors(b, excluded)[i].bits < survivors(b, excluded)[j].bits,
{
    hosts_are_in_the_network(b);
    lemma_filter_goes_up(host_addrs(b), allowed(excluded));
}

proof fn lemma_filter_goes_up(s: Seq<Ipv4Addr>, p: spec_fn(Ipv4Addr) -> bool)
    requires
        forall|i: int, j: int| 0 <= i < j < s.len() ==> (#[trigger] s[i]).bits < (#[trigger] s[j]).bits,
    ensures
        forall|i: int, j: int|
            0 <= i < j < s.filter(p).len() ==> (#[trigger] s.filter(p)[i]).bits < (#[trigger] s.filter(
                p,
            )[j]).bits,
        forall|i: int| 0 <= i < s.filter(p).len() ==> s.contains(#[trigger] s.filter(p)[i]),
    decreases s.len(),
{
    reveal(Seq::filter);
    if s.len() > 0 {
        let init = s.drop_last();
        assert forall|i: int, j: int| 0 <= i < j < init.len() implies (#[trigger] init[i]).bits < (
        #[trigger] init[j]).bits by {
            assert(init[i] == s[i] && init[j] == s[j]);
        }
        lemma_filter_goes_up(init, p);
        let f = init.filter(p);
        assert forall|i: int| 0 <= i < f.len() implies s.contains(#[trigger] f[i]) && f[i].bits
            < s.last().bits by {
            assert(init.contains(f[i]));
            let k = choose|k: int| 0 <= k < init.len() && init[k] == f[i];
            assert(s[k] == f[i]);
            assert(s[k].bits < s[s.len() - 1].bits);
        }
        assert(s.contains(s.last())) by {
            assert(s[s.len() - 1] == s.last());
        }
    }
}

/// Every block is sent as often as was asked for, and once where that is never.
pub proof fn every_block_is_sent_once_at_least(pace: Pace)
    ensures
        passes_of(pace) >= 1,
        pace.passes >= 1 ==> passes_of(pace) == pace.passes,
        pace.passes == 0 ==> passes_of(pace) == 1,
{
}

/// A duration is told in its two largest units, the second on two places and rounded
/// down.
pub proof fn durations_are_told(s: u64, h: nat, m: nat, r: nat)
    requires
        s == h * 3600 + m * 60 + r,
        m < 60,
        r < 60,
    ensures
        h > 0 ==> duration_text(s) == text::dec(h) + seq!['h'] + text::dec2(m) + seq!['m'],
        h == 0 && m > 0 ==> duration_text(s) == text::dec(m) + seq!['m'] + text::dec2(r) + seq!['s'],
        h == 0 && m == 0 ==> duration_text(s) == text::dec(r) + seq!['s'],
{
}

} // verus!
