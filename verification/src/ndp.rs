//! The ICMPv6 echo that makes every IPv6 stack on the link show itself.
use crate::addr::{Ipv6Addr, MacAddr};
use crate::bytes;
use crate::capture::{self, EventView};
use crate::iface::Local;
use vstd::prelude::*;

verus! {

broadcast use vstd::seq::group_seq_axioms;

/// Length of the frame: an Ethernet header, an IPv6 header, and an echo request
/// with 8 bytes of header and 8 of payload.
pub const FRAME: usize = 70;

/// Echo identifier; it only needs to be stable within one run.
pub const ECHO_IDENT: u16 = 0x15ca;

/// The link-local scope "all-nodes" multicast address, ff02::1.
pub const ALL_NODES: u128 = 0xff02_0000_0000_0000_0000_0000_0000_0001;

/// The number of echo requests sent.
pub const ECHO_COUNT: usize = 3;

/// The sum of the 16-bit words that bytes make, the first byte of each counting for
/// most. A last byte without a partner is the first byte of a word.
pub open spec fn word_sum(d: Seq<u8>) -> nat
    decreases d.len(),
{
    if d.len() == 0 {
        0
    } else if d.len() == 1 {
        d[0] as nat * 256
    } else {
        d[0] as nat * 256 + d[1] as nat + word_sum(d.skip(2))
    }
}

/// A sum of words in one word, every carry added back in: zero stays zero, and
/// everything else becomes the remainder by 0xffff, from one to 0xffff.
pub open spec fn carried(n: nat) -> nat {
    if n == 0 {
        0
    } else {
        ((n - 1) % 0xffff + 1) as nat
    }
}

/// The words of the pseudo-header that an ICMPv6 checksum covers: both addresses, the
/// length of the packet and the number of the protocol.
pub open spec fn pseudo_header_sum(src: u128, dst: u128, len: nat) -> nat {
    word_sum(bytes::ipv6_bytes(Ipv6Addr { bits: src })) + word_sum(
        bytes::ipv6_bytes(Ipv6Addr { bits: dst }),
    ) + len + 58
}

/// The checksum of an ICMPv6 packet between two addresses (RFC 4443): the complement of
/// the sum over the pseudo-header and the packet, the checksum field left out.
pub open spec fn packet_checksum(packet: Seq<u8>, src: u128, dst: u128) -> u16 {
    (0xffff - carried(
        pseudo_header_sum(src, dst, packet.len()) + word_sum(packet.take(2)) + word_sum(
            packet.skip(4),
        ),
    )) as u16
}

/// Calls `pnet::packet::icmpv6::checksum`, which adds up the 16-bit words of a
/// pseudo-header, made of the two addresses, the length and the protocol number 58,
/// and of the packet but for its second word, the checksum's own; adds the carries
/// back in until one word is left; and takes the complement. `pnet` takes no ICMPv6
/// packet shorter than four bytes, and its 32-bit sum has room for any packet that an
/// IPv6 header can announce.
#[verifier::external_body]
fn checksum(packet: &[u8], src: u128, dst: u128) -> (r: u16)
    requires
        4 <= packet.len() <= 0xffff,
    ensures
        r == packet_checksum(packet@, src, dst),
{
    let p = pnet::packet::icmpv6::Icmpv6Packet::new(packet).expect("four bytes at least");
    pnet::packet::icmpv6::checksum(&p, &src.into(), &dst.into())
}

/// The payload of the echo request: `ipscan` and two zero bytes.
pub open spec fn echo_payload() -> Seq<u8> {
    seq![105u8, 112u8, 115u8, 99u8, 97u8, 110u8, 0u8, 0u8]
}

/// An echo request: type 128, code 0, then the checksum, the identifier, the
/// sequence number and the payload.
pub open spec fn echo_request(cks: u16, seq: u16) -> Seq<u8> {
    seq![128u8, 0u8] + bytes::word_bytes(cks) + bytes::word_bytes(ECHO_IDENT) + bytes::word_bytes(
        seq,
    ) + echo_payload()
}

/// An IPv6 header for such a request: version 6, 16 bytes to follow, ICMPv6. The
/// hop limit of 255 guarantees that no router forwards the packet off the link.
pub open spec fn ipv6_header(src: Ipv6Addr) -> Seq<u8> {
    seq![0x60u8, 0u8, 0u8, 0u8] + bytes::word_bytes(16) + seq![58u8, 255u8] + bytes::ipv6_bytes(src)
        + bytes::ipv6_bytes(Ipv6Addr { bits: ALL_NODES })
}

/// A frame with that packet in it and the given checksum. It goes to the MAC that
/// RFC 2464 derives from ff02::1: 33:33 and the last 4 bytes.
pub open spec fn echo_frame(mac: MacAddr, src: Ipv6Addr, seq: u16, cks: u16) -> Seq<u8> {
    bytes::mac_bytes(MacAddr(0x33, 0x33, 0, 0, 0, 1)) + bytes::mac_bytes(mac) + bytes::word_bytes(
        capture::ETHERTYPE_IPV6,
    ) + ipv6_header(src) + echo_request(cks, seq)
}

/// The checksum of the request: it covers a pseudo-header with source and
/// destination, and is taken with its own field still zero.
pub open spec fn echo_checksum(src: Ipv6Addr, seq: u16) -> u16 {
    packet_checksum(echo_request(0, seq), src.bits, ALL_NODES)
}

fn push_echo(buf: &mut Vec<u8>, cks: u16, seq: u16)
    ensures
        final(buf)@ == old(buf)@ + echo_request(cks, seq),
{
    buf.push(128);
    buf.push(0);
    bytes::push_word(buf, cks);
    bytes::push_word(buf, ECHO_IDENT);
    bytes::push_word(buf, seq);
    buf.push(105);
    buf.push(112);
    buf.push(115);
    buf.push(99);
    buf.push(97);
    buf.push(110);
    buf.push(0);
    buf.push(0);
    assert(buf@ =~= old(buf)@ + echo_request(cks, seq));
}

proof fn lemma_ipv6_bytes_len(ip: Ipv6Addr)
    ensures
        bytes::ipv6_bytes(ip).len() == 16,
{
    bytes::lemma_low_bytes_len(ip.bits as nat, 16);
}

/// Builds the frame around a given checksum.
pub fn build_with(mac: MacAddr, src: Ipv6Addr, seq: u16, cks: u16) -> (r: Vec<u8>)
    ensures
        r@ == echo_frame(mac, src, seq, cks),
        r.len() == FRAME,
{
    let mut buf: Vec<u8> = Vec::new();
    bytes::push_mac(&mut buf, MacAddr::new(0x33, 0x33, 0, 0, 0, 1));
    bytes::push_mac(&mut buf, mac);
    bytes::push_word(&mut buf, capture::ETHERTYPE_IPV6);
    let ghost eth = buf@;
    buf.push(0x60);
    buf.push(0);
    buf.push(0);
    buf.push(0);
    bytes::push_word(&mut buf, 16);
    buf.push(58);
    buf.push(255);
    bytes::push_ipv6(&mut buf, src);
    bytes::push_ipv6(&mut buf, Ipv6Addr { bits: ALL_NODES });
    assert(buf@ =~= eth + ipv6_header(src));
    push_echo(&mut buf, cks, seq);
    proof {
        lemma_ipv6_bytes_len(src);
        lemma_ipv6_bytes_len(Ipv6Addr { bits: ALL_NODES });
        assert(buf@ =~= echo_frame(mac, src, seq, cks));
    }
    buf
}

/// Builds a complete frame with an echo request to every node on the link.
pub fn build(local: &Local, src: Ipv6Addr, seq: u16) -> (r: Vec<u8>)
    ensures
        r@ == echo_frame(local.mac, src, seq, echo_checksum(src, seq)),
        r.len() == FRAME,
{
    let mut icmp: Vec<u8> = Vec::new();
    push_echo(&mut icmp, 0, seq);
    assert(icmp@ =~= echo_request(0, seq));
    let cks: u16 = checksum(icmp.as_slice(), src.bits, ALL_NODES);
    build_with(local.mac, src, seq, cks)
}

/// The frames that make every device with an IPv6 stack answer with its link-local
/// address, **regardless of the IPv4 it has configured**, numbered from zero. None
/// where we have no link-local address of our own to ask from.
pub fn ping_all_nodes(local: &Local, count: usize) -> (r: Vec<Vec<u8>>)
    ensures
        r.len() == (if local.link_local is Some {
            count
        } else {
            0
        }),
        forall|i: int|
            0 <= i < r.len() ==> (#[trigger] r@[i])@ == echo_frame(
                local.mac,
                local.link_local->0,
                (i % 0x1_0000) as u16,
                echo_checksum(local.link_local->0, (i % 0x1_0000) as u16),
            ),
{
    let mut out: Vec<Vec<u8>> = Vec::new();
    let src = match local.link_local {
        Some(a) => a,
        None => {
            return out;
        },
    };
    let mut i: usize = 0;
    while i < count
        invariant
            i <= count,
            out.len() == i,
            local.link_local == Some(src),
            forall|k: int|
                0 <= k < i ==> (#[trigger] out@[k])@ == echo_frame(
                    local.mac,
                    src,
                    (k % 0x1_0000) as u16,
                    echo_checksum(src, (k % 0x1_0000) as u16),
                ),
        decreases count - i,
    {
        out.push(build(local, src, (i % 0x1_0000) as u16));
        i = i + 1;
    }
    out
}

/// An echo request of ours shows every other station our link-local address.
pub proof fn an_echo_is_understood(
    mac: MacAddr,
    src: Ipv6Addr,
    seq: u16,
    cks: u16,
    other: MacAddr,
)
    requires
        mac != other,
        src.link_local(),
    ensures
        capture::frame_says(echo_frame(mac, src, seq, cks), other) == seq![
            EventView::V6 { mac, ip: src },
        ],
{
    let f = echo_frame(mac, src, seq, cks);
    let p = ipv6_header(src) + echo_request(cks, seq);
    lemma_ipv6_bytes_len(src);
    lemma_ipv6_bytes_len(Ipv6Addr { bits: ALL_NODES });
    assert(f.len() == 70);
    assert(f.skip(14) =~= p);
    assert(f.subrange(6, 12) =~= bytes::mac_bytes(mac));
    bytes::mac_reads_back(f, 6, mac);
    assert(f.subrange(12, 14) =~= bytes::word_bytes(capture::ETHERTYPE_IPV6));
    bytes::word_reads_back(f, 12, capture::ETHERTYPE_IPV6);
    assert(p.subrange(8, 24) =~= bytes::ipv6_bytes(src));
    bytes::ipv6_bytes_read_back(p, 8, src);
}

proof fn lemma_word_sum_of_echo(cks: u16, seq: u16)
    ensures
        echo_request(cks, seq).len() == 16,
        echo_request(cks, seq).take(2) == echo_request(0, seq).take(2),
        echo_request(cks, seq).skip(4) == echo_request(0, seq).skip(4),
        word_sum(echo_request(cks, seq)) == word_sum(echo_request(cks, seq).take(2)) + cks
            + word_sum(echo_request(cks, seq).skip(4)),
{
    let e = echo_request(cks, seq);
    assert(e.take(2) =~= echo_request(0, seq).take(2));
    assert(e.skip(4) =~= echo_request(0, seq).skip(4));
    let h = e.take(2);
    assert(h.skip(2) =~= Seq::empty());
    assert(word_sum(h.skip(2)) == 0);
    assert(word_sum(h) == h[0] as nat * 256 + h[1] as nat);
    let r = e.skip(2);
    assert(r[0] == (cks / 256) as u8 && r[1] == (cks % 256) as u8);
    assert(r.skip(2) =~= e.skip(4));
    assert(word_sum(r) == cks + word_sum(e.skip(4)));
}

/// Every echo request of ours checks out at the receiver: with its checksum in place,
/// the words of pseudo-header and packet add up to a multiple of 0xffff.
pub proof fn an_echo_checks_out(src: Ipv6Addr, seq: u16)
    ensures
        carried(
            pseudo_header_sum(src.bits, ALL_NODES, 16) + word_sum(
                echo_request(echo_checksum(src, seq), seq),
            ),
        ) == 0xffff,
{
    let cks = echo_checksum(src, seq);
    lemma_word_sum_of_echo(0, seq);
    lemma_word_sum_of_echo(cks, seq);
    let e = echo_request(0, seq);
    let n = pseudo_header_sum(src.bits, ALL_NODES, 16) + word_sum(e.take(2)) + word_sum(e.skip(4));
    assert(n >= 58);
    assert(cks == 0xffff - carried(n));
}

/// An echo request goes to all nodes of the link and no further: to the multicast MAC
/// of ff02::1 and to ff02::1 itself, from our link-local address, with a hop limit that
/// no router passes on.
pub proof fn an_echo_goes_to_all_nodes(mac: MacAddr, src: Ipv6Addr, seq: u16, cks: u16)
    ensures
        ({
            let f = echo_frame(mac, src, seq, cks);
            &&& f.len() == 70
            &&& f.subrange(0, 6) == seq![0x33u8, 0x33u8, 0u8, 0u8, 0u8, 1u8]
            &&& f.subrange(6, 12) == seq![mac.0, mac.1, mac.2, mac.3, mac.4, mac.5]
            &&& f[12] == 0x86 && f[13] == 0xdd
            &&& f[14] / 16 == 6
            &&& f[18] * 256 + f[19] == f.len() - 54
            &&& f[20] == 58
            &&& f[21] == 255
            &&& bytes::ipv6_at(f, 22) == src
            &&& bytes::ipv6_at(f, 38).bits == 0xff02_0000_0000_0000_0000_0000_0000_0001
            &&& f[54] == 128
            &&& f[55] == 0
            &&& f[56] * 256 + f[57] == cks
            &&& f[58] * 256 + f[59] == 0x15ca
            &&& f[60] * 256 + f[61] == seq
        }),
{
    let f = echo_frame(mac, src, seq, cks);
    let all = Ipv6Addr { bits: ALL_NODES };
    lemma_ipv6_bytes_len(src);
    lemma_ipv6_bytes_len(all);
    assert(f.len() == 70);
    assert(f.subrange(0, 6) =~= seq![0x33u8, 0x33u8, 0u8, 0u8, 0u8, 1u8]);
    assert(f.subrange(6, 12) =~= seq![mac.0, mac.1, mac.2, mac.3, mac.4, mac.5]);
    assert(f.subrange(22, 38) =~= bytes::ipv6_bytes(src));
    bytes::ipv6_bytes_read_back(f, 22, src);
    assert(f.subrange(38, 54) =~= bytes::ipv6_bytes(all));
    bytes::ipv6_bytes_read_back(f, 38, all);
    let e = echo_request(cks, seq);
    assert(f.skip(54) =~= e);
    assert forall|i: int| 54 <= i < 70 implies #[trigger] f[i] == e[i - 54] by {
        assert(f.skip(54)[i - 54] == f[i]);
    }
}

} // verus!
