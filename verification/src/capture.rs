//! What a captured frame says about who is on the link.
use crate::addr::{Ipv4Addr, Ipv6Addr, MacAddr};
use crate::bytes;
use crate::dhcp::{self, DhcpObservation, ObservationView};
use crate::ordered::Ranked;
use vstd::prelude::*;

verus! {

broadcast use vstd::seq::group_seq_axioms;

/// How a (MAC, IP) pair came to our attention. This sets the confidence: an
/// ArpReply is direct proof, while an Ipv4Source is merely observed traffic.
#[derive(Debug, Clone, Copy, PartialEq, Eq, Structural)]
pub enum Source {
    /// Answered an ARP request, ours or someone else's.
    ArpReply,
    /// Sent an ARP request, revealing its own IP in the sender field.
    ArpRequest,
    /// Gratuitous ARP: sender IP == target IP, typical at boot or on IP change.
    Gratuitous,
    /// Source address of any captured IPv4 packet.
    Ipv4Source,
    /// Seen inside a DHCP packet.
    Dhcp,
    /// Answered the ICMPv6 to ff02::1, or showed up in an NS/NA.
    Ndp,
}

impl Source {
    /// The name a report gives it.
    pub open spec fn name(self) -> Seq<char> {
        match self {
            Source::ArpReply => "arp-reply"@,
            Source::ArpRequest => "arp-request"@,
            Source::Gratuitous => "gratuitous-arp"@,
            Source::Ipv4Source => "ipv4-traffic"@,
            Source::Dhcp => "dhcp"@,
            Source::Ndp => "ipv6-ndp"@,
        }
    }

    /// The name a report gives it.
    pub fn label(&self) -> (r: &'static str)
        ensures
            r@ == self.name(),
    {
        match self {
            Source::ArpReply => "arp-reply",
            Source::ArpRequest => "arp-request",
            Source::Gratuitous => "gratuitous-arp",
            Source::Ipv4Source => "ipv4-traffic",
            Source::Dhcp => "dhcp",
            Source::Ndp => "ipv6-ndp",
        }
    }
}

impl Ranked for Source {
    open spec fn rank(&self) -> nat {
        match self {
            Source::ArpReply => 0,
            Source::ArpRequest => 1,
            Source::Gratuitous => 2,
            Source::Ipv4Source => 3,
            Source::Dhcp => 4,
            Source::Ndp => 5,
        }
    }

    fn rank_number(&self) -> (r: u128) {
        match self {
            Source::ArpReply => 0,
            Source::ArpRequest => 1,
            Source::Gratuitous => 2,
            Source::Ipv4Source => 3,
            Source::Dhcp => 4,
            Source::Ndp => 5,
        }
    }
}

/// Something learned from a frame.
#[allow(inconsistent_fields)]
#[derive(Debug)]
pub enum Event {
    /// A MAC was tied to an IPv4 address.
    V4 { mac: MacAddr, ip: Ipv4Addr, src: Source },
    /// A MAC was seen with an IPv6 address (usually link-local).
    V6 { mac: MacAddr, ip: Ipv6Addr },
    /// A DHCP observation (request, ack, ...).
    Dhcp(Box<DhcpObservation>),
}

/// An [`Event`] with its text as characters.
#[allow(inconsistent_fields)]
pub enum EventView {
    V4 { mac: MacAddr, ip: Ipv4Addr, src: Source },
    V6 { mac: MacAddr, ip: Ipv6Addr },
    Dhcp(ObservationView),
}

impl EventView {
    /// The MAC the event is about.
    pub open spec fn mac(self) -> MacAddr {
        match self {
            EventView::V4 { mac, .. } => mac,
            EventView::V6 { mac, .. } => mac,
            EventView::Dhcp(obs) => obs.client_mac,
        }
    }
}

impl View for Event {
    type V = EventView;

    open spec fn view(&self) -> EventView {
        match self {
            Event::V4 { mac, ip, src } => EventView::V4 { mac: *mac, ip: *ip, src: *src },
            Event::V6 { mac, ip } => EventView::V6 { mac: *mac, ip: *ip },
            Event::Dhcp(obs) => EventView::Dhcp((**obs)@),
        }
    }
}

/// What a list of events says.
pub open spec fn event_views(v: Seq<Event>) -> Seq<EventView> {
    Seq::new(v.len(), |i: int| v[i]@)
}

/// The event or events that a frame gives, as a sequence.
pub open spec fn maybe(e: Option<EventView>) -> Seq<EventView> {
    match e {
        Some(x) => seq![x],
        None => Seq::empty(),
    }
}

// ---------------------------------------------------------------------
// ARP
// ---------------------------------------------------------------------

/// Ethertype of ARP.
pub const ETHERTYPE_ARP: u16 = 0x0806;

/// Ethertype of IPv4.
pub const ETHERTYPE_IPV4: u16 = 0x0800;

/// Ethertype of IPv6.
pub const ETHERTYPE_IPV6: u16 = 0x86dd;

/// What an ARP packet says. It names the sender's hardware address at byte 8,
/// its IPv4 address at byte 14 and the address asked for at byte 24; operation 2
/// is a reply. A 0.0.0.0 sender is an ARP probe: the host has not claimed the
/// address yet, but the target field reveals which one it is about to take.
pub open spec fn arp_event(p: Seq<u8>) -> Option<EventView> {
    let mac = bytes::mac_at(p, 8);
    let sender = bytes::ipv4_at(p, 14);
    let target = bytes::ipv4_at(p, 24);
    if p.len() < 28 {
        None
    } else if sender.bits == 0 && target.bits == 0 {
        None
    } else if sender.bits == 0 {
        Some(EventView::V4 { mac, ip: target, src: Source::Gratuitous })
    } else {
        Some(
            EventView::V4 {
                mac,
                ip: sender,
                src: if bytes::word_at(p, 6) == 2 {
                    Source::ArpReply
                } else if sender == target {
                    Source::Gratuitous
                } else {
                    Source::ArpRequest
                },
            },
        )
    }
}

/// Reads an ARP packet.
pub fn handle_arp(p: &[u8]) -> (r: Option<Event>)
    ensures
        match arp_event(p@) {
            Some(e) => r matches Some(x) && x@ == e,
            None => r is None,
        },
{
    if p.len() < 28 {
        return None;
    }
    let sender_mac = bytes::read_mac(p, 8);
    let sender_ip = bytes::read_ipv4(p, 14);
    let target_ip = bytes::read_ipv4(p, 24);

    if sender_ip.is_unspecified() {
        if !target_ip.is_unspecified() {
            return Some(Event::V4 { mac: sender_mac, ip: target_ip, src: Source::Gratuitous });
        }
        return None;
    }
    let src = if bytes::read_word(p, 6) == 2 {
        Source::ArpReply
    } else if sender_ip == target_ip {
        Source::Gratuitous
    } else {
        Source::ArpRequest
    };
    Some(Event::V4 { mac: sender_mac, ip: sender_ip, src })
}

// ---------------------------------------------------------------------
// IPv4
// ---------------------------------------------------------------------

/// The length of an IPv4 header, as its first byte gives it.
pub open spec fn header_len(p: Seq<u8>) -> int {
    (p[0] % 16) * 4
}

/// What an IPv4 packet carries: it starts behind the header, at byte 20 at the
/// earliest, and runs for as long as the total length at byte 2 leaves room for,
/// or to the end of what was captured.
pub open spec fn ipv4_payload(p: Seq<u8>) -> Seq<u8> {
    let h = header_len(p);
    let start = if h < 20 {
        20
    } else {
        h
    };
    let len = if bytes::word_at(p, 2) < h {
        0
    } else {
        bytes::word_at(p, 2) - h
    };
    if p.len() <= start {
        Seq::empty()
    } else if start + len < p.len() {
        p.subrange(start, start + len)
    } else {
        p.skip(start)
    }
}

/// Finds what an IPv4 packet carries.
fn payload_of_ipv4(p: &[u8]) -> (r: &[u8])
    requires
        p.len() >= 20,
    ensures
        r@ == ipv4_payload(p@),
{
    let h: usize = (p[0] % 16) as usize * 4;
    let start: usize = if h < 20 {
        20
    } else {
        h
    };
    let total: usize = bytes::read_word(p, 2) as usize;
    let len: usize = if total < h {
        0
    } else {
        total - h
    };
    if p.len() <= start {
        let r = vstd::slice::slice_subrange(p, 0, 0);
        assert(r@ =~= Seq::empty());
        r
    } else if len < p.len() - start {
        vstd::slice::slice_subrange(p, start, start + len)
    } else {
        let r = vstd::slice::slice_subrange(p, start, p.len());
        assert(r@ =~= p@.skip(start as int));
        r
    }
}

/// Is it a datagram from or to one of the DHCP ports?
pub open spec fn on_dhcp_port(udp: Seq<u8>) -> bool {
    let (sp, dp) = (bytes::word_at(udp, 0), bytes::word_at(udp, 2));
    udp.len() >= 8 && (sp == 67 || sp == 68 || dp == 67 || dp == 68)
}

/// The DHCP message that an IPv4 packet carries, if any.
pub open spec fn dhcp_event(mac: MacAddr, p: Seq<u8>) -> Option<EventView> {
    let udp = ipv4_payload(p);
    if p[9] == 17 && on_dhcp_port(udp) {
        match dhcp::observed(udp.skip(8), mac) {
            Some(o) => Some(EventView::Dhcp(o)),
            None => None,
        }
    } else {
        None
    }
}

/// The sender that an IPv4 packet names, where a device can have that address.
pub open spec fn traffic_event(mac: MacAddr, p: Seq<u8>) -> Option<EventView> {
    let ip = bytes::ipv4_at(p, 12);
    if ip.bits == 0 || ip.bits == 0xffff_ffff || ip.multicast() {
        None
    } else {
        Some(EventView::V4 { mac, ip, src: Source::Ipv4Source })
    }
}

/// What an IPv4 packet in a frame of that sender says. DHCP travels with a
/// 0.0.0.0 source before the lease exists; the pair (MAC, 0.0.0.0) says nothing,
/// but the BOOTP payload says everything.
pub open spec fn ipv4_events(mac: MacAddr, p: Seq<u8>) -> Seq<EventView> {
    if p.len() < 20 {
        Seq::empty()
    } else {
        maybe(dhcp_event(mac, p)) + maybe(traffic_event(mac, p))
    }
}

/// Reads the DHCP message that an IPv4 packet carries.
fn dhcp_of(mac: MacAddr, p: &[u8], src_ip: Ipv4Addr) -> (r: Option<Event>)
    requires
        p.len() >= 20,
    ensures
        match dhcp_event(mac, p@) {
            Some(e) => r matches Some(x) && x@ == e,
            None => r is None,
        },
{
    if p[9] != 17 {
        return None;
    }
    let udp: &[u8] = payload_of_ipv4(p);
    if udp.len() < 8 {
        return None;
    }
    let sp: u16 = bytes::read_word(udp, 0);
    let dp: u16 = bytes::read_word(udp, 2);
    if sp == 67 || sp == 68 || dp == 67 || dp == 68 {
        let body: &[u8] = vstd::slice::slice_subrange(udp, 8, udp.len());
        assert(body@ =~= udp@.skip(8));
        match dhcp::parse(body, mac, src_ip) {
            Some(obs) => Some(Event::Dhcp(Box::new(obs))),
            None => None,
        }
    } else {
        None
    }
}

/// Reads an IPv4 packet.
pub fn handle_ipv4(mac: MacAddr, p: &[u8]) -> (r: Vec<Event>)
    ensures
        event_views(r@) == ipv4_events(mac, p@),
{
    let mut out: Vec<Event> = Vec::new();
    if p.len() < 20 {
        return out;
    }
    let src_ip = bytes::read_ipv4(p, 12);
    match dhcp_of(mac, p, src_ip) {
        Some(e) => out.push(e),
        None => {},
    }
    assert(event_views(out@) =~= maybe(dhcp_event(mac, p@)));
    let ghost before = out@;
    if !src_ip.is_unspecified() && !src_ip.is_broadcast() && !src_ip.is_multicast() {
        out.push(Event::V4 { mac, ip: src_ip, src: Source::Ipv4Source });
        assert(event_views(out@) =~= event_views(before) + maybe(traffic_event(mac, p@)));
    } else {
        assert(event_views(out@) =~= event_views(before) + maybe(traffic_event(mac, p@)));
    }
    out
}

// ---------------------------------------------------------------------
// IPv6
// ---------------------------------------------------------------------

/// What an IPv6 packet in a frame of that sender says: its source address, where
/// a device can have it.
pub open spec fn ipv6_event(mac: MacAddr, p: Seq<u8>) -> Option<EventView> {
    let ip = bytes::ipv6_at(p, 8);
    if p.len() < 40 || ip.bits == 0 || ip.multicast() {
        None
    } else {
        Some(EventView::V6 { mac, ip })
    }
}

/// Reads an IPv6 packet.
pub fn handle_ipv6(mac: MacAddr, p: &[u8]) -> (r: Option<Event>)
    ensures
        match ipv6_event(mac, p@) {
            Some(e) => r matches Some(x) && x@ == e,
            None => r is None,
        },
{
    if p.len() < 40 {
        return None;
    }
    let ip = bytes::read_ipv6(p, 8);
    if ip.is_unspecified() || ip.is_multicast() {
        return None;
    }
    Some(Event::V6 { mac, ip })
}

// ---------------------------------------------------------------------
// Frames
// ---------------------------------------------------------------------

/// What a frame says. It names its sender at byte 6 and what it carries at byte
/// 12. A frame of our own says nothing, or we would show up as a host; nor does
/// one that is too short or carries something else.
pub open spec fn frame_says(frame: Seq<u8>, local_mac: MacAddr) -> Seq<EventView> {
    let mac = bytes::mac_at(frame, 6);
    let kind = bytes::word_at(frame, 12);
    let p = frame.skip(14);
    if frame.len() < 14 || mac == local_mac {
        Seq::empty()
    } else if kind == ETHERTYPE_ARP {
        maybe(arp_event(p))
    } else if kind == ETHERTYPE_IPV4 {
        ipv4_events(mac, p)
    } else if kind == ETHERTYPE_IPV6 {
        maybe(ipv6_event(mac, p))
    } else {
        Seq::empty()
    }
}

fn one(e: Option<Event>) -> (r: Vec<Event>)
    ensures
        e matches Some(x) ==> event_views(r@) == seq![x@],
        e is None ==> event_views(r@) == Seq::<EventView>::empty(),
{
    let mut out: Vec<Event> = Vec::new();
    if let Some(x) = e {
        out.push(x);
    }
    out
}

/// Reads a captured frame. A malformed frame is simply skipped.
pub fn frame_events(frame: &[u8], local_mac: MacAddr) -> (r: Vec<Event>)
    ensures
        event_views(r@) == frame_says(frame@, local_mac),
{
    if frame.len() < 14 {
        return one(None);
    }
    let mac = bytes::read_mac(frame, 6);
    if mac == local_mac {
        return one(None);
    }
    let p: &[u8] = vstd::slice::slice_subrange(frame, 14, frame.len());
    assert(p@ =~= frame@.skip(14));
    let kind: u16 = bytes::read_word(frame, 12);
    if kind == ETHERTYPE_ARP {
        one(handle_arp(p))
    } else if kind == ETHERTYPE_IPV4 {
        handle_ipv4(mac, p)
    } else if kind == ETHERTYPE_IPV6 {
        one(handle_ipv6(mac, p))
    } else {
        one(None)
    }
}

/// How many receive attempts go by between two looks at the kernel's drop
/// counter, which it resets on every read.
pub const STATS_EVERY: u32 = 2048;

/// Counts one receive attempt: how many there were since the last look at the
/// drop counter, and whether it is time for the next one.
pub fn count_attempt(since_stats: u32) -> (r: (u32, bool))
    requires
        since_stats < STATS_EVERY,
    ensures
        r.1 <==> since_stats + 1 == STATS_EVERY,
        r.0 == (if r.1 {
            0
        } else {
            since_stats + 1
        }),
        r.0 < STATS_EVERY,
{
    if since_stats + 1 >= STATS_EVERY {
        (0, true)
    } else {
        (since_stats + 1, false)
    }
}

/// Nothing that we send ourselves is ever taken for a host.
pub proof fn own_frames_say_nothing(frame: Seq<u8>)
    requires
        frame.len() >= 14,
    ensures
        frame_says(frame, bytes::mac_at(frame, 6)).len() == 0,
{
}

// ---------------------------------------------------------------------
// What holds of every frame
// ---------------------------------------------------------------------

/// Four bytes as one number.
pub open spec fn number_at(s: Seq<u8>, i: int) -> int {
    s[i] * 0x1000000 + s[i + 1] * 0x10000 + s[i + 2] * 0x100 + s[i + 3]
}

/// Does the frame come from another device, and does it carry that?
pub open spec fn carries(frame: Seq<u8>, local_mac: MacAddr, hi: u8, lo: u8) -> bool {
    &&& frame.len() >= 14
    &&& local_mac.octets() != (frame[6], frame[7], frame[8], frame[9], frame[10], frame[11])
    &&& frame[12] == hi
    &&& frame[13] == lo
}

/// An ARP packet ties the sender's MAC to the sender's address: as a reply where it is
/// one, as a gratuitous announcement where it asks for itself, as a request otherwise. A
/// probe, whose sender has no address yet, ties it to the address asked for.
#[verifier::spinoff_prover]
#[verifier::rlimit(30)]
pub proof fn an_arp_packet_is_read(frame: Seq<u8>, local_mac: MacAddr)
    requires
        carries(frame, local_mac, 0x08, 0x06),
    ensures
        ({
            let says = frame_says(frame, local_mac);
            let op = frame[20] * 256 + frame[21];
            let sender = number_at(frame, 28);
            let target = number_at(frame, 38);
            if frame.len() < 42 || (sender == 0 && target == 0) {
                says.len() == 0
            } else {
                &&& says.len() == 1
                &&& says[0] matches EventView::V4 { mac, ip, src } && {
                    &&& mac.octets() == (
                        frame[22],
                        frame[23],
                        frame[24],
                        frame[25],
                        frame[26],
                        frame[27],
                    )
                    &&& ip.bits == (if sender == 0 {
                        target
                    } else {
                        sender
                    })
                    &&& src == Source::ArpReply <==> sender != 0 && op == 2
                    &&& src == Source::Gratuitous <==> sender == 0 || (op != 2 && sender == target)
                    &&& src == Source::ArpRequest <==> sender != 0 && op != 2 && sender != target
                }
            }
        }),
{
    assert(bytes::word_at(frame, 12) == 0x0806);
}

/// An IPv4 packet ties the sender of the frame to the source address of the packet,
/// unless that is no address of a device: all zeros, all ones or multicast. Nothing else
/// in it ties a MAC to an address.
pub proof fn an_ipv4_source_is_read(frame: Seq<u8>, local_mac: MacAddr, m: MacAddr, a: Ipv4Addr, s: Source)
    requires
        carries(frame, local_mac, 0x08, 0x00),
    ensures
        frame_says(frame, local_mac).contains(EventView::V4 { mac: m, ip: a, src: s }) <==> {
            &&& frame.len() >= 34
            &&& s == Source::Ipv4Source
            &&& m.octets() == (frame[6], frame[7], frame[8], frame[9], frame[10], frame[11])
            &&& a.bits == number_at(frame, 26)
            &&& a.bits != 0
            &&& a.bits != 0xffff_ffff
            &&& !(224 <= frame[26] <= 239)
        },
{
    assert(bytes::word_at(frame, 12) == 0x0800);
    let mac = bytes::mac_at(frame, 6);
    let p = frame.skip(14);
    let e = EventView::V4 { mac: m, ip: a, src: s };
    let says = frame_says(frame, local_mac);
    crate::addr::lemma_quad_octets(frame[26], frame[27], frame[28], frame[29]);
    if frame.len() >= 34 {
        let d = maybe(dhcp_event(mac, p));
        let t = maybe(traffic_event(mac, p));
        assert(says == d + t);
        if traffic_event(mac, p) == Some(e) {
            assert(says[d.len() as int] == e);
        }
    }
}

/// A DHCP message in an IPv4 packet is read wherever it can be: in a datagram from or to
/// port 67 or 68, behind a header of any length, up to the length that the packet gives
/// for itself. No other packet holds one.
#[verifier::spinoff_prover]
#[verifier::rlimit(30)]
pub proof fn a_dhcp_message_is_read(
    frame: Seq<u8>,
    local_mac: MacAddr,
    mac: MacAddr,
    h: int,
    end: int,
    o: ObservationView,
)
    requires
        carries(frame, local_mac, 0x08, 0x00),
        mac.octets() == (frame[6], frame[7], frame[8], frame[9], frame[10], frame[11]),
        frame.len() >= 34,
        h == (frame[14] % 16) * 4,
        h >= 20,
        h <= frame[16] * 256 + frame[17],
        end == 14 + (if frame[16] * 256 + frame[17] <= frame.len() - 14 {
            frame[16] * 256 + frame[17]
        } else {
            frame.len() - 14
        }),
    ensures
        frame_says(frame, local_mac).contains(EventView::Dhcp(o)) <==> {
            let from = frame[14 + h] * 256 + frame[15 + h];
            let to = frame[16 + h] * 256 + frame[17 + h];
            &&& frame[23] == 17
            &&& 14 + h + 8 <= end
            &&& from == 67 || from == 68 || to == 67 || to == 68
            &&& dhcp::observed(frame.subrange(14 + h + 8, end), mac) == Some(o)
        },
{
    assert(bytes::word_at(frame, 12) == 0x0800);
    let p = frame.skip(14);
    let udp = ipv4_payload(p);
    let says = frame_says(frame, local_mac);
    let d = maybe(dhcp_event(mac, p));
    let t = maybe(traffic_event(mac, p));
    assert(p[0] == frame[14] && p[2] == frame[16] && p[3] == frame[17] && p[9] == frame[23]);
    assert(bytes::word_at(p, 2) == frame[16] * 256 + frame[17]);
    assert(says == d + t);
    if 14 + h < end {
        assert(udp =~= frame.subrange(14 + h, end));
    } else {
        assert(udp.len() == 0);
    }
    if 14 + h + 8 <= end {
        assert(udp.skip(8) =~= frame.subrange(14 + h + 8, end));
        assert(udp[0] == frame[14 + h] && udp[1] == frame[15 + h] && udp[2] == frame[16 + h] && udp[3]
            == frame[17 + h]);
    }
    if dhcp_event(mac, p) == Some(EventView::Dhcp(o)) {
        assert(says[0] == EventView::Dhcp(o));
    }
}

/// An IPv6 packet ties the sender of the frame to the source address of the packet,
/// unless that is no address of a device: all zeros or multicast. It says nothing else.
pub proof fn an_ipv6_source_is_read(frame: Seq<u8>, local_mac: MacAddr, a: Ipv6Addr)
    requires
        carries(frame, local_mac, 0x86, 0xdd),
        frame.len() >= 54 ==> frame.subrange(22, 38) == bytes::ipv6_bytes(a),
    ensures
        ({
            let says = frame_says(frame, local_mac);
            if frame.len() < 54 || a.bits == 0 || a.bits >= 0xff00_0000_0000_0000_0000_0000_0000_0000 {
                says.len() == 0
            } else {
                &&& says.len() == 1
                &&& says[0] matches EventView::V6 { mac, ip } && ip == a && mac.octets() == (
                    frame[6],
                    frame[7],
                    frame[8],
                    frame[9],
                    frame[10],
                    frame[11],
                )
            }
        }),
{
    assert(bytes::word_at(frame, 12) == 0x86dd);
    let p = frame.skip(14);
    if frame.len() >= 54 {
        assert(p.subrange(8, 24) =~= frame.subrange(22, 38));
        bytes::ipv6_bytes_read_back(p, 8, a);
    }
}

/// A frame that is too short, or carries neither ARP nor IPv4 nor IPv6, says nothing.
pub proof fn other_frames_say_nothing(frame: Seq<u8>, local_mac: MacAddr)
    requires
        frame.len() < 14 || !(carries(frame, local_mac, 0x08, 0x06) || carries(
            frame,
            local_mac,
            0x08,
            0x00,
        ) || carries(frame, local_mac, 0x86, 0xdd)),
    ensures
        frame_says(frame, local_mac).len() == 0,
{
    if frame.len() >= 14 && bytes::mac_at(frame, 6) != local_mac {
        let w = bytes::word_at(frame, 12);
        assert(w == frame[12] * 256 + frame[13]);
    }
}

/// Different sources have different ranks and different names.
pub proof fn sources_are_told_apart(a: Source, b: Source)
    requires
        a != b,
    ensures
        a.rank() != b.rank(),
        a.name() != b.name(),
{
    reveal_strlit("arp-reply");
    reveal_strlit("arp-request");
    reveal_strlit("gratuitous-arp");
    reveal_strlit("ipv4-traffic");
    reveal_strlit("dhcp");
    reveal_strlit("ipv6-ndp");
    let (x, y) = (a.name(), b.name());
    if x.len() == y.len() {
        assert(x[0] == y[0] && x[1] == y[1]);
    }
}

/// What a packet carries stands behind its header, which takes up twenty bytes at least,
/// in one piece and from the first byte on; it is as long as the packet says, the header
/// it announces left out, as far as that was captured.
pub proof fn a_payload_is_one_piece(p: Seq<u8>)
    requires
        p.len() >= 20,
    ensures
        ({
            let h = (p[0] % 16) * 4;
            let total = p[2] * 256 + p[3];
            let start = if h < 20 {
                20
            } else {
                h
            };
            let r = ipv4_payload(p);
            &&& start + r.len() <= p.len() || r.len() == 0
            &&& r.len() <= total - h || r.len() == 0
            &&& r.len() == total - h || r.len() == p.len() - start || (r.len() == 0 && (total < h
                || p.len() <= start))
            &&& forall|i: int| 0 <= i < r.len() ==> #[trigger] r[i] == p[start + i]
        }),
{
    assert(bytes::word_at(p, 2) == p[2] * 256 + p[3]);
}

} // verus!
