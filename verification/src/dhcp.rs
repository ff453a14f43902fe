//! DHCP: what a captured message says, and what a server's lease file says.
use crate::addr::{Ipv4Addr, MacAddr};
use crate::bytes;
use crate::text;
use vstd::prelude::*;

verus! {

broadcast use vstd::seq::group_seq_axioms;

/// BOOTP header offsets (RFC 951 / 2131).
pub const OP: usize = 0;

/// Length of the hardware address.
pub const HLEN: usize = 2;

/// The address the server grants.
pub const YIADDR: usize = 16;

/// The client's hardware address.
pub const CHADDR: usize = 28;

/// The magic cookie.
pub const MAGIC: usize = 236;

/// The options that follow the fixed header.
pub const OPTIONS: usize = 240;

/// The kind of a DHCP message.
#[derive(Debug, Clone, Copy, PartialEq, Eq, Structural)]
pub enum MsgType {
    Discover,
    Offer,
    Request,
    Decline,
    Ack,
    Nak,
    Release,
    Inform,
    Other(u8),
}

impl MsgType {
    /// The kind with the given number.
    pub open spec fn of(v: u8) -> MsgType {
        if v == 1 {
            MsgType::Discover
        } else if v == 2 {
            MsgType::Offer
        } else if v == 3 {
            MsgType::Request
        } else if v == 4 {
            MsgType::Decline
        } else if v == 5 {
            MsgType::Ack
        } else if v == 6 {
            MsgType::Nak
        } else if v == 7 {
            MsgType::Release
        } else if v == 8 {
            MsgType::Inform
        } else {
            MsgType::Other(v)
        }
    }

    /// The kind with the given number.
    pub fn from_u8(v: u8) -> (r: MsgType)
        ensures
            r == MsgType::of(v),
    {
        match v {
            1 => MsgType::Discover,
            2 => MsgType::Offer,
            3 => MsgType::Request,
            4 => MsgType::Decline,
            5 => MsgType::Ack,
            6 => MsgType::Nak,
            7 => MsgType::Release,
            8 => MsgType::Inform,
            o => MsgType::Other(o),
        }
    }
}

/// What one DHCP message says.
#[derive(Debug)]
pub struct DhcpObservation {
    /// Client MAC read from chaddr, not from the ethernet frame: relays lie.
    pub client_mac: MacAddr,
    pub msg_type: MsgType,
    /// Address granted by the server (yiaddr), only meaningful in OFFER/ACK.
    pub assigned: Option<Ipv4Addr>,
    /// Option 50: the address the client asked for.
    pub requested: Option<Ipv4Addr>,
    /// Option 12: hostname advertised by the client.
    pub hostname: Option<String>,
    /// Option 51: lease duration in seconds.
    pub lease_secs: Option<u32>,
    /// Option 54: DHCP server identifier.
    pub server: Option<Ipv4Addr>,
}

/// A [`DhcpObservation`] with its text as characters.
pub struct ObservationView {
    pub client_mac: MacAddr,
    pub msg_type: MsgType,
    pub assigned: Option<Ipv4Addr>,
    pub requested: Option<Ipv4Addr>,
    pub hostname: Option<Seq<char>>,
    pub lease_secs: Option<u32>,
    pub server: Option<Ipv4Addr>,
}

impl View for DhcpObservation {
    type V = ObservationView;

    open spec fn view(&self) -> ObservationView {
        ObservationView {
            client_mac: self.client_mac,
            msg_type: self.msg_type,
            assigned: self.assigned,
            requested: self.requested,
            hostname: text::opt_view(self.hostname),
            lease_secs: self.lease_secs,
            server: self.server,
        }
    }
}

impl Clone for DhcpObservation {
    fn clone(&self) -> (r: DhcpObservation)
        ensures
            r@ == self@,
    {
        DhcpObservation {
            client_mac: self.client_mac,
            msg_type: self.msg_type,
            assigned: self.assigned,
            requested: self.requested,
            hostname: text::clone_opt(&self.hostname),
            lease_secs: self.lease_secs,
            server: self.server,
        }
    }
}

/// A lease treated as authoritative: it came from a server ACK or a lease file.
#[derive(Debug)]
pub struct Lease {
    pub ip: Ipv4Addr,
    pub hostname: Option<String>,
    pub lease_secs: Option<u32>,
    pub server: Option<Ipv4Addr>,
}

/// A [`Lease`] with its text as characters.
pub struct LeaseView {
    pub ip: Ipv4Addr,
    pub hostname: Option<Seq<char>>,
    pub lease_secs: Option<u32>,
    pub server: Option<Ipv4Addr>,
}

impl View for Lease {
    type V = LeaseView;

    open spec fn view(&self) -> LeaseView {
        LeaseView {
            ip: self.ip,
            hostname: text::opt_view(self.hostname),
            lease_secs: self.lease_secs,
            server: self.server,
        }
    }
}

impl Clone for Lease {
    fn clone(&self) -> (r: Lease)
        ensures
            r@ == self@,
    {
        Lease {
            ip: self.ip,
            hostname: text::clone_opt(&self.hostname),
            lease_secs: self.lease_secs,
            server: self.server,
        }
    }
}

// ---------------------------------------------------------------------
// Options
// ---------------------------------------------------------------------

/// The first option at or behind a position: its code, and where its data
/// starts and ends. Zero bytes are padding, 255 ends the list, and an option
/// that does not fit ends it too.
pub open spec fn next_option(buf: Seq<u8>, pos: int) -> Option<(u8, int, int)>
    decreases buf.len() - pos,
{
    if pos < 0 || pos >= buf.len() || buf[pos] == 255 {
        None
    } else if buf[pos] == 0 {
        next_option(buf, pos + 1)
    } else if pos + 1 >= buf.len() || pos + 2 + buf[pos + 1] > buf.len() {
        None
    } else {
        Some((buf[pos], pos + 2, pos + 2 + buf[pos + 1]))
    }
}

/// An option lies behind the position it was looked for from, inside the buffer.
pub proof fn lemma_next_option_bounds(buf: Seq<u8>, pos: int)
    ensures
        next_option(buf, pos) matches Some((_, start, end)) ==> pos < start <= end <= buf.len(),
    decreases buf.len() - pos,
{
    if 0 <= pos < buf.len() && buf[pos] == 0 {
        lemma_next_option_bounds(buf, pos + 1);
    }
}

/// The options from a position on: each code with its data.
pub open spec fn options_from(buf: Seq<u8>, pos: int) -> Seq<(u8, Seq<u8>)>
    decreases buf.len() - pos,
{
    match next_option(buf, pos) {
        None => Seq::empty(),
        Some((code, start, end)) => {
            proof {
                lemma_next_option_bounds(buf, pos);
            }
            seq![(code, buf.subrange(start, end))] + options_from(buf, end)
        },
    }
}

/// Walks over the DHCP options field (TLV format, with 0=pad and 255=end).
pub struct Options<'a> {
    pub buf: &'a [u8],
    pub pos: usize,
}

impl<'a> Options<'a> {
    /// A walk that starts at the first byte.
    pub fn new(buf: &'a [u8]) -> (r: Options<'a>)
        ensures
            r.buf@ == buf@,
            r.pos == 0,
    {
        Options { buf, pos: 0 }
    }

    /// The next option, if there is one; the walk moves behind it. Where there is none,
    /// it moves over the padding and stays there.
    pub fn next(&mut self) -> (r: Option<(u8, &'a [u8])>)
        ensures
            final(self).buf@ == old(self).buf@,
            match next_option(old(self).buf@, old(self).pos as int) {
                None => {
                    &&& r is None
                    &&& old(self).pos <= final(self).pos
                    &&& forall|i: int|
                        old(self).pos <= i < final(self).pos ==> #[trigger] old(self).buf@[i] == 0
                    &&& final(self).pos < old(self).buf@.len() ==> old(self).buf@[final(self).pos as int]
                        != 0
                    &&& next_option(final(self).buf@, final(self).pos as int) is None
                },
                Some((code, start, end)) => r matches Some((c, data)) && c == code && data@
                    == old(self).buf@.subrange(start, end) && final(self).pos == end,
            },
    {
        let buf: &'a [u8] = self.buf;
        while self.pos < buf.len() && buf[self.pos] == 0
            invariant
                self.buf == buf,
                buf@ == old(self).buf@,
                old(self).pos <= self.pos,
                forall|i: int| old(self).pos <= i < self.pos ==> #[trigger] buf@[i] == 0,
                next_option(buf@, self.pos as int) == next_option(buf@, old(self).pos as int),
            decreases buf.len() - self.pos,
        {
            self.pos = self.pos + 1;
        }
        let pos: usize = self.pos;
        if pos >= buf.len() || buf[pos] == 255 {
            return None;
        }
        if buf.len() - pos < 2 {
            return None;
        }
        let len: usize = buf[pos + 1] as usize;
        if buf.len() - pos - 2 < len {
            return None;
        }
        let start: usize = pos + 2;
        let end: usize = start + len;
        self.pos = end;
        Some((buf[pos], vstd::slice::slice_subrange(buf, start, end)))
    }
}

/// The data of the last option with a code, of those that have the given length
/// where one is given.
pub open spec fn last_with(opts: Seq<(u8, Seq<u8>)>, code: u8, len: Option<nat>) -> Option<Seq<u8>>
    decreases opts.len(),
{
    if opts.len() == 0 {
        None
    } else if opts.last().0 == code && (len is Some ==> opts.last().1.len() == len->0) {
        Some(opts.last().1)
    } else {
        last_with(opts.drop_last(), code, len)
    }
}

// ---------------------------------------------------------------------
// Messages
// ---------------------------------------------------------------------

/// Four bytes as an address.
pub open spec fn v4_of(d: Seq<u8>) -> Ipv4Addr {
    bytes::ipv4_at(d, 0)
}

/// Reads four bytes as an address.
fn v4(d: &[u8]) -> (r: Ipv4Addr)
    requires
        d.len() == 4,
    ensures
        r == v4_of(d@),
{
    bytes::read_ipv4(d, 0)
}

/// `String::from_utf8`: the text that the bytes encode; an error where they are
/// not UTF-8.
#[verifier::external_body]
fn utf8_text(data: Vec<u8>) -> (r: Option<String>)
    ensures
        r is Some <==> vstd::utf8::valid_utf8(data@),
        r matches Some(s) ==> s@ == vstd::utf8::decode_utf8(data@),
{
    String::from_utf8(data).ok()
}

/// The host name that the data of option 12 gives: none where it is empty or
/// not UTF-8.
pub open spec fn hostname_of(data: Seq<u8>) -> Option<Seq<char>> {
    if data.len() > 0 && vstd::utf8::valid_utf8(data) {
        Some(vstd::utf8::decode_utf8(data))
    } else {
        None
    }
}

/// Reads the data of option 12.
fn hostname(data: &[u8]) -> (r: Option<String>)
    ensures
        text::opt_view(r) == hostname_of(data@),
{
    if data.len() == 0 {
        return None;
    }
    let mut copy: Vec<u8> = Vec::new();
    copy.extend_from_slice(data);
    assert(copy@ =~= data@);
    utf8_text(copy)
}

/// Does the payload hold a BOOTP header with the cookie, as a request or a reply?
pub open spec fn is_bootp(payload: Seq<u8>) -> bool {
    &&& payload.len() >= OPTIONS
    &&& payload.subrange(MAGIC as int, MAGIC + 4) == seq![99u8, 130u8, 83u8, 99u8]
    &&& payload[OP as int] == 1 || payload[OP as int] == 2
}

/// The client's hardware address: chaddr holds 16 bytes, of which an ethernet
/// client uses six. Where the header gives another length, the frame's sender.
pub open spec fn client_of(payload: Seq<u8>, frame_mac: MacAddr) -> MacAddr {
    if payload[HLEN as int] == 6 {
        bytes::mac_at(payload, CHADDR as int)
    } else {
        frame_mac
    }
}

/// What a list of options says, the last option of each kind counting.
pub open spec fn told(
    client_mac: MacAddr,
    assigned: Option<Ipv4Addr>,
    opts: Seq<(u8, Seq<u8>)>,
) -> ObservationView {
    ObservationView {
        client_mac,
        msg_type: match last_with(opts, 53, Some(1)) {
            Some(d) => MsgType::of(d[0]),
            None => MsgType::Other(0),
        },
        assigned,
        requested: match last_with(opts, 50, Some(4)) {
            Some(d) => Some(v4_of(d)),
            None => None,
        },
        hostname: match last_with(opts, 12, None) {
            Some(d) => hostname_of(d),
            None => None,
        },
        lease_secs: match last_with(opts, 51, Some(4)) {
            Some(d) => Some(v4_of(d).bits),
            None => None,
        },
        server: match last_with(opts, 54, Some(4)) {
            Some(d) => Some(v4_of(d)),
            None => None,
        },
    }
}

/// What a BOOTP payload says.
pub open spec fn observed(payload: Seq<u8>, frame_mac: MacAddr) -> Option<ObservationView> {
    if !is_bootp(payload) {
        None
    } else {
        let yiaddr = bytes::ipv4_at(payload, YIADDR as int);
        Some(
            told(
                client_of(payload, frame_mac),
                if yiaddr.bits == 0 {
                    None
                } else {
                    Some(yiaddr)
                },
                options_from(payload.skip(OPTIONS as int), 0),
            ),
        )
    }
}

/// Parses the UDP payload of port 67/68. Returns None if it is not valid BOOTP.
pub fn parse(payload: &[u8], frame_mac: MacAddr, _src: Ipv4Addr) -> (r: Option<DhcpObservation>)
    ensures
        match observed(payload@, frame_mac) {
            Some(o) => r matches Some(x) && x@ == o,
            None => r is None,
        },
{
    if payload.len() < OPTIONS {
        return None;
    }
    if payload[MAGIC] != 99 || payload[MAGIC + 1] != 130 || payload[MAGIC + 2] != 83
        || payload[MAGIC + 3] != 99 {
        assert(payload@.subrange(MAGIC as int, MAGIC + 4)[0] == payload@[MAGIC as int]);
        assert(payload@.subrange(MAGIC as int, MAGIC + 4)[1] == payload@[MAGIC + 1]);
        assert(payload@.subrange(MAGIC as int, MAGIC + 4)[2] == payload@[MAGIC + 2]);
        assert(payload@.subrange(MAGIC as int, MAGIC + 4)[3] == payload@[MAGIC + 3]);
        return None;
    }
    assert(payload@.subrange(MAGIC as int, MAGIC + 4) =~= seq![99u8, 130u8, 83u8, 99u8]);
    let op: u8 = payload[OP];
    if op != 1 && op != 2 {
        return None;
    }
    // chaddr holds 16 bytes but only hlen are valid; for ethernet, hlen == 6.

    let client_mac = if payload[HLEN] == 6 {
        bytes::read_mac(payload, CHADDR)
    } else {
        frame_mac
    };

    let yiaddr = bytes::read_ipv4(payload, YIADDR);
    let assigned = if yiaddr.is_unspecified() {
        None
    } else {
        Some(yiaddr)
    };
    let mut obs = DhcpObservation {
        client_mac,
        msg_type: MsgType::Other(0),
        assigned,
        requested: None,
        hostname: None,
        lease_secs: None,
        server: None,
    };

    let field: &[u8] = vstd::slice::slice_subrange(payload, OPTIONS, payload.len());
    assert(field@ =~= payload@.skip(OPTIONS as int));
    let ghost all = options_from(field@, 0);
    let ghost mut done: Seq<(u8, Seq<u8>)> = Seq::empty();
    let mut walk = Options::new(field);
    let mut item = walk.next();
    proof {
        lemma_next_option_bounds(field@, 0);
        assert(all =~= done + all);
    }
    loop
        invariant
            all == options_from(field@, 0),
            walk.buf@ == field@,
            obs@ == told(client_mac, assigned, done),
            match item {
                None => all == done,
                Some((code, data)) => {
                    &&& walk.pos <= field@.len()
                    &&& all == done + (seq![(code, data@)] + options_from(
                        field@,
                        walk.pos as int,
                    ))
                },
            },
        ensures
            obs@ == told(client_mac, assigned, all),
        decreases all.len() - done.len(),
    {
        let (code, data) = match item {
            None => {
                break;
            },
            Some(x) => x,
        };
        let ghost next = done.push((code, data@));
        assert(next.drop_last() =~= done);
        assert(next.last() == (code, data@));
        if code == 53 && data.len() == 1 {
            obs.msg_type = MsgType::from_u8(data[0]);
        } else if code == 50 && data.len() == 4 {
            obs.requested = Some(v4(data));
        } else if code == 54 && data.len() == 4 {
            obs.server = Some(v4(data));
        } else if code == 51 && data.len() == 4 {
            obs.lease_secs = Some(v4(data).bits);
        } else if code == 12 {
            obs.hostname = hostname(data);
        }
        let ghost pos = walk.pos as int;
        proof {
            lemma_next_option_bounds(field@, pos);
            assert(all =~= next + options_from(field@, pos));
            done = next;
        }
        item = walk.next();
    }
    Some(obs)
}

// ---------------------------------------------------------------------
// Lease files
// ---------------------------------------------------------------------

/// A lease read from a file: no duration and no server on record.
pub open spec fn file_lease(ip: Ipv4Addr, hostname: Option<Seq<char>>) -> LeaseView {
    LeaseView { ip, hostname, lease_secs: None, server: None }
}

/// What a list of leases says.
pub open spec fn lease_views(v: Seq<(MacAddr, Lease)>) -> Seq<(MacAddr, LeaseView)> {
    Seq::new(v.len(), |i: int| (v[i].0, v[i].1@))
}

/// The lease on one dnsmasq line: expiry, MAC, address, host name, client id. A
/// star stands for no host name.
pub open spec fn dnsmasq_entry(line: Seq<char>) -> Option<(MacAddr, LeaseView)> {
    let f = text::words(line);
    if f.len() < 4 {
        None
    } else {
        match (MacAddr::parsed(f[1]), Ipv4Addr::parsed(f[2])) {
            (Some(mac), Some(ip)) => Some(
                (
                    mac,
                    file_lease(
                        ip,
                        if f[3] == seq!['*'] {
                            None
                        } else {
                            Some(f[3])
                        },
                    ),
                ),
            ),
            _ => None,
        }
    }
}

/// The leases on the lines, those that hold none left out.
pub open spec fn dnsmasq_entries(lines: Seq<Seq<char>>) -> Seq<(MacAddr, LeaseView)>
    decreases lines.len(),
{
    if lines.len() == 0 {
        Seq::empty()
    } else {
        let before = dnsmasq_entries(lines.drop_last());
        match dnsmasq_entry(lines.last()) {
            Some(e) => before.push(e),
            None => before,
        }
    }
}

/// Reads one dnsmasq line.
fn read_dnsmasq_line(line: &Vec<char>) -> (r: Option<(MacAddr, Lease)>)
    ensures
        match dnsmasq_entry(line@) {
            Some((mac, l)) => r matches Some((m, x)) && m == mac && x@ == l,
            None => r is None,
        },
{
    let f: Vec<Vec<char>> = text::split_words(line.as_slice());
    assert(f.len() == text::words(line@).len());
    if f.len() < 4 {
        return None;
    }
    assert(f@[1]@ == text::runs(f@)[1]);
    assert(f@[2]@ == text::runs(f@)[2]);
    assert(f@[3]@ == text::runs(f@)[3]);
    let mac = MacAddr::parse(text::string_of(f[1].as_slice()).as_str());
    let ip = Ipv4Addr::parse(text::string_of(f[2].as_slice()).as_str());
    match (mac, ip) {
        (Some(mac), Some(ip)) => {
            let name: &Vec<char> = &f[3];
            let hostname = if name.len() == 1 && name[0] == '*' {
                assert(name@ =~= seq!['*']);
                None
            } else {
                assert(name@ != seq!['*']) by {
                    if name@ == seq!['*'] {
                        assert(name@.len() == 1 && name@[0] == '*');
                    }
                }
                Some(text::string_of(name.as_slice()))
            };
            Some((mac, Lease { ip, hostname, lease_secs: None, server: None }))
        },
        _ => None,
    }
}

/// Reads a dnsmasq lease file: one lease per line.
pub fn parse_dnsmasq(txt: &str) -> (r: Vec<(MacAddr, Lease)>)
    ensures
        lease_views(r@) == dnsmasq_entries(text::lines(txt@)),
{
    let cs: Vec<char> = text::chars_of(txt);
    let lines: Vec<Vec<char>> = text::split_lines(cs.as_slice());
    let ghost all = text::lines(txt@);
    let mut out: Vec<(MacAddr, Lease)> = Vec::new();
    let mut i: usize = 0;
    assert(all.take(0) =~= Seq::empty());
    while i < lines.len()
        invariant
            i <= lines.len(),
            text::runs(lines@) == all,
            lease_views(out@) == dnsmasq_entries(all.take(i as int)),
        decreases lines.len() - i,
    {
        let ghost before = out@;
        assert(all[i as int] == lines@[i as int]@);
        assert(all.take(i + 1).drop_last() =~= all.take(i as int));
        assert(all.take(i + 1).last() == all[i as int]);
        match read_dnsmasq_line(&lines[i]) {
            Some(e) => {
                out.push(e);
                assert(lease_views(out@) =~= lease_views(before).push((e.0, e.1@)));
            },
            None => {},
        }
        i = i + 1;
    }
    assert(all.take(lines.len() as int) =~= all);
    out
}

/// What is known of the lease block being read, and the leases read so far.
pub struct IscState {
    pub ip: Option<Ipv4Addr>,
    pub mac: Option<MacAddr>,
    pub hostname: Option<Seq<char>>,
    pub leases: Seq<(MacAddr, LeaseView)>,
}

/// One line of an ISC dhcpd lease file. A block opens with `lease` and an
/// address, names a hardware address and maybe a host name, and closes with a
/// brace: only then, with both addresses known, it is a lease.
pub open spec fn isc_line(st: IscState, line: Seq<char>) -> IscState {
    let t = text::trim(line);
    if let Some(rest) = text::after_prefix(t, "lease "@) {
        let w = text::words(rest);
        IscState {
            ip: if w.len() > 0 {
                Ipv4Addr::parsed(w[0])
            } else {
                None
            },
            mac: None,
            hostname: None,
            leases: st.leases,
        }
    } else if let Some(rest) = text::after_prefix(t, "hardware ethernet "@) {
        IscState { mac: MacAddr::parsed(text::trim_end_char(rest, ';')), ..st }
    } else if let Some(rest) = text::after_prefix(t, "client-hostname "@) {
        IscState {
            hostname: Some(
                text::trim_end_char(
                    text::trim_start_char(text::trim_end_char(rest, ';'), '"'),
                    '"',
                ),
            ),
            ..st
        }
    } else if t == seq!['}'] {
        IscState {
            ip: None,
            mac: None,
            hostname: None,
            leases: match (st.ip, st.mac) {
                (Some(ip), Some(mac)) => st.leases.push((mac, file_lease(ip, st.hostname))),
                _ => st.leases,
            },
        }
    } else {
        st
    }
}

/// The state after the lines, read in order from nothing.
pub open spec fn isc_lines(lines: Seq<Seq<char>>) -> IscState
    decreases lines.len(),
{
    if lines.len() == 0 {
        IscState { ip: None, mac: None, hostname: None, leases: Seq::empty() }
    } else {
        isc_line(isc_lines(lines.drop_last()), lines.last())
    }
}

/// Reads an ISC dhcpd lease file: one lease per closed block.
pub fn parse_isc(txt: &str) -> (r: Vec<(MacAddr, Lease)>)
    ensures
        lease_views(r@) == isc_lines(text::lines(txt@)).leases,
{
    let cs: Vec<char> = text::chars_of(txt);
    let lines: Vec<Vec<char>> = text::split_lines(cs.as_slice());
    let ghost all = text::lines(txt@);
    let mut out: Vec<(MacAddr, Lease)> = Vec::new();
    let mut ip: Option<Ipv4Addr> = None;
    let mut mac: Option<MacAddr> = None;
    let mut hostname: Option<String> = None;
    let mut i: usize = 0;
    assert(all.take(0) =~= Seq::empty());
    assert(lease_views(out@) =~= Seq::empty());
    while i < lines.len()
        invariant
            i <= lines.len(),
            text::runs(lines@) == all,
            isc_lines(all.take(i as int)) == (IscState {
                ip,
                mac,
                hostname: text::opt_view(hostname),
                leases: lease_views(out@),
            }),
        decreases lines.len() - i,
    {
        let ghost before = out@;
        assert(all[i as int] == lines@[i as int]@);
        assert(all.take(i + 1).drop_last() =~= all.take(i as int));
        assert(all.take(i + 1).last() == all[i as int]);
        let t: Vec<char> = text::trimmed(lines[i].as_slice());
        if let Some(rest) = text::cut_prefix(t.as_slice(), "lease ") {
            let w: Vec<Vec<char>> = text::split_words(rest.as_slice());
            assert(w.len() == text::words(rest@).len());
            ip =
            if w.len() > 0 {
                assert(w@[0]@ == text::runs(w@)[0]);
                Ipv4Addr::parse(text::string_of(w[0].as_slice()).as_str())
            } else {
                None
            };
            mac = None;
            hostname = None;
        } else if let Some(rest) = text::cut_prefix(t.as_slice(), "hardware ethernet ") {
            let v: Vec<char> = text::cut_end_char(rest.as_slice(), ';');
            mac = MacAddr::parse(text::string_of(v.as_slice()).as_str());
        } else if let Some(rest) = text::cut_prefix(t.as_slice(), "client-hostname ") {
            let v: Vec<char> = text::cut_end_char(rest.as_slice(), ';');
            let v: Vec<char> = text::cut_start_char(v.as_slice(), '"');
            let v: Vec<char> = text::cut_end_char(v.as_slice(), '"');
            hostname = Some(text::string_of(v.as_slice()));
        } else if t.len() == 1 && t[0] == '}' {
            assert(t@ =~= seq!['}']);
            if let (Some(a), Some(m)) = (ip, mac) {
                let lease = Lease { ip: a, hostname, lease_secs: None, server: None };
                out.push((m, lease));
                assert(lease_views(out@) =~= lease_views(before).push((m, lease@)));
            }
            ip = None;
            mac = None;
            hostname = None;
        } else {
            assert(t@ != seq!['}']) by {
                if t@ == seq!['}'] {
                    assert(t@.len() == 1 && t@[0] == '}');
                }
            }
        }
        i = i + 1;
    }
    assert(all.take(lines.len() as int) =~= all);
    out
}

/// The first line that is not blank, if any.
pub open spec fn first_text_line(lines: Seq<Seq<char>>) -> Option<Seq<char>>
    decreases lines.len(),
{
    if lines.len() == 0 {
        None
    } else if text::trim(lines[0]).len() > 0 {
        Some(lines[0])
    } else {
        first_text_line(lines.drop_first())
    }
}

/// Is it a dnsmasq file? Its first line of text has at least four words, the
/// second with a colon in it.
pub open spec fn looks_dnsmasq(lines: Seq<Seq<char>>) -> bool {
    match first_text_line(lines) {
        Some(line) => text::words(line).len() >= 4 && text::words(line)[1].contains(':'),
        None => false,
    }
}

/// The leases that a server's lease file holds, dnsmasq's or ISC dhcpd's.
pub open spec fn leases_in(txt: Seq<char>) -> Seq<(MacAddr, LeaseView)> {
    let lines = text::lines(txt);
    if looks_dnsmasq(lines) {
        dnsmasq_entries(lines)
    } else {
        isc_lines(lines).leases
    }
}

/// Tells a dnsmasq lease file from an ISC one.
fn is_dnsmasq(txt: &str) -> (r: bool)
    ensures
        r == looks_dnsmasq(text::lines(txt@)),
{
    let cs: Vec<char> = text::chars_of(txt);
    let lines: Vec<Vec<char>> = text::split_lines(cs.as_slice());
    let ghost all = text::lines(txt@);
    let mut i: usize = 0;
    assert(all.skip(0) =~= all);
    while i < lines.len()
        invariant
            i <= lines.len(),
            all == text::lines(txt@),
            text::runs(lines@) == all,
            first_text_line(all.skip(i as int)) == first_text_line(all),
        decreases lines.len() - i,
    {
        assert(all[i as int] == lines@[i as int]@);
        assert(all.skip(i as int)[0] == all[i as int]);
        assert(all.skip(i as int).drop_first() =~= all.skip(i + 1));
        if text::trimmed(lines[i].as_slice()).len() > 0 {
            let w: Vec<Vec<char>> = text::split_words(lines[i].as_slice());
            assert(w.len() == text::words(all[i as int]).len());
            if w.len() < 4 {
                return false;
            }
            assert(w@[1]@ == text::runs(w@)[1]);
            return text::has_char(w[1].as_slice(), ':');
        }
        i = i + 1;
    }
    assert(all.skip(lines.len() as int) =~= Seq::empty());
    false
}

/// Reads the text of a DHCP server's lease file (dnsmasq or ISC dhcpd), filling
/// in what sniffing alone would take hours to discover.
pub fn parse_leases_file(txt: &str) -> (r: Vec<(MacAddr, Lease)>)
    ensures
        lease_views(r@) == leases_in(txt@),
{
    if is_dnsmasq(txt) {
        parse_dnsmasq(txt)
    } else {
        parse_isc(txt)
    }
}

/// The padding bytes in front of an option say nothing: with or without them the
/// same options are read.
pub proof fn padding_says_nothing(buf: Seq<u8>, pos: int)
    requires
        0 <= pos < buf.len(),
        buf[pos] == 0,
    ensures
        options_from(buf, pos) == options_from(buf, pos + 1),
{
}

// ---------------------------------------------------------------------
// What holds of every message
// ---------------------------------------------------------------------

/// Every kind of message has its number, and every other number is kept.
pub proof fn kinds_have_numbers(v: u8)
    ensures
        MsgType::of(v) == MsgType::Discover <==> v == 1,
        MsgType::of(v) == MsgType::Offer <==> v == 2,
        MsgType::of(v) == MsgType::Request <==> v == 3,
        MsgType::of(v) == MsgType::Decline <==> v == 4,
        MsgType::of(v) == MsgType::Ack <==> v == 5,
        MsgType::of(v) == MsgType::Nak <==> v == 6,
        MsgType::of(v) == MsgType::Release <==> v == 7,
        MsgType::of(v) == MsgType::Inform <==> v == 8,
        v == 0 || v > 8 ==> MsgType::of(v) == MsgType::Other(v),
{
}

/// An option that was written is read: its code, its length in one byte, its data.
/// What follows it is read next.
pub proof fn a_written_option_is_read(buf: Seq<u8>, pos: int, code: u8, data: Seq<u8>)
    requires
        code != 0,
        code != 255,
        0 <= pos,
        data.len() <= 255,
        pos + 2 + data.len() <= buf.len(),
        buf[pos] == code,
        buf[pos + 1] == data.len(),
        forall|i: int| 0 <= i < data.len() ==> buf[pos + 2 + i] == #[trigger] data[i],
    ensures
        options_from(buf, pos) == seq![(code, data)] + options_from(buf, pos + 2 + data.len()),
{
    assert(next_option(buf, pos) == Some((code, pos + 2, pos + 2 + data.len())));
    assert(buf.subrange(pos + 2, pos + 2 + data.len()) =~= data);
}

/// Nothing is read behind the end mark, behind the last byte, or of an option of which
/// the end is missing.
pub proof fn nothing_is_read_behind_the_end(buf: Seq<u8>, pos: int)
    requires
        0 <= pos,
        pos >= buf.len() || buf[pos] == 255 || (buf[pos] != 0 && (pos + 1 == buf.len() || pos + 2
            + buf[pos + 1] > buf.len())),
    ensures
        options_from(buf, pos) == Seq::<(u8, Seq<u8>)>::empty(),
{
}

/// Of several options with one code the last counts, of those that have the length that
/// is asked for.
pub proof fn the_last_option_counts(
    opts: Seq<(u8, Seq<u8>)>,
    code: u8,
    len: Option<nat>,
    k: int,
)
    requires
        -1 <= k < opts.len(),
        k >= 0 ==> opts[k].0 == code && (len matches Some(n) ==> opts[k].1.len() == n),
        forall|j: int|
            k < j < opts.len() ==> (#[trigger] opts[j]).0 != code || (len matches Some(n)
                && opts[j].1.len() != n),
    ensures
        last_with(opts, code, len) == (if k >= 0 {
            Some(opts[k].1)
        } else {
            None
        }),
    decreases opts.len(),
{
    if opts.len() > 0 && k < opts.len() - 1 {
        let init = opts.drop_last();
        assert(opts[opts.len() - 1] == opts.last());
        assert forall|j: int| k < j < init.len() implies (#[trigger] init[j]).0 != code || (
        len matches Some(n) && init[j].1.len() != n) by {
            assert(init[j] == opts[j]);
        }
        if k >= 0 {
            assert(init[k] == opts[k]);
        }
        the_last_option_counts(init, code, len, k);
    }
}

/// A payload says something exactly where it is long enough, is a request or a reply,
/// and bears the cookie; then the client is the one in the header, and the address given
/// out is the one there, unless it is all zeros.
pub proof fn a_header_is_read(payload: Seq<u8>, frame_mac: MacAddr)
    ensures
        observed(payload, frame_mac) is Some <==> payload.len() >= 240 && (payload[0] == 1
            || payload[0] == 2) && payload[236] == 99 && payload[237] == 130 && payload[238] == 83
            && payload[239] == 99,
        observed(payload, frame_mac) matches Some(o) ==> {
            &&& payload[2] == 6 ==> o.client_mac.octets() == (
                payload[28],
                payload[29],
                payload[30],
                payload[31],
                payload[32],
                payload[33],
            )
            &&& payload[2] != 6 ==> o.client_mac == frame_mac
            &&& o.assigned is None <==> payload[16] == 0 && payload[17] == 0 && payload[18] == 0
                && payload[19] == 0
            &&& o.assigned matches Some(ip) ==> ip.bits == payload[16] * 0x1000000 + payload[17]
                * 0x10000 + payload[18] * 0x100 + payload[19]
        },
{
    if payload.len() >= 240 {
        let c = payload.subrange(236, 240);
        assert(c[0] == payload[236] && c[1] == payload[237] && c[2] == payload[238] && c[3]
            == payload[239]);
        if payload[236] == 99 && payload[237] == 130 && payload[238] == 83 && payload[239] == 99 {
            assert(c =~= seq![99u8, 130u8, 83u8, 99u8]);
        }
    }
}

/// Every option of a message is told: the kind by option 53, the address asked for by
/// option 50, the host name by option 12, the duration by option 51 and the server by
/// option 54. Of each, the last one of the right length counts.
#[verifier::spinoff_prover]
#[verifier::rlimit(30)]
pub proof fn options_are_told(payload: Seq<u8>, frame_mac: MacAddr, k: int)
    requires
        observed(payload, frame_mac) is Some,
        0 <= k < options_from(payload.skip(240), 0).len(),
    ensures
        ({
            let opts = options_from(payload.skip(240), 0);
            let o = observed(payload, frame_mac)->0;
            let d = opts[k].1;
            let last = |c: u8, n: nat|
                opts[k].0 == c && d.len() == n && forall|j: int|
                    k < j < opts.len() ==> (#[trigger] opts[j]).0 != c || opts[j].1.len() != n;
            let number = d[0] * 0x1000000 + d[1] * 0x10000 + d[2] * 0x100 + d[3];
            &&& last(53, 1) ==> o.msg_type == MsgType::of(d[0])
            &&& last(50, 4) ==> (o.requested matches Some(ip) && ip.bits == number)
            &&& last(51, 4) ==> (o.lease_secs matches Some(s) && s == number)
            &&& last(54, 4) ==> (o.server matches Some(ip) && ip.bits == number)
            &&& opts[k].0 == 12 && (forall|j: int| k < j < opts.len() ==> (#[trigger] opts[j]).0 != 12)
                ==> (d.len() == 0 || !vstd::utf8::valid_utf8(d) ==> o.hostname is None) && (
            d.len() > 0 && vstd::utf8::valid_utf8(d) ==> o.hostname == Some(
                vstd::utf8::decode_utf8(d),
            ))
        }),
{
    let opts = options_from(payload.skip(240), 0);
    let d = opts[k].1;
    if opts[k].0 == 53 && d.len() == 1 && forall|j: int|
        k < j < opts.len() ==> (#[trigger] opts[j]).0 != 53 || opts[j].1.len() != 1 {
        the_last_option_counts(opts, 53, Some(1), k);
    }
    if opts[k].0 == 50 && d.len() == 4 && forall|j: int|
        k < j < opts.len() ==> (#[trigger] opts[j]).0 != 50 || opts[j].1.len() != 4 {
        the_last_option_counts(opts, 50, Some(4), k);
    }
    if opts[k].0 == 51 && d.len() == 4 && forall|j: int|
        k < j < opts.len() ==> (#[trigger] opts[j]).0 != 51 || opts[j].1.len() != 4 {
        the_last_option_counts(opts, 51, Some(4), k);
    }
    if opts[k].0 == 54 && d.len() == 4 && forall|j: int|
        k < j < opts.len() ==> (#[trigger] opts[j]).0 != 54 || opts[j].1.len() != 4 {
        the_last_option_counts(opts, 54, Some(4), k);
    }
    if opts[k].0 == 12 && forall|j: int| k < j < opts.len() ==> (#[trigger] opts[j]).0 != 12 {
        the_last_option_counts(opts, 12, None, k);
    }
}

/// What no option of a message gives, is not told.
pub proof fn nothing_else_is_told(payload: Seq<u8>, frame_mac: MacAddr, code: u8)
    requires
        observed(payload, frame_mac) is Some,
        forall|j: int|
            0 <= j < options_from(payload.skip(240), 0).len() ==> (#[trigger] options_from(
                payload.skip(240),
                0,
            )[j]).0 != code,
    ensures
        ({
            let o = observed(payload, frame_mac)->0;
            &&& code == 53 ==> o.msg_type == MsgType::Other(0)
            &&& code == 50 ==> o.requested is None
            &&& code == 51 ==> o.lease_secs is None
            &&& code == 54 ==> o.server is None
            &&& code == 12 ==> o.hostname is None
        }),
{
    let opts = options_from(payload.skip(240), 0);
    if code == 12 {
        the_last_option_counts(opts, code, None, -1);
    } else if code == 53 {
        the_last_option_counts(opts, code, Some(1), -1);
    } else {
        the_last_option_counts(opts, code, Some(4), -1);
    }
}

// ---------------------------------------------------------------------
// What holds of every lease file
// ---------------------------------------------------------------------

/// Reading further lines of an ISC file loses no lease and changes none: those read so
/// far stay in front.
pub proof fn further_lines_lose_no_lease(a: Seq<Seq<char>>, b: Seq<Seq<char>>)
    ensures
        isc_lines(a + b).leases.len() >= isc_lines(a).leases.len(),
        isc_lines(a + b).leases.take(isc_lines(a).leases.len() as int) == isc_lines(a).leases,
    decreases b.len(),
{
    let n = isc_lines(a).leases.len() as int;
    if b.len() == 0 {
        assert(a + b =~= a);
        assert(isc_lines(a).leases.take(n) =~= isc_lines(a).leases);
    } else {
        further_lines_lose_no_lease(a, b.drop_last());
        assert((a + b).drop_last() =~= a + b.drop_last());
        assert((a + b).last() == b.last());
        let before = isc_lines(a + b.drop_last()).leases;
        assert(isc_lines(a + b).leases.take(n) =~= before.take(n));
    }
}

/// Does the line open a block?
pub open spec fn opens(line: Seq<char>) -> bool {
    text::starts_with(text::trim(line), "lease "@)
}

/// Does the line name a device?
pub open spec fn names_device(line: Seq<char>) -> bool {
    text::starts_with(text::trim(line), "hardware ethernet "@)
}

/// Does the line name a host?
pub open spec fn names_host(line: Seq<char>) -> bool {
    text::starts_with(text::trim(line), "client-hostname "@)
}

/// Does the line close a block?
pub open spec fn closes(line: Seq<char>) -> bool {
    text::trim(line) == seq!['}']
}

/// A line does one of these things at most.
proof fn lemma_one_thing(line: Seq<char>)
    ensures
        opens(line) ==> !names_device(line) && !names_host(line) && !closes(line),
        names_device(line) ==> !names_host(line) && !closes(line),
        names_host(line) ==> !closes(line),
{
    reveal_strlit("lease ");
    reveal_strlit("hardware ethernet ");
    reveal_strlit("client-hostname ");
    let t = text::trim(line);
    if opens(line) {
        assert(t.take(6)[0] == 'l');
        assert(t.len() >= 6);
    }
    if names_device(line) {
        assert(t.take(18)[0] == 'h');
        assert(t.len() >= 18);
    }
    if names_host(line) {
        assert(t.take(16)[0] == 'c');
        assert(t.len() >= 16);
    }
    if closes(line) {
        assert(t.len() == 1);
    }
}

/// A line that closes a block with both addresses known adds exactly one lease, with
/// both, behind those read before; every other line adds none.
pub proof fn a_closed_block_is_one_lease(lines: Seq<Seq<char>>, line: Seq<char>)
    ensures
        ({
            let st = isc_lines(lines);
            let next = isc_lines(lines.push(line));
            &&& closes(line) && st.ip is Some && st.mac is Some ==> {
                &&& next.leases.len() == st.leases.len() + 1
                &&& next.leases.drop_last() == st.leases
                &&& next.leases.last().0 == st.mac->0
                &&& next.leases.last().1.ip == st.ip->0
                &&& next.leases.last().1.hostname == st.hostname
                &&& next.leases.last().1.lease_secs is None
                &&& next.leases.last().1.server is None
            }
            &&& !(closes(line) && st.ip is Some && st.mac is Some) ==> next.leases == st.leases
        }),
{
    lemma_one_thing(line);
    assert(lines.push(line).drop_last() =~= lines);
    assert(lines.push(line).last() == line);
    let st = isc_lines(lines);
    let next = isc_lines(lines.push(line));
    if closes(line) && st.ip is Some && st.mac is Some {
        assert(next.leases.drop_last() =~= st.leases);
    }
}

/// How many lines close a block that has named both addresses.
pub open spec fn closed_blocks(lines: Seq<Seq<char>>) -> nat
    decreases lines.len(),
{
    if lines.len() == 0 {
        0
    } else {
        let st = isc_lines(lines.drop_last());
        closed_blocks(lines.drop_last()) + if closes(lines.last()) && st.ip is Some && st.mac is Some {
            1nat
        } else {
            0nat
        }
    }
}

/// There are as many leases as blocks that were closed with both addresses known.
pub proof fn as_many_leases_as_closed_blocks(lines: Seq<Seq<char>>)
    ensures
        isc_lines(lines).leases.len() == closed_blocks(lines),
    decreases lines.len(),
{
    if lines.len() > 0 {
        as_many_leases_as_closed_blocks(lines.drop_last());
        a_closed_block_is_one_lease(lines.drop_last(), lines.last());
        assert(lines.drop_last().push(lines.last()) =~= lines);
    }
}

/// What is known inside a block: its address from the line that opened it, the device
/// and the host from the last line that named one since. Outside a block nothing is.
#[verifier::spinoff_prover]
#[verifier::rlimit(30)]
pub proof fn a_block_speaks_for_itself(lines: Seq<Seq<char>>, j: int)
    requires
        0 <= j < lines.len(),
    ensures
        ({
            let st = isc_lines(lines);
            let t = text::trim(lines[j]);
            let same_block = forall|k: int|
                j < k < lines.len() ==> !opens(#[trigger] lines[k]) && !closes(lines[k]);
            let no_other_device = forall|k: int| j < k < lines.len() ==> !names_device(#[trigger] lines[k]);
            let no_other_host = forall|k: int| j < k < lines.len() ==> !names_host(#[trigger] lines[k]);
            same_block ==> {
                &&& opens(lines[j]) ==> {
                    let w = text::words(t.skip(6));
                    st.ip == (if w.len() > 0 {
                        Ipv4Addr::parsed(w[0])
                    } else {
                        None
                    })
                }
                &&& closes(lines[j]) ==> st.ip is None
                &&& no_other_device && names_device(lines[j]) ==> st.mac == MacAddr::parsed(
                    text::trim_end_char(t.skip(18), ';'),
                )
                &&& no_other_device && (opens(lines[j]) || closes(lines[j])) ==> st.mac is None
                &&& no_other_host && names_host(lines[j]) ==> st.hostname is Some
                &&& no_other_host && (opens(lines[j]) || closes(lines[j])) ==> st.hostname is None
            }
        }),
    decreases lines.len(),
{
    let init = lines.drop_last();
    reveal_strlit("lease ");
    reveal_strlit("hardware ethernet ");
    lemma_one_thing(lines.last());
    if j < lines.len() - 1 {
        a_block_speaks_for_itself(init, j);
        assert(init[j] == lines[j]);
        assert(lines[lines.len() - 1] == lines.last());
        if forall|k: int| j < k < lines.len() ==> !opens(#[trigger] lines[k]) && !closes(lines[k]) {
            assert forall|k: int| j < k < init.len() implies !opens(#[trigger] init[k]) && !closes(
                init[k],
            ) by {
                assert(init[k] == lines[k]);
            }
        }
        if forall|k: int| j < k < lines.len() ==> !names_device(#[trigger] lines[k]) {
            assert forall|k: int| j < k < init.len() implies !names_device(#[trigger] init[k]) by {
                assert(init[k] == lines[k]);
            }
        }
        if forall|k: int| j < k < lines.len() ==> !names_host(#[trigger] lines[k]) {
            assert forall|k: int| j < k < init.len() implies !names_host(#[trigger] init[k]) by {
                assert(init[k] == lines[k]);
            }
        }
    }
}

/// What stands between white space on a line, behind the start that says what it is.
proof fn lemma_said_on(lead: Seq<char>, p: Seq<char>, rest: Seq<char>)
    requires
        text::blank(lead),
        p.len() > 0,
        rest.len() > 0,
        !text::is_white(p[0]),
        !text::is_white(rest.last()),
    ensures
        text::trim(lead + p + rest) == p + rest,
        text::starts_with(text::trim(lead + p + rest), p),
        (p + rest).skip(p.len() as int) == rest,
        text::after_prefix(text::trim(lead + p + rest), p) == Some(rest),
{
    assert(lead + p + rest =~= lead + (p + rest) + Seq::empty());
    text::trimming_cuts_only_white_space(lead, p + rest, Seq::empty());
    text::a_start_is_cut_off(p + rest, p, rest);
    assert((p + rest).skip(p.len() as int) =~= rest);
    assert((p + rest).take(p.len() as int) =~= p);
}

/// A block that was written is read: the address behind `lease`, the device behind
/// `hardware ethernet`, the host between quotes, whatever white space stands in front
/// of each.
#[verifier::spinoff_prover]
#[verifier::rlimit(30)]
pub proof fn a_written_block_is_read(
    before: Seq<Seq<char>>,
    lead: Seq<char>,
    ip: Ipv4Addr,
    mac: MacAddr,
    host: Seq<char>,
)
    requires
        text::blank(lead),
        host.len() > 0,
        host[0] != '"',
        host.last() != '"',
    ensures
        ({
            let opening = lead + "lease "@ + (ip.text() + seq![' ', '{']);
            let device = lead + "hardware ethernet "@ + (mac.text() + seq![';']);
            let name = lead + "client-hostname "@ + (seq!['"'] + host + seq!['"', ';']);
            let closing = lead + seq!['}'];
            let leases = isc_lines(before).leases;
            &&& isc_lines(before + seq![opening, device, closing]).leases == leases.push(
                (mac, LeaseView { ip, hostname: None, lease_secs: None, server: None }),
            )
            &&& isc_lines(before + seq![opening, device, name, closing]).leases == leases.push(
                (mac, LeaseView { ip, hostname: Some(host), lease_secs: None, server: None }),
            )
        }),
{
    reveal_strlit("lease ");
    reveal_strlit("hardware ethernet ");
    reveal_strlit("client-hostname ");
    let opening = lead + "lease "@ + (ip.text() + seq![' ', '{']);
    let device = lead + "hardware ethernet "@ + (mac.text() + seq![';']);
    let name = lead + "client-hostname "@ + (seq!['"'] + host + seq!['"', ';']);
    let closing = lead + seq!['}'];
    lemma_said_on(lead, "lease "@, ip.text() + seq![' ', '{']);
    lemma_said_on(lead, "hardware ethernet "@, mac.text() + seq![';']);
    lemma_said_on(lead, "client-hostname "@, seq!['"'] + host + seq!['"', ';']);
    assert(closing =~= lead + seq!['}'] + Seq::empty());
    text::trimming_cuts_only_white_space(lead, seq!['}'], Seq::empty());
    lemma_one_thing(opening);
    lemma_one_thing(device);
    lemma_one_thing(name);
    lemma_one_thing(closing);
    crate::addr::the_dotted_form_is_digits_and_periods(ip);
    crate::addr::ipv4_reads_back(ip);
    assert(forall|i: int| 0 <= i < ip.text().len() ==> !text::is_white(#[trigger] ip.text()[i]));
    text::one_word(ip.text());
    text::one_word(seq!['{']);
    text::white_space_parts_words(ip.text(), ' ', seq!['{']);
    assert(ip.text() + seq![' '] + seq!['{'] =~= ip.text() + seq![' ', '{']);
    assert(text::words(ip.text() + seq![' ', '{'])[0] == ip.text());
    crate::addr::the_colon_form_is_digits_and_colons(mac);
    crate::addr::mac_text_reads_back(mac);
    assert(mac.text().last() == mac.text()[16]);
    text::ends_are_cut_off(mac.text(), ';', 1);
    assert(text::repeated(';', 1) =~= seq![';']);
    let quoted = seq!['"'] + host + seq!['"'];
    text::ends_are_cut_off(quoted, ';', 1);
    assert(quoted + seq![';'] =~= seq!['"'] + host + seq!['"', ';']);
    text::starts_are_cut_off(host + seq!['"'], '"', 1);
    assert(text::repeated('"', 1) =~= seq!['"']);
    assert(seq!['"'] + (host + seq!['"']) =~= quoted);
    text::ends_are_cut_off(host, '"', 1);
    let s1 = before.push(opening);
    let s2 = s1.push(device);
    let s3 = s2.push(name);
    assert(s1.drop_last() =~= before && s2.drop_last() =~= s1 && s3.drop_last() =~= s2);
    assert(s2.push(closing).drop_last() =~= s2 && s3.push(closing).drop_last() =~= s3);
    assert(before + seq![opening, device, closing] =~= s2.push(closing));
    assert(before + seq![opening, device, name, closing] =~= s3.push(closing));
    let a = isc_lines(s1);
    assert(a == isc_line(isc_lines(before), opening));
    assert(a.ip == Some(ip) && a.mac is None && a.hostname is None);
    let b = isc_lines(s2);
    assert(b == isc_line(a, device));
    assert(b.ip == Some(ip) && b.mac == Some(mac) && b.hostname is None);
    let c = isc_lines(s3);
    assert(c == isc_line(b, name));
    assert(c.ip == Some(ip) && c.mac == Some(mac) && c.hostname == Some(host));
    assert(isc_lines(s2.push(closing)) == isc_line(b, closing));
    assert(isc_lines(s3.push(closing)) == isc_line(c, closing));
}

/// The leases of a dnsmasq file are those of its lines, one after the other: what two
/// parts of it hold, the whole holds.
pub proof fn lines_are_read_one_by_one(a: Seq<Seq<char>>, b: Seq<Seq<char>>)
    ensures
        dnsmasq_entries(a + b) == dnsmasq_entries(a) + dnsmasq_entries(b),
    decreases b.len(),
{
    if b.len() == 0 {
        assert(a + b =~= a);
        assert(dnsmasq_entries(a) + dnsmasq_entries(b) =~= dnsmasq_entries(a));
    } else {
        lines_are_read_one_by_one(a, b.drop_last());
        assert((a + b).drop_last() =~= a + b.drop_last());
        assert((a + b).last() == b.last());
        assert(dnsmasq_entries(a + b) =~= dnsmasq_entries(a) + dnsmasq_entries(b));
    }
}

proof fn lemma_four_words(a: Seq<char>, b: Seq<char>, c: Seq<char>, d: Seq<char>, rest: Seq<char>)
    requires
        text::is_word(a),
        text::is_word(b),
        text::is_word(c),
        text::is_word(d),
    ensures
        ({
            let s = a + seq![' '] + (b + seq![' '] + (c + seq![' '] + (d + seq![' '] + rest)));
            text::words(s) == seq![a, b, c, d] + text::words(rest)
        }),
{
    let s3 = d + seq![' '] + rest;
    let s2 = c + seq![' '] + s3;
    let s1 = b + seq![' '] + s2;
    text::white_space_parts_words(d, ' ', rest);
    text::white_space_parts_words(c, ' ', s3);
    text::white_space_parts_words(b, ' ', s2);
    text::white_space_parts_words(a, ' ', s1);
    text::one_word(a);
    text::one_word(b);
    text::one_word(c);
    text::one_word(d);
    assert(text::words(a + seq![' '] + s1) =~= seq![a, b, c, d] + text::words(rest));
}

/// A dnsmasq line that was written is read: behind the time of expiry the device, its
/// address and its name, a star standing for none, whatever follows.
pub proof fn a_written_line_is_read(
    expiry: Seq<char>,
    mac: MacAddr,
    ip: Ipv4Addr,
    name: Seq<char>,
    rest: Seq<char>,
)
    requires
        text::is_word(expiry),
        text::is_word(name),
    ensures
        ({
            let line = expiry + seq![' '] + (mac.text() + seq![' '] + (ip.text() + seq![' '] + (name
                + seq![' '] + rest)));
            &&& dnsmasq_entries(seq![line]) == seq![
                (
                    mac,
                    LeaseView {
                        ip,
                        hostname: if name == seq!['*'] {
                            None
                        } else {
                            Some(name)
                        },
                        lease_secs: None,
                        server: None,
                    },
                ),
            ]
            &&& looks_dnsmasq(seq![line])
        }),
{
    let line = expiry + seq![' '] + (mac.text() + seq![' '] + (ip.text() + seq![' '] + (name + seq![' ']
        + rest)));
    crate::addr::the_dotted_form_is_digits_and_periods(ip);
    crate::addr::ipv4_reads_back(ip);
    crate::addr::the_colon_form_is_digits_and_colons(mac);
    crate::addr::mac_text_reads_back(mac);
    assert(mac.text()[2] == ':');
    assert(mac.text().contains(':'));
    lemma_four_words(expiry, mac.text(), ip.text(), name, rest);
    let f = text::words(line);
    assert(f[1] == mac.text() && f[2] == ip.text() && f[3] == name);
    assert(seq![line].drop_last() =~= Seq::empty());
    assert(dnsmasq_entries(Seq::empty()) =~= Seq::empty());
    assert(dnsmasq_entries(seq![line]) =~= seq![dnsmasq_entry(line)->0]);
    lemma_text_is_seen(line, 0);
}

/// What holds a character that is no white space is not trimmed away.
proof fn lemma_text_is_seen(s: Seq<char>, i: int)
    requires
        0 <= i < s.len(),
        !text::is_white(s[i]),
    ensures
        text::trim(s).len() > 0,
    decreases s.len(),
{
    if text::is_white(s[0]) {
        assert(s.drop_first()[i - 1] == s[i]);
        lemma_text_is_seen(s.drop_first(), i - 1);
    } else {
        lemma_start_is_seen(s);
    }
}

proof fn lemma_start_is_seen(s: Seq<char>)
    requires
        s.len() > 0,
        !text::is_white(s[0]),
    ensures
        text::trim_end(s).len() > 0,
    decreases s.len(),
{
    if text::is_white(s.last()) {
        assert(s.drop_last()[0] == s[0]);
        lemma_start_is_seen(s.drop_last());
    }
}

/// The first line with any text on it tells the format, whatever follows it and however
/// many blank lines stand in front: dnsmasq's where it has at least four words, the
/// second of them with a colon.
pub proof fn the_first_line_tells_the_format(before: Seq<Seq<char>>, line: Seq<char>, after: Seq<Seq<char>>)
    requires
        forall|k: int| 0 <= k < before.len() ==> text::trim(#[trigger] before[k]).len() == 0,
        text::trim(line).len() > 0,
    ensures
        looks_dnsmasq(before + seq![line] + after) <==> text::words(line).len() >= 4 && exists|i: int|
            0 <= i < text::words(line)[1].len() && text::words(line)[1][i] == ':',
        !looks_dnsmasq(before),
    decreases before.len(),
{
    let all = before + seq![line] + after;
    if before.len() > 0 {
        let rest = before.drop_first();
        assert(all[0] == before[0]);
        assert(all.drop_first() =~= rest + seq![line] + after);
        assert forall|k: int| 0 <= k < rest.len() implies text::trim(#[trigger] rest[k]).len() == 0 by {
            assert(rest[k] == before[k + 1]);
        }
        the_first_line_tells_the_format(rest, line, after);
        assert(first_text_line(all) == first_text_line(rest + seq![line] + after));
        assert(first_text_line(before) == first_text_line(rest));
    } else {
        assert(all[0] == line);
        let w = text::words(line);
        if w.len() >= 4 && exists|i: int| 0 <= i < w[1].len() && w[1][i] == ':' {
            assert(w[1].contains(':'));
        }
    }
}

/// A lease file is read in the one format or the other.
pub proof fn a_lease_file_has_one_format(txt: Seq<char>)
    ensures
        looks_dnsmasq(text::lines(txt)) ==> leases_in(txt) == dnsmasq_entries(text::lines(txt)),
        !looks_dnsmasq(text::lines(txt)) ==> leases_in(txt) == isc_lines(text::lines(txt)).leases,
{
}

} // verus!
