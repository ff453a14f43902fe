//! Who does not fit: flags and findings drawn from an inventory.
use crate::addr::{self, Ipv4Addr, Ipv6Addr, MacAddr};
use crate::capture::Source;
use crate::dhcp::{Lease, LeaseView};
use crate::inventory::{self, Host, HostView, Inventory, InventoryView};
use crate::net::{self, Ipv4Net};
use crate::ordered;
use crate::oui::{self, OuiDb};
use crate::text;
use vstd::prelude::*;

verus! {

broadcast use vstd::seq::group_seq_axioms;

/// How bad a finding is.
#[derive(Debug, Clone, Copy, PartialEq, Eq, Structural)]
pub enum Severity {
    Info,
    High,
    Critical,
}

impl Severity {
    /// The worse, the higher.
    pub open spec fn rank(self) -> nat {
        match self {
            Severity::Info => 0,
            Severity::High => 1,
            Severity::Critical => 2,
        }
    }

    /// The worse, the higher.
    pub fn level(self) -> (r: u8)
        ensures
            r == self.rank(),
    {
        match self {
            Severity::Info => 0,
            Severity::High => 1,
            Severity::Critical => 2,
        }
    }

    /// The name a report gives it.
    pub open spec fn name(self) -> Seq<char> {
        match self {
            Severity::Info => "Info"@,
            Severity::High => "High"@,
            Severity::Critical => "Critical"@,
        }
    }

    /// The name a report gives it.
    pub fn label(self) -> (r: &'static str)
        ensures
            r@ == self.name(),
    {
        match self {
            Severity::Info => "Info",
            Severity::High => "High",
            Severity::Critical => "Critical",
        }
    }
}

/// Something about a device that does not fit.
#[derive(Debug)]
pub enum Flag {
    /// What we are hunting for: an IP outside every legitimate subnet.
    OutsideSubnet { ips: Vec<Ipv4Addr> },
    /// Present at L2 (answered IPv6 or emitted frames) with no known IPv4.
    L2Only,
    /// Alive on the network with no DHCP lease observed for it.
    NoLease,
    /// DHCP handed out one address and the device uses another.
    LeaseMismatch { lease: Ipv4Addr, in_use: Vec<Ipv4Addr> },
    /// Two distinct MACs claiming the same IPv4.
    DuplicateIp { ip: Ipv4Addr, others: Vec<String> },
    /// DHCP failed and the device fell back to 169.254/16.
    Apipa { ip: Ipv4Addr },
    /// Lease on record, but the MAC no longer shows up on the network.
    OrphanLease { ip: Ipv4Addr },
}

/// A [`Flag`] with its lists as sequences and its text as characters.
#[verifier::ext_equal]
pub enum FlagView {
    OutsideSubnet { ips: Seq<Ipv4Addr> },
    L2Only,
    NoLease,
    LeaseMismatch { lease: Ipv4Addr, in_use: Seq<Ipv4Addr> },
    DuplicateIp { ip: Ipv4Addr, others: Seq<Seq<char>> },
    Apipa { ip: Ipv4Addr },
    OrphanLease { ip: Ipv4Addr },
}

impl View for Flag {
    type V = FlagView;

    open spec fn view(&self) -> FlagView {
        match self {
            Flag::OutsideSubnet { ips } => FlagView::OutsideSubnet { ips: ips@ },
            Flag::L2Only => FlagView::L2Only,
            Flag::NoLease => FlagView::NoLease,
            Flag::LeaseMismatch { lease, in_use } => FlagView::LeaseMismatch {
                lease: *lease,
                in_use: in_use@,
            },
            Flag::DuplicateIp { ip, others } => FlagView::DuplicateIp {
                ip: *ip,
                others: text::views(others@),
            },
            Flag::Apipa { ip } => FlagView::Apipa { ip: *ip },
            Flag::OrphanLease { ip } => FlagView::OrphanLease { ip: *ip },
        }
    }
}

/// What a list of flags says.
pub open spec fn flag_views(v: Seq<Flag>) -> Seq<FlagView> {
    Seq::new(v.len(), |i: int| v[i]@)
}

/// The dotted forms of addresses.
pub open spec fn ipv4_texts(v: Seq<Ipv4Addr>) -> Seq<Seq<char>> {
    Seq::new(v.len(), |i: int| v[i].text())
}

/// The written forms of addresses.
pub open spec fn ipv6_texts(v: Seq<Ipv6Addr>) -> Seq<Seq<char>> {
    Seq::new(v.len(), |i: int| v[i].text())
}

/// The names of sources.
pub open spec fn source_names(v: Seq<Source>) -> Seq<Seq<char>> {
    Seq::new(v.len(), |i: int| v[i].name())
}

/// The colon forms of hardware addresses.
pub open spec fn mac_texts(v: Seq<MacAddr>) -> Seq<Seq<char>> {
    Seq::new(v.len(), |i: int| v[i].text())
}

fn ipv4_strings(v: &Vec<Ipv4Addr>) -> (r: Vec<String>)
    ensures
        text::views(r@) == ipv4_texts(v@),
{
    let mut out: Vec<String> = Vec::new();
    let mut i: usize = 0;
    while i < v.len()
        invariant
            i <= v.len(),
            text::views(out@) == ipv4_texts(v@.take(i as int)),
        decreases v.len() - i,
    {
        let ghost before = out@;
        out.push(v[i].to_string());
        assert(text::views(out@) =~= text::views(before).push(v@[i as int].text()));
        assert(ipv4_texts(v@.take(i + 1)) =~= ipv4_texts(v@.take(i as int)).push(v@[i as int].text()));
        i = i + 1;
    }
    assert(v@.take(v.len() as int) =~= v@);
    out
}

fn ipv6_strings(v: &Vec<Ipv6Addr>) -> (r: Vec<String>)
    ensures
        text::views(r@) == ipv6_texts(v@),
{
    let mut out: Vec<String> = Vec::new();
    let mut i: usize = 0;
    while i < v.len()
        invariant
            i <= v.len(),
            text::views(out@) == ipv6_texts(v@.take(i as int)),
        decreases v.len() - i,
    {
        let ghost before = out@;
        out.push(v[i].to_string());
        assert(text::views(out@) =~= text::views(before).push(v@[i as int].text()));
        assert(ipv6_texts(v@.take(i + 1)) =~= ipv6_texts(v@.take(i as int)).push(v@[i as int].text()));
        i = i + 1;
    }
    assert(v@.take(v.len() as int) =~= v@);
    out
}

fn source_strings(v: &Vec<Source>) -> (r: Vec<String>)
    ensures
        text::views(r@) == source_names(v@),
{
    let mut out: Vec<String> = Vec::new();
    let mut i: usize = 0;
    while i < v.len()
        invariant
            i <= v.len(),
            text::views(out@) == source_names(v@.take(i as int)),
        decreases v.len() - i,
    {
        let ghost before = out@;
        out.push(v[i].label().to_owned());
        assert(text::views(out@) =~= text::views(before).push(v@[i as int].name()));
        assert(source_names(v@.take(i + 1)) =~= source_names(v@.take(i as int)).push(
            v@[i as int].name(),
        ));
        i = i + 1;
    }
    assert(v@.take(v.len() as int) =~= v@);
    out
}

impl FlagView {
    /// The name a report gives it.
    pub open spec fn name(self) -> Seq<char> {
        match self {
            FlagView::OutsideSubnet { .. } => "OUTSIDE_SUBNET"@,
            FlagView::L2Only => "L2_ONLY"@,
            FlagView::NoLease => "NO_LEASE"@,
            FlagView::LeaseMismatch { .. } => "LEASE_MISMATCH"@,
            FlagView::DuplicateIp { .. } => "DUPLICATE_IP"@,
            FlagView::Apipa { .. } => "APIPA"@,
            FlagView::OrphanLease { .. } => "ORPHAN_LEASE"@,
        }
    }

    /// How bad it is.
    pub open spec fn weight(self) -> Severity {
        match self {
            FlagView::OutsideSubnet { .. } | FlagView::L2Only => Severity::Critical,
            FlagView::OrphanLease { .. } => Severity::Info,
            _ => Severity::High,
        }
    }

    /// What it means, in a sentence.
    pub open spec fn meaning(self) -> Seq<char> {
        match self {
            FlagView::OutsideSubnet { ips } => "uses "@ + text::join(ipv4_texts(ips), ", "@)
                + " — outside every expected subnet; static IP set on the device itself"@,
            FlagView::L2Only => "answers on the link but never revealed an IPv4 — likely a silent static address; raise --passive-secs or widen --scope"@,
            FlagView::NoLease => "no DHCPACK observed for this MAC — it never took an address from the server"@,
            FlagView::LeaseMismatch { lease, in_use } => "DHCP handed out "@ + lease.text()
                + " but the device uses "@ + text::join(ipv4_texts(in_use), ", "@),
            FlagView::DuplicateIp { ip, others } => ip.text() + " is also claimed by "@ + text::join(
                others,
                ", "@,
            ),
            FlagView::Apipa { ip } => "fell back to "@ + ip.text()
                + " (APIPA): asked for DHCP and got no answer"@,
            FlagView::OrphanLease { ip } => "lease for "@ + ip.text()
                + " on record, but the MAC no longer answers"@,
        }
    }
}

impl Flag {
    /// The name a report gives it.
    pub fn code(&self) -> (r: &'static str)
        ensures
            r@ == self@.name(),
    {
        match self {
            Flag::OutsideSubnet { .. } => "OUTSIDE_SUBNET",
            Flag::L2Only => "L2_ONLY",
            Flag::NoLease => "NO_LEASE",
            Flag::LeaseMismatch { .. } => "LEASE_MISMATCH",
            Flag::DuplicateIp { .. } => "DUPLICATE_IP",
            Flag::Apipa { .. } => "APIPA",
            Flag::OrphanLease { .. } => "ORPHAN_LEASE",
        }
    }

    /// How bad it is.
    pub fn severity(&self) -> (r: Severity)
        ensures
            r == self@.weight(),
    {
        match self {
            Flag::OutsideSubnet { .. } => Severity::Critical,
            Flag::L2Only => Severity::Critical,
            Flag::NoLease => Severity::High,
            Flag::LeaseMismatch { .. } => Severity::High,
            Flag::DuplicateIp { .. } => Severity::High,
            Flag::Apipa { .. } => Severity::High,
            Flag::OrphanLease { .. } => Severity::Info,
        }
    }

    /// What it means, in a sentence.
    pub fn explain(&self) -> (r: String)
        ensures
            r@ == self@.meaning(),
    {
        let mut s = String::new();
        match self {
            Flag::OutsideSubnet { ips } => {
                s.append("uses ");
                s.append(join(ips).as_str());
                s.append(" — outside every expected subnet; static IP set on the device itself");
            },
            Flag::L2Only => {
                s.append(
                    "answers on the link but never revealed an IPv4 — likely a silent static address; raise --passive-secs or widen --scope",
                );
            },
            Flag::NoLease => {
                s.append(
                    "no DHCPACK observed for this MAC — it never took an address from the server",
                );
            },
            Flag::LeaseMismatch { lease, in_use } => {
                s.append("DHCP handed out ");
                s.append(lease.to_string().as_str());
                s.append(" but the device uses ");
                s.append(join(in_use).as_str());
            },
            Flag::DuplicateIp { ip, others } => {
                s.append(ip.to_string().as_str());
                s.append(" is also claimed by ");
                s.append(text::join_strings(others, ", ").as_str());
            },
            Flag::Apipa { ip } => {
                s.append("fell back to ");
                s.append(ip.to_string().as_str());
                s.append(" (APIPA): asked for DHCP and got no answer");
            },
            Flag::OrphanLease { ip } => {
                s.append("lease for ");
                s.append(ip.to_string().as_str());
                s.append(" on record, but the MAC no longer answers");
            },
        }
        s
    }
}

impl Clone for Flag {
    fn clone(&self) -> (r: Flag)
        ensures
            r@ == self@,
    {
        match self {
            Flag::OutsideSubnet { ips } => Flag::OutsideSubnet { ips: copy_ips(ips) },
            Flag::L2Only => Flag::L2Only,
            Flag::NoLease => Flag::NoLease,
            Flag::LeaseMismatch { lease, in_use } => Flag::LeaseMismatch {
                lease: *lease,
                in_use: copy_ips(in_use),
            },
            Flag::DuplicateIp { ip, others } => Flag::DuplicateIp {
                ip: *ip,
                others: text::clone_strings(others),
            },
            Flag::Apipa { ip } => Flag::Apipa { ip: *ip },
            Flag::OrphanLease { ip } => Flag::OrphanLease { ip: *ip },
        }
    }
}

fn copy_ips(v: &Vec<Ipv4Addr>) -> (r: Vec<Ipv4Addr>)
    ensures
        r@ == v@,
{
    let mut out: Vec<Ipv4Addr> = Vec::new();
    let mut i: usize = 0;
    while i < v.len()
        invariant
            i <= v.len(),
            out@ == v@.take(i as int),
        decreases v.len() - i,
    {
        out.push(v[i]);
        i = i + 1;
    }
    out
}

fn join(ips: &Vec<Ipv4Addr>) -> (r: String)
    ensures
        r@ == text::join(ipv4_texts(ips@), ", "@),
{
    let v: Vec<String> = ipv4_strings(ips);
    text::join_strings(&v, ", ")
}

// ---------------------------------------------------------------------
// Flags of one device
// ---------------------------------------------------------------------

/// Private space (RFC 1918) plus CGNAT (RFC 6598, 100.64/10). Anything outside
/// that, seen on a local MAC, is routed traffic rather than the device's own
/// address.
pub open spec fn private(ip: Ipv4Addr) -> bool {
    ip.rfc1918() || (ip.octet(0) == 100 && 64 <= ip.octet(1) < 128)
}

/// Is the address in private space?
pub fn is_private(ip: &Ipv4Addr) -> (r: bool)
    ensures
        r == private(*ip),
{
    let o: [u8; 4] = ip.octets();
    ip.is_private() || (o[0] == 100 && 64 <= o[1] && o[1] < 128)
}

/// The device's addresses that are not 169.254/16.
pub open spec fn routable(h: HostView) -> Seq<Ipv4Addr> {
    h.identity().filter(|ip: Ipv4Addr| !inventory::apipa(ip))
}

/// The device's addresses in 169.254/16.
pub open spec fn fallback(h: HostView) -> Seq<Ipv4Addr> {
    h.identity().filter(|ip: Ipv4Addr| inventory::apipa(ip))
}

/// The device's addresses outside every expected subnet. That only makes sense of
/// a private address: a public one seen on a local MAC is not the device's own,
/// it is traffic crossing the gateway.
pub open spec fn foreign(h: HostView, expected: Seq<Ipv4Net>) -> Seq<Ipv4Addr> {
    routable(h).filter(|ip: Ipv4Addr| private(ip) && !net::in_any(expected, ip))
}

/// The device's addresses other than the leased one.
pub open spec fn unleased(h: HostView, lease: LeaseView) -> Seq<Ipv4Addr> {
    routable(h).filter(|ip: Ipv4Addr| ip != lease.ip)
}

/// Did the device show signs of life of its own?
pub open spec fn alive(h: HostView) -> bool {
    exists|i: int|
        0 <= i < h.sources.len() && (#[trigger] h.sources[i] == Source::ArpReply || h.sources[i]
            == Source::Ndp || h.sources[i] == Source::Ipv4Source || h.sources[i]
            == Source::Gratuitous)
}

/// The devices that own an address, in order. Routed addresses do not count: two
/// routers forwarding the same address is no conflict.
pub open spec fn owners(hosts: Seq<HostView>, ip: Ipv4Addr) -> Seq<MacAddr>
    decreases hosts.len(),
{
    if hosts.len() == 0 {
        Seq::empty()
    } else {
        let before = owners(hosts.drop_last(), ip);
        if hosts.last().owned.contains(ip) {
            before.push(hosts.last().mac)
        } else {
            before
        }
    }
}

/// Every hardware address but the given one.
pub open spec fn but(mac: MacAddr) -> spec_fn(MacAddr) -> bool {
    |m: MacAddr| m != mac
}

/// The devices that claim an address which several own; none where it has a single
/// owner or no owner at all.
pub open spec fn claimants(hosts: Seq<HostView>, ip: Ipv4Addr) -> Seq<MacAddr> {
    if owners(hosts, ip).len() > 1 {
        owners(hosts, ip)
    } else {
        Seq::empty()
    }
}

/// The other devices that claim an address which several own.
pub open spec fn rivals(hosts: Seq<HostView>, mac: MacAddr, ip: Ipv4Addr) -> Seq<MacAddr> {
    claimants(hosts, ip).filter(but(mac))
}

/// One flag for each of the addresses that another device claims too.
pub open spec fn conflicts(
    hosts: Seq<HostView>,
    mac: MacAddr,
    ips: Seq<Ipv4Addr>,
) -> Seq<FlagView>
    decreases ips.len(),
{
    if ips.len() == 0 {
        Seq::empty()
    } else {
        let before = conflicts(hosts, mac, ips.drop_last());
        let others = rivals(hosts, mac, ips.last());
        if others.len() > 0 {
            before.push(FlagView::DuplicateIp { ip: ips.last(), others: mac_texts(others) })
        } else {
            before
        }
    }
}

/// A flag, if there is reason for it.
pub open spec fn flag_if(b: bool, f: FlagView) -> Seq<FlagView> {
    if b {
        seq![f]
    } else {
        Seq::empty()
    }
}

/// The flag about the lease: the device uses another address than it was given,
/// or has none although it is alive and there is a complete list of leases to hold
/// it against.
pub open spec fn lease_flag(h: HostView, dhcp_baseline: bool) -> Seq<FlagView> {
    match h.lease {
        Some(l) => flag_if(
            unleased(h, l).len() > 0,
            FlagView::LeaseMismatch { lease: l.ip, in_use: unleased(h, l) },
        ),
        None => flag_if(alive(h) && dhcp_baseline, FlagView::NoLease),
    }
}

/// All that does not fit about a device.
pub open spec fn flags_of(
    h: HostView,
    expected: Seq<Ipv4Net>,
    dhcp_baseline: bool,
    hosts: Seq<HostView>,
) -> Seq<FlagView> {
    flag_if(
        foreign(h, expected).len() > 0,
        FlagView::OutsideSubnet { ips: foreign(h, expected) },
    ) + flag_if(h.all_ipv4().len() == 0, FlagView::L2Only) + flag_if(
        fallback(h).len() > 0,
        FlagView::Apipa { ip: fallback(h)[0] },
    ) + lease_flag(h, dhcp_baseline) + conflicts(hosts, h.mac, routable(h))
}

/// The addresses in 169.254/16, or those that are not.
fn split_apipa(ips: &Vec<Ipv4Addr>, want: bool) -> (r: Vec<Ipv4Addr>)
    ensures
        r@ == ips@.filter(|ip: Ipv4Addr| inventory::apipa(ip) == want),
{
    let ghost p = |ip: Ipv4Addr| inventory::apipa(ip) == want;
    let mut out: Vec<Ipv4Addr> = Vec::new();
    let mut i: usize = 0;
    proof {
        assert(ips@.take(0) =~= Seq::empty());
        ordered::lemma_filter_none(ips@.take(0), p);
    }
    while i < ips.len()
        invariant
            i <= ips.len(),
            p == (|ip: Ipv4Addr| inventory::apipa(ip) == want),
            out@ == ips@.take(i as int).filter(p),
        decreases ips.len() - i,
    {
        proof {
            ordered::lemma_filter_step(ips@, i as int, p);
        }
        if inventory::is_apipa(&ips[i]) == want {
            out.push(ips[i]);
        }
        i = i + 1;
    }
    assert(ips@.take(ips.len() as int) =~= ips@);
    out
}

fn keep_foreign(ips: &Vec<Ipv4Addr>, expected: &[Ipv4Net]) -> (r: Vec<Ipv4Addr>)
    ensures
        r@ == ips@.filter(|ip: Ipv4Addr| private(ip) && !net::in_any(expected@, ip)),
{
    let ghost p = |ip: Ipv4Addr| private(ip) && !net::in_any(expected@, ip);
    let mut out: Vec<Ipv4Addr> = Vec::new();
    let mut i: usize = 0;
    proof {
        assert(ips@.take(0) =~= Seq::empty());
        ordered::lemma_filter_none(ips@.take(0), p);
    }
    while i < ips.len()
        invariant
            i <= ips.len(),
            p == (|ip: Ipv4Addr| private(ip) && !net::in_any(expected@, ip)),
            out@ == ips@.take(i as int).filter(p),
        decreases ips.len() - i,
    {
        proof {
            ordered::lemma_filter_step(ips@, i as int, p);
        }
        if is_private(&ips[i]) && !net::any_has(expected, &ips[i]) {
            out.push(ips[i]);
        }
        i = i + 1;
    }
    assert(ips@.take(ips.len() as int) =~= ips@);
    out
}

fn keep_other(ips: &Vec<Ipv4Addr>, leased: Ipv4Addr) -> (r: Vec<Ipv4Addr>)
    ensures
        r@ == ips@.filter(|ip: Ipv4Addr| ip != leased),
{
    let ghost p = |ip: Ipv4Addr| ip != leased;
    let mut out: Vec<Ipv4Addr> = Vec::new();
    let mut i: usize = 0;
    proof {
        assert(ips@.take(0) =~= Seq::empty());
        ordered::lemma_filter_none(ips@.take(0), p);
    }
    while i < ips.len()
        invariant
            i <= ips.len(),
            p == (|ip: Ipv4Addr| ip != leased),
            out@ == ips@.take(i as int).filter(p),
        decreases ips.len() - i,
    {
        proof {
            ordered::lemma_filter_step(ips@, i as int, p);
        }
        if ips[i] != leased {
            out.push(ips[i]);
        }
        i = i + 1;
    }
    assert(ips@.take(ips.len() as int) =~= ips@);
    out
}

fn shows_life(host: &Host) -> (r: bool)
    ensures
        r == alive(host@),
{
    let mut i: usize = 0;
    while i < host.sources.len()
        invariant
            i <= host.sources.len(),
            forall|j: int|
                0 <= j < i ==> #[trigger] host.sources@[j] != Source::ArpReply && host.sources@[j]
                    != Source::Ndp && host.sources@[j] != Source::Ipv4Source && host.sources@[j]
                    != Source::Gratuitous,
        decreases host.sources.len() - i,
    {
        match host.sources[i] {
            Source::ArpReply | Source::Ndp | Source::Ipv4Source | Source::Gratuitous => {
                assert(host@.sources[i as int] == host.sources@[i as int]);
                return true;
            },
            _ => {},
        }
        i = i + 1;
    }
    false
}

fn owns(host: &Host, ip: Ipv4Addr) -> (r: bool)
    ensures
        r == host@.owned.contains(ip),
{
    let mut i: usize = 0;
    while i < host.ipv4_owned.len()
        invariant
            i <= host.ipv4_owned.len(),
            forall|j: int| 0 <= j < i ==> #[trigger] host.ipv4_owned@[j] != ip,
        decreases host.ipv4_owned.len() - i,
    {
        if host.ipv4_owned[i] == ip {
            assert(host@.owned[i as int] == ip);
            return true;
        }
        i = i + 1;
    }
    false
}

/// The devices that own an address, in order.
fn owners_of(hosts: &Vec<Host>, ip: Ipv4Addr) -> (r: Vec<MacAddr>)
    ensures
        r@ == owners(inventory::host_views(hosts@), ip),
{
    let ghost all = inventory::host_views(hosts@);
    let mut out: Vec<MacAddr> = Vec::new();
    let mut i: usize = 0;
    assert(all.take(0) =~= Seq::empty());
    while i < hosts.len()
        invariant
            i <= hosts.len(),
            all == inventory::host_views(hosts@),
            out@ == owners(all.take(i as int), ip),
        decreases hosts.len() - i,
    {
        assert(all.take(i + 1).drop_last() =~= all.take(i as int));
        assert(all.take(i + 1).last() == hosts@[i as int]@);
        if owns(&hosts[i], ip) {
            out.push(hosts[i].mac);
        }
        i = i + 1;
    }
    assert(all.take(hosts.len() as int) =~= all);
    out
}

/// The devices that claim the same address, in order, where it is a duplicate. Only
/// owned addresses count: two routers forwarding the same external address is no
/// conflict.
pub fn duplicate_ips(hosts: &Vec<Host>, ip: Ipv4Addr) -> (r: Vec<MacAddr>)
    ensures
        r@ == claimants(inventory::host_views(hosts@), ip),
{
    let macs: Vec<MacAddr> = owners_of(hosts, ip);
    if macs.len() > 1 {
        macs
    } else {
        Vec::new()
    }
}

fn rival_names(hosts: &Vec<Host>, mac: MacAddr, ip: Ipv4Addr) -> (r: Vec<String>)
    ensures
        text::views(r@) == mac_texts(rivals(inventory::host_views(hosts@), mac, ip)),
{
    let macs: Vec<MacAddr> = duplicate_ips(hosts, ip);
    let mut out: Vec<String> = Vec::new();
    let ghost p = but(mac);
    let mut i: usize = 0;
    proof {
        assert(macs@.take(0) =~= Seq::empty());
        ordered::lemma_filter_none(macs@.take(0), p);
        assert(text::views(out@) =~= mac_texts(Seq::empty()));
    }
    while i < macs.len()
        invariant
            i <= macs.len(),
            p == but(mac),
            text::views(out@) == mac_texts(macs@.take(i as int).filter(p)),
        decreases macs.len() - i,
    {
        let ghost before = out@;
        let ghost kept = macs@.take(i as int).filter(p);
        proof {
            ordered::lemma_filter_step(macs@, i as int, p);
        }
        if macs[i] != mac {
            out.push(macs[i].to_string());
            assert(text::views(out@) =~= text::views(before).push(macs@[i as int].text()));
            assert(mac_texts(kept.push(macs@[i as int])) =~= mac_texts(kept).push(
                macs@[i as int].text(),
            ));
        }
        i = i + 1;
    }
    assert(macs@.take(macs.len() as int) =~= macs@);
    out
}

fn push_flag(flags: &mut Vec<Flag>, f: Flag)
    ensures
        flag_views(final(flags)@) == flag_views(old(flags)@).push(f@),
{
    flags.push(f);
    assert(flag_views(flags@) =~= flag_views(old(flags)@).push(f@));
}

/// All that does not fit about a device of an inventory.
pub fn flags_for(
    host: &Host,
    expected: &[Ipv4Net],
    dhcp_baseline: bool,
    hosts: &Vec<Host>,
) -> (r: Vec<Flag>)
    ensures
        flag_views(r@) == flags_of(
            host@,
            expected@,
            dhcp_baseline,
            inventory::host_views(hosts@),
        ),
{
    let ghost h = host@;
    let ghost all = inventory::host_views(hosts@);
    let mut flags: Vec<Flag> = Vec::new();
    assert(flag_views(flags@) =~= Seq::empty());

    let identity: &Vec<Ipv4Addr> = host.identity_ipv4();
    let apipa: Vec<Ipv4Addr> = split_apipa(identity, true);
    let routed: Vec<Ipv4Addr> = split_apipa(identity, false);
    assert((|ip: Ipv4Addr| inventory::apipa(ip) == true) =~= (|ip: Ipv4Addr| inventory::apipa(ip)));
    assert((|ip: Ipv4Addr| inventory::apipa(ip) == false) =~= (|ip: Ipv4Addr|
        !inventory::apipa(ip)));
    assert(apipa@ == fallback(h) && routed@ == routable(h));

    let outside: Vec<Ipv4Addr> = keep_foreign(&routed, expected);
    assert(outside@ == foreign(h, expected@));
    if outside.len() > 0 {
        push_flag(&mut flags, Flag::OutsideSubnet { ips: outside });
    }
    let ghost f1 = flag_if(
        foreign(h, expected@).len() > 0,
        FlagView::OutsideSubnet { ips: foreign(h, expected@) },
    );
    assert(flag_views(flags@) =~= f1);

    if host.ipv4_all().len() == 0 {
        push_flag(&mut flags, Flag::L2Only);
    }
    let ghost f2 = f1 + flag_if(h.all_ipv4().len() == 0, FlagView::L2Only);
    assert(flag_views(flags@) =~= f2);

    if apipa.len() > 0 {
        push_flag(&mut flags, Flag::Apipa { ip: apipa[0] });
    }
    let ghost f3 = f2 + flag_if(fallback(h).len() > 0, FlagView::Apipa { ip: fallback(h)[0] });
    assert(flag_views(flags@) =~= f3);

    match &host.lease {
        Some(lease) => {
            let mismatched: Vec<Ipv4Addr> = keep_other(&routed, lease.ip);
            assert(mismatched@ == unleased(h, lease@)) by {
                assert((|ip: Ipv4Addr| ip != lease.ip) =~= (|ip: Ipv4Addr| ip != lease@.ip));
            }
            if mismatched.len() > 0 {
                push_flag(&mut flags, Flag::LeaseMismatch { lease: lease.ip, in_use: mismatched });
            }
        },
        None => {
            // Only accuse a host of having no lease if it proved to be alive,
            // and only when there is a DHCP baseline to compare against.
            if shows_life(host) && dhcp_baseline {
                push_flag(&mut flags, Flag::NoLease);
            }
        },
    }
    let ghost f4 = f3 + lease_flag(h, dhcp_baseline);
    assert(flag_views(flags@) =~= f4);

    let mut i: usize = 0;
    assert(routed@.take(0) =~= Seq::empty());
    assert(flag_views(flags@) =~= f4 + conflicts(all, h.mac, routed@.take(0)));
    while i < routed.len()
        invariant
            i <= routed.len(),
            h == host@,
            all == inventory::host_views(hosts@),
            flag_views(flags@) == f4 + conflicts(all, h.mac, routed@.take(i as int)),
        decreases routed.len() - i,
    {
        let ghost before = conflicts(all, h.mac, routed@.take(i as int));
        let ip = routed[i];
        assert(routed@.take(i + 1).drop_last() =~= routed@.take(i as int));
        assert(routed@.take(i + 1).last() == ip);
        let others: Vec<String> = rival_names(hosts, host.mac, ip);
        assert(others@.len() == text::views(others@).len());
        assert(rivals(all, h.mac, ip).len() == text::views(others@).len());
        if others.len() > 0 {
            let ghost names = text::views(others@);
            push_flag(&mut flags, Flag::DuplicateIp { ip, others });
            assert(flag_views(flags@) =~= f4 + before.push(
                FlagView::DuplicateIp { ip, others: names },
            ));
        }
        i = i + 1;
    }
    assert(routed@.take(routed.len() as int) =~= routed@);
    flags
}

// ---------------------------------------------------------------------
// Findings
// ---------------------------------------------------------------------

/// What there is to say about one device.
#[derive(Debug)]
pub struct Finding {
    pub mac: String,
    pub vendor: Option<String>,
    pub ipv4: Vec<String>,
    pub ipv6: Vec<String>,
    pub hostname: Option<String>,
    pub lease: Option<String>,
    pub lease_secs: Option<u32>,
    pub lease_server: Option<String>,
    pub sources: Vec<String>,
    pub flags: Vec<Flag>,
    pub severity: Severity,
    pub locally_administered: bool,
}

/// A [`Finding`] with its lists as sequences and its text as characters.
#[verifier::ext_equal]
pub struct FindingView {
    pub mac: Seq<char>,
    pub vendor: Option<Seq<char>>,
    pub ipv4: Seq<Seq<char>>,
    pub ipv6: Seq<Seq<char>>,
    pub hostname: Option<Seq<char>>,
    pub lease: Option<Seq<char>>,
    pub lease_secs: Option<u32>,
    pub lease_server: Option<Seq<char>>,
    pub sources: Seq<Seq<char>>,
    pub flags: Seq<FlagView>,
    pub severity: Severity,
    pub locally_administered: bool,
}

impl View for Finding {
    type V = FindingView;

    open spec fn view(&self) -> FindingView {
        FindingView {
            mac: self.mac@,
            vendor: text::opt_view(self.vendor),
            ipv4: text::views(self.ipv4@),
            ipv6: text::views(self.ipv6@),
            hostname: text::opt_view(self.hostname),
            lease: text::opt_view(self.lease),
            lease_secs: self.lease_secs,
            lease_server: text::opt_view(self.lease_server),
            sources: text::views(self.sources@),
            flags: flag_views(self.flags@),
            severity: self.severity,
            locally_administered: self.locally_administered,
        }
    }
}

/// What a list of findings says.
pub open spec fn finding_views(v: Seq<Finding>) -> Seq<FindingView> {
    Seq::new(v.len(), |i: int| v[i]@)
}

fn clone_flags(v: &Vec<Flag>) -> (r: Vec<Flag>)
    ensures
        flag_views(r@) == flag_views(v@),
{
    let mut out: Vec<Flag> = Vec::new();
    let mut i: usize = 0;
    while i < v.len()
        invariant
            i <= v.len(),
            flag_views(out@) == flag_views(v@.take(i as int)),
        decreases v.len() - i,
    {
        let f = v[i].clone();
        push_flag(&mut out, f);
        assert(flag_views(v@.take(i + 1)) =~= flag_views(v@.take(i as int)).push(v@[i as int]@));
        i = i + 1;
    }
    assert(v@.take(v.len() as int) =~= v@);
    out
}

impl Clone for Finding {
    fn clone(&self) -> (r: Finding)
        ensures
            r@ == self@,
    {
        Finding {
            mac: self.mac.clone(),
            vendor: text::clone_opt(&self.vendor),
            ipv4: text::clone_strings(&self.ipv4),
            ipv6: text::clone_strings(&self.ipv6),
            hostname: text::clone_opt(&self.hostname),
            lease: text::clone_opt(&self.lease),
            lease_secs: self.lease_secs,
            lease_server: text::clone_opt(&self.lease_server),
            sources: text::clone_strings(&self.sources),
            flags: clone_flags(&self.flags),
            severity: self.severity,
            locally_administered: self.locally_administered,
        }
    }
}

/// The worst of the flags; with none, just information.
pub open spec fn worst(flags: Seq<FlagView>) -> Severity
    decreases flags.len(),
{
    if flags.len() == 0 {
        Severity::Info
    } else {
        let before = worst(flags.drop_last());
        if flags.last().weight().rank() > before.rank() {
            flags.last().weight()
        } else {
            before
        }
    }
}

fn worst_of(flags: &Vec<Flag>) -> (r: Severity)
    ensures
        r == worst(flag_views(flags@)),
{
    let ghost all = flag_views(flags@);
    let mut w = Severity::Info;
    let mut i: usize = 0;
    assert(all.take(0) =~= Seq::empty());
    while i < flags.len()
        invariant
            i <= flags.len(),
            all == flag_views(flags@),
            w == worst(all.take(i as int)),
        decreases flags.len() - i,
    {
        assert(all.take(i + 1).drop_last() =~= all.take(i as int));
        assert(all.take(i + 1).last() == flags@[i as int]@);
        let s = flags[i].severity();
        if s.level() > w.level() {
            w = s;
        }
        i = i + 1;
    }
    assert(all.take(flags.len() as int) =~= all);
    w
}

/// The dotted form of an address, if there is one.
pub open spec fn opt_text(ip: Option<Ipv4Addr>) -> Option<Seq<char>> {
    match ip {
        Some(x) => Some(x.text()),
        None => None,
    }
}

fn opt_string(ip: Option<Ipv4Addr>) -> (r: Option<String>)
    ensures
        text::opt_view(r) == opt_text(ip),
{
    match ip {
        Some(x) => Some(x.to_string()),
        None => None,
    }
}

/// The vendor of a hardware address.
pub open spec fn vendor_of(table: Map<Seq<char>, Seq<char>>, mac: MacAddr) -> Option<Seq<char>> {
    oui::longest_match(table, oui::hex_digits(mac), 12)
}

fn vendor(db: &OuiDb, mac: MacAddr) -> (r: Option<String>)
    ensures
        text::opt_view(r) == vendor_of(db@, mac),
{
    match db.lookup(mac) {
        Some(v) => Some(v.to_owned()),
        None => None,
    }
}

/// What there is to say about a device that was seen.
pub open spec fn finding_of(
    h: HostView,
    inv: InventoryView,
    expected: Seq<Ipv4Net>,
    vendors: Map<Seq<char>, Seq<char>>,
) -> FindingView {
    let flags = flags_of(h, expected, inv.lease_file_loaded, inv.hosts);
    FindingView {
        mac: h.mac.text(),
        vendor: vendor_of(vendors, h.mac),
        ipv4: ipv4_texts(h.all_ipv4()),
        ipv6: ipv6_texts(h.ipv6),
        hostname: h.hostname,
        lease: match h.lease {
            Some(l) => Some(l.ip.text()),
            None => None,
        },
        lease_secs: match h.lease {
            Some(l) => l.lease_secs,
            None => None,
        },
        lease_server: match h.lease {
            Some(l) => opt_text(l.server),
            None => None,
        },
        sources: source_names(h.sources),
        flags,
        severity: worst(flags),
        locally_administered: oui::locally_administered(h.mac),
    }
}

/// What there is to say about a lease whose device was not seen.
pub open spec fn orphan_finding(
    mac: MacAddr,
    lease: LeaseView,
    vendors: Map<Seq<char>, Seq<char>>,
) -> FindingView {
    FindingView {
        mac: mac.text(),
        vendor: vendor_of(vendors, mac),
        ipv4: Seq::empty(),
        ipv6: Seq::empty(),
        hostname: lease.hostname,
        lease: Some(lease.ip.text()),
        lease_secs: lease.lease_secs,
        lease_server: opt_text(lease.server),
        sources: seq!["lease-file"@],
        flags: seq![FlagView::OrphanLease { ip: lease.ip }],
        severity: Severity::Info,
        locally_administered: oui::locally_administered(mac),
    }
}

/// One finding for each device that was seen and one for each lease whose device
/// was not.
pub open spec fn all_findings(
    inv: InventoryView,
    expected: Seq<Ipv4Net>,
    vendors: Map<Seq<char>, Seq<char>>,
) -> Seq<FindingView> {
    Seq::new(inv.hosts.len(), |i: int| finding_of(inv.hosts[i], inv, expected, vendors)) + Seq::new(
        inv.orphans.len(),
        |i: int| orphan_finding(inv.orphans[i].0, inv.orphans[i].1, vendors),
    )
}

fn host_finding(host: &Host, inv: &Inventory, expected: &[Ipv4Net], db: &OuiDb) -> (r: Finding)
    ensures
        r@ == finding_of(host@, inv@, expected@, db@),
{
    let flags: Vec<Flag> = flags_for(host, expected, inv.lease_file_loaded, &inv.hosts);
    let severity = worst_of(&flags);
    let (lease, lease_secs, lease_server) = match &host.lease {
        Some(l) => (Some(l.ip.to_string()), l.lease_secs, opt_string(l.server)),
        None => (None, None, None),
    };
    Finding {
        mac: host.mac.to_string(),
        vendor: vendor(db, host.mac),
        ipv4: ipv4_strings(&host.ipv4_all()),
        ipv6: ipv6_strings(&host.ipv6),
        hostname: text::clone_opt(&host.hostname),
        lease,
        lease_secs,
        lease_server,
        sources: source_strings(&host.sources),
        flags,
        severity,
        locally_administered: oui::is_locally_administered(host.mac),
    }
}

fn lease_finding(mac: MacAddr, lease: &Lease, db: &OuiDb) -> (r: Finding)
    ensures
        r@ == orphan_finding(mac, lease@, db@),
{
    let mut flags: Vec<Flag> = Vec::new();
    flags.push(Flag::OrphanLease { ip: lease.ip });
    let mut sources: Vec<String> = Vec::new();
    sources.push("lease-file".to_owned());
    let r = Finding {
        mac: mac.to_string(),
        vendor: vendor(db, mac),
        ipv4: Vec::new(),
        ipv6: Vec::new(),
        hostname: text::clone_opt(&lease.hostname),
        lease: Some(lease.ip.to_string()),
        lease_secs: lease.lease_secs,
        lease_server: opt_string(lease.server),
        sources,
        flags,
        severity: Severity::Info,
        locally_administered: oui::is_locally_administered(mac),
    };
    assert(r@.ipv4 =~= Seq::empty());
    assert(r@.ipv6 =~= Seq::empty());
    assert(r@.sources =~= seq!["lease-file"@]);
    assert(r@.flags =~= seq![FlagView::OrphanLease { ip: lease.ip }]);
    r
}

/// Does one finding stand before another: worst first, and within the same
/// severity in the order of the MACs as they are written.
pub open spec fn stands_before(a: FindingView, b: FindingView) -> bool {
    a.severity.rank() > b.severity.rank() || (a.severity == b.severity && text::text_before(
        a.mac,
        b.mac,
    ))
}

/// No finding stands behind one that it should stand before.
pub open spec fn worst_first(s: Seq<FindingView>) -> bool {
    forall|i: int, j: int|
        0 <= i < j < s.len() ==> !stands_before(#[trigger] s[j], #[trigger] s[i])
}

fn is_first(a: &Finding, b: &Finding) -> (r: bool)
    ensures
        r == stands_before(a@, b@),
{
    let (x, y) = (a.severity.level(), b.severity.level());
    x > y || (x == y && text::is_before(a.mac.as_str(), b.mac.as_str()))
}

/// Puts a finding behind all that it does not stand before.
fn place(out: &mut Vec<Finding>, f: Finding)
    requires
        worst_first(finding_views(old(out)@)),
    ensures
        worst_first(finding_views(final(out)@)),
        finding_views(final(out)@).to_multiset() == finding_views(old(out)@).to_multiset().insert(
            f@,
        ),
{
    let ghost s = finding_views(out@);
    let mut i: usize = out.len();
    while i > 0 && is_first(&f, &out[i - 1])
        invariant
            i <= out.len(),
            s == finding_views(out@),
            forall|j: int| i <= j < s.len() ==> stands_before(f@, #[trigger] s[j]),
        decreases i,
    {
        i = i - 1;
    }
    let ghost k = i as int;
    out.insert(i, f);
    let ghost t = finding_views(out@);
    proof {
        assert(t =~= s.insert(k, f@));
        assert(t.to_multiset() =~= s.to_multiset().insert(f@)) by {
            vstd::seq_lib::to_multiset_insert(s, k, f@);
        }
        assert forall|a: int, b: int| 0 <= a < b < t.len() implies !stands_before(
            #[trigger] t[b],
            #[trigger] t[a],
        ) by {
            let x = if a < k { a } else { a - 1 };
            let y = if b < k { b } else { b - 1 };
            if a != k {
                assert(t[a] == s[x]);
            }
            if b != k {
                assert(t[b] == s[y]);
            }
            if a != k && b != k {
                assert(!stands_before(s[y], s[x]));
            } else if a == k {
                lemma_order_is_strict(f@, s[y]);
            } else {
                // Everything in front of the slot stays in front of the new finding.
                assert(!stands_before(f@, s[k - 1]));
                if x < k - 1 {
                    assert(!stands_before(s[k - 1], s[x]));
                    lemma_order_is_total(s[x], s[k - 1], f@);
                }
            }
        }
    }
}

proof fn lemma_order_is_strict(a: FindingView, b: FindingView)
    requires
        stands_before(a, b),
    ensures
        !stands_before(b, a),
{
    text::lemma_text_order_total(a.mac, b.mac);
}

proof fn lemma_order_is_total(a: FindingView, b: FindingView, c: FindingView)
    requires
        !stands_before(b, a),
        !stands_before(c, b),
    ensures
        !stands_before(c, a),
{
    text::lemma_text_order_total(a.mac, b.mac);
    text::lemma_text_order_total(b.mac, c.mac);
    text::lemma_text_order_total(a.mac, c.mac);
    if stands_before(c, a) {
        assert(c.severity == a.severity && b.severity == a.severity);
        if text::text_before(a.mac, b.mac) {
            text::lemma_text_order_transitive(c.mac, a.mac, b.mac);
        }
    }
}

/// Draws the findings from an inventory: one for each device that was seen and one
/// for each lease whose device was not, worst first.
pub fn analyze(inv: &Inventory, expected: &[Ipv4Net], oui: &OuiDb) -> (r: Vec<Finding>)
    ensures
        worst_first(finding_views(r@)),
        finding_views(r@).to_multiset() == all_findings(inv@, expected@, oui@).to_multiset(),
{
    let ghost all = all_findings(inv@, expected@, oui@);
    let mut out: Vec<Finding> = Vec::new();
    let mut i: usize = 0;
    assert(finding_views(out@) =~= all.take(0));
    while i < inv.hosts.len()
        invariant
            i <= inv.hosts.len(),
            all == all_findings(inv@, expected@, oui@),
            worst_first(finding_views(out@)),
            finding_views(out@).to_multiset() == all.take(i as int).to_multiset(),
        decreases inv.hosts.len() - i,
    {
        let f = host_finding(&inv.hosts[i], inv, expected, oui);
        proof {
            assert(inv@.hosts[i as int] == inv.hosts@[i as int]@);
            assert(all[i as int] == f@);
            lemma_multiset_step(all, i as int);
        }
        place(&mut out, f);
        i = i + 1;
    }
    let n: usize = inv.hosts.len();
    let mut j: usize = 0;
    while j < inv.orphan_leases.len()
        invariant
            j <= inv.orphan_leases.len(),
            n == inv.hosts.len(),
            all == all_findings(inv@, expected@, oui@),
            worst_first(finding_views(out@)),
            finding_views(out@).to_multiset() == all.take(n + j).to_multiset(),
        decreases inv.orphan_leases.len() - j,
    {
        let f = lease_finding(inv.orphan_leases[j].0, &inv.orphan_leases[j].1, oui);
        proof {
            assert(inv@.orphans[j as int] == (
                inv.orphan_leases@[j as int].0,
                inv.orphan_leases@[j as int].1@,
            ));
            assert(all[n + j] == f@);
            lemma_multiset_step(all, n + j);
        }
        place(&mut out, f);
        j = j + 1;
    }
    assert(all.take(n + j) =~= all);
    out
}

proof fn lemma_multiset_step<A>(s: Seq<A>, i: int)
    requires
        0 <= i < s.len(),
    ensures
        s.take(i + 1).to_multiset() == s.take(i).to_multiset().insert(s[i]),
{
    assert(s.take(i + 1) =~= s.take(i).push(s[i]));
    s.take(i).to_multiset_ensures();
    assert(s.take(i).push(s[i]).to_multiset() =~= s.take(i).to_multiset().insert(s[i]));
}

// ---------------------------------------------------------------------
// What holds of every finding
// ---------------------------------------------------------------------

/// An address is reported as outside exactly when it stands for the device, is
/// private, is no 169.254/16 address and lies in none of the expected subnets.
pub proof fn outside_means_outside(h: HostView, expected: Seq<Ipv4Net>, ip: Ipv4Addr)
    ensures
        foreign(h, expected).contains(ip) <==> h.identity().contains(ip) && !inventory::apipa(ip)
            && private(ip) && !net::in_any(expected, ip),
{
    ordered::lemma_filter_holds(
        routable(h),
        |x: Ipv4Addr| private(x) && !net::in_any(expected, x),
        ip,
    );
    ordered::lemma_filter_holds(h.identity(), |x: Ipv4Addr| !inventory::apipa(x), ip);
}

/// A device is flagged as outside exactly when one such address stands for it, and
/// the flag then names all of them.
pub proof fn outside_is_flagged(
    h: HostView,
    expected: Seq<Ipv4Net>,
    dhcp_baseline: bool,
    hosts: Seq<HostView>,
)
    ensures
        (exists|i: int|
            0 <= i < flags_of(h, expected, dhcp_baseline, hosts).len() && #[trigger] flags_of(
                h,
                expected,
                dhcp_baseline,
                hosts,
            )[i] is OutsideSubnet) <==> (exists|ip: Ipv4Addr| #[trigger]
            foreign(h, expected).contains(ip)),
        forall|i: int|
            0 <= i < flags_of(h, expected, dhcp_baseline, hosts).len() && #[trigger] flags_of(
                h,
                expected,
                dhcp_baseline,
                hosts,
            )[i] is OutsideSubnet ==> flags_of(h, expected, dhcp_baseline, hosts)[i]
                == (FlagView::OutsideSubnet { ips: foreign(h, expected) }),
{
    let flags = flags_of(h, expected, dhcp_baseline, hosts);
    let out = foreign(h, expected);
    lemma_flags_in_place(h, expected, dhcp_baseline, hosts);
    if out.len() > 0 {
        assert(out.contains(out[0]));
        assert(flags[0] is OutsideSubnet);
    }
    if exists|ip: Ipv4Addr| #[trigger] out.contains(ip) {
        assert(out.len() > 0);
        assert(flags[0] is OutsideSubnet);
    }
}

proof fn lemma_conflicts_are_duplicates(hosts: Seq<HostView>, mac: MacAddr, ips: Seq<Ipv4Addr>)
    ensures
        forall|i: int|
            0 <= i < conflicts(hosts, mac, ips).len() ==> (#[trigger] conflicts(
                hosts,
                mac,
                ips,
            )[i]) is DuplicateIp,
    decreases ips.len(),
{
    if ips.len() > 0 {
        lemma_conflicts_are_duplicates(hosts, mac, ips.drop_last());
    }
}

/// Each kind of flag and what it stands for.
proof fn lemma_flags_in_place(
    h: HostView,
    expected: Seq<Ipv4Net>,
    dhcp_baseline: bool,
    hosts: Seq<HostView>,
)
    ensures
        foreign(h, expected).len() > 0 ==> flags_of(h, expected, dhcp_baseline, hosts).len() > 0
            && flags_of(h, expected, dhcp_baseline, hosts)[0] is OutsideSubnet,
        h.all_ipv4().len() == 0 ==> exists|i: int|
            0 <= i < flags_of(h, expected, dhcp_baseline, hosts).len() && #[trigger] flags_of(
                h,
                expected,
                dhcp_baseline,
                hosts,
            )[i] is L2Only,
        forall|i: int|
            0 <= i < flags_of(h, expected, dhcp_baseline, hosts).len() ==> {
                let f = #[trigger] flags_of(h, expected, dhcp_baseline, hosts)[i];
                &&& f is OutsideSubnet ==> foreign(h, expected).len() > 0 && f
                    == (FlagView::OutsideSubnet { ips: foreign(h, expected) })
                &&& f is L2Only ==> h.all_ipv4().len() == 0
                &&& f is NoLease ==> dhcp_baseline && h.lease is None && alive(h)
                &&& f is Apipa ==> fallback(h).len() > 0
                &&& f is LeaseMismatch ==> h.lease is Some && unleased(h, h.lease->0).len() > 0 && f
                    == (FlagView::LeaseMismatch {
                    lease: (h.lease->0).ip,
                    in_use: unleased(h, h.lease->0),
                })
                &&& !(f is OrphanLease)
            },
{
    let flags = flags_of(h, expected, dhcp_baseline, hosts);
    let a = flag_if(
        foreign(h, expected).len() > 0,
        FlagView::OutsideSubnet { ips: foreign(h, expected) },
    );
    let b = flag_if(h.all_ipv4().len() == 0, FlagView::L2Only);
    let c = flag_if(fallback(h).len() > 0, FlagView::Apipa { ip: fallback(h)[0] });
    let d = lease_flag(h, dhcp_baseline);
    let e = conflicts(hosts, h.mac, routable(h));
    lemma_conflicts_are_duplicates(hosts, h.mac, routable(h));
    assert(flags == a + b + c + d + e);
    assert forall|i: int| 0 <= i < flags.len() implies {
        let f = #[trigger] flags[i];
        &&& f is OutsideSubnet ==> foreign(h, expected).len() > 0 && f
            == (FlagView::OutsideSubnet { ips: foreign(h, expected) })
        &&& f is L2Only ==> h.all_ipv4().len() == 0
        &&& f is NoLease ==> dhcp_baseline && h.lease is None && alive(h)
        &&& f is Apipa ==> fallback(h).len() > 0
        &&& f is LeaseMismatch ==> h.lease is Some && unleased(h, h.lease->0).len() > 0 && f
            == (FlagView::LeaseMismatch {
            lease: (h.lease->0).ip,
            in_use: unleased(h, h.lease->0),
        })
        &&& !(f is OrphanLease)
    } by {
        let n = (a + b + c + d).len();
        if i >= n {
            assert(flags[i] == e[i - n]);
        } else {
            assert(flags[i] == (a + b + c + d)[i]);
        }
    }
    if h.all_ipv4().len() == 0 {
        assert(flags[a.len() as int] == b[0]);
    }
}

/// `NO_LEASE` is only ever raised against a complete list of leases, of a device
/// that is alive and has none.
pub proof fn no_lease_needs_a_baseline(
    h: HostView,
    expected: Seq<Ipv4Net>,
    dhcp_baseline: bool,
    hosts: Seq<HostView>,
)
    ensures
        (exists|i: int|
            0 <= i < flags_of(h, expected, dhcp_baseline, hosts).len() && #[trigger] flags_of(
                h,
                expected,
                dhcp_baseline,
                hosts,
            )[i] is NoLease) <==> dhcp_baseline && h.lease is None && alive(h),
{
    lemma_flags_in_place(h, expected, dhcp_baseline, hosts);
    if dhcp_baseline && h.lease is None && alive(h) {
        let flags = flags_of(h, expected, dhcp_baseline, hosts);
        let a = flag_if(
            foreign(h, expected).len() > 0,
            FlagView::OutsideSubnet { ips: foreign(h, expected) },
        );
        let b = flag_if(h.all_ipv4().len() == 0, FlagView::L2Only);
        let c = flag_if(fallback(h).len() > 0, FlagView::Apipa { ip: fallback(h)[0] });
        assert(flags[(a + b + c).len() as int] == FlagView::NoLease);
    }
}

/// `LEASE_MISMATCH` is raised exactly of a device that has a lease and of which an
/// address stands, 169.254/16 aside, that is not the leased one; it names the lease
/// and all such addresses.
pub proof fn a_mismatch_is_flagged(
    h: HostView,
    expected: Seq<Ipv4Net>,
    dhcp_baseline: bool,
    hosts: Seq<HostView>,
)
    ensures
        (exists|i: int|
            0 <= i < flags_of(h, expected, dhcp_baseline, hosts).len() && #[trigger] flags_of(
                h,
                expected,
                dhcp_baseline,
                hosts,
            )[i] is LeaseMismatch) <==> h.lease is Some && exists|ip: Ipv4Addr| #[trigger]
            h.identity().contains(ip) && !inventory::apipa(ip) && ip != (h.lease->0).ip,
        forall|i: int|
            0 <= i < flags_of(h, expected, dhcp_baseline, hosts).len() && #[trigger] flags_of(
                h,
                expected,
                dhcp_baseline,
                hosts,
            )[i] is LeaseMismatch ==> flags_of(h, expected, dhcp_baseline, hosts)[i]
                == (FlagView::LeaseMismatch {
                lease: (h.lease->0).ip,
                in_use: unleased(h, h.lease->0),
            }),
{
    let flags = flags_of(h, expected, dhcp_baseline, hosts);
    lemma_flags_in_place(h, expected, dhcp_baseline, hosts);
    if let Some(l) = h.lease {
        let other = |x: Ipv4Addr| x != l.ip;
        let rest = unleased(h, l);
        assert(rest == routable(h).filter(other));
        if rest.len() > 0 {
            let ip = rest[0];
            assert(rest.contains(ip));
            ordered::lemma_filter_holds(routable(h), other, ip);
            ordered::lemma_filter_holds(h.identity(), |x: Ipv4Addr| !inventory::apipa(x), ip);
            assert(h.identity().contains(ip) && !inventory::apipa(ip) && ip != l.ip);
            let a = flag_if(
                foreign(h, expected).len() > 0,
                FlagView::OutsideSubnet { ips: foreign(h, expected) },
            );
            let b = flag_if(h.all_ipv4().len() == 0, FlagView::L2Only);
            let c = flag_if(fallback(h).len() > 0, FlagView::Apipa { ip: fallback(h)[0] });
            assert(flags[(a + b + c).len() as int] is LeaseMismatch);
        }
        if exists|ip: Ipv4Addr| #[trigger]
            h.identity().contains(ip) && !inventory::apipa(ip) && ip != l.ip {
            let ip = choose|ip: Ipv4Addr| #[trigger]
                h.identity().contains(ip) && !inventory::apipa(ip) && ip != l.ip;
            ordered::lemma_filter_holds(h.identity(), |x: Ipv4Addr| !inventory::apipa(x), ip);
            ordered::lemma_filter_holds(routable(h), other, ip);
            assert(rest.len() > 0);
        }
    }
}

proof fn lemma_owners(hosts: Seq<HostView>, ip: Ipv4Addr, mac: MacAddr)
    ensures
        owners(hosts, ip).contains(mac) <==> exists|i: int|
            0 <= i < hosts.len() && (#[trigger] hosts[i]).mac == mac && hosts[i].owned.contains(ip),
    decreases hosts.len(),
{
    if hosts.len() > 0 {
        let init = hosts.drop_last();
        let before = owners(init, ip);
        let all = owners(hosts, ip);
        lemma_owners(init, ip, mac);
        if before.contains(mac) {
            let k = choose|k: int| 0 <= k < before.len() && before[k] == mac;
            assert(all[k] == mac);
            let i = choose|i: int|
                0 <= i < init.len() && (#[trigger] init[i]).mac == mac && init[i].owned.contains(ip);
            assert(hosts[i].mac == mac);
        } else if hosts.last().owned.contains(ip) && hosts.last().mac == mac {
            assert(all[all.len() - 1] == mac);
            assert(hosts[hosts.len() - 1].mac == mac);
        } else {
            assert forall|i: int| 0 <= i < hosts.len() && (#[trigger] hosts[i]).mac == mac implies !(
            hosts[i].owned.contains(ip)) by {
                if i < init.len() {
                    assert(init[i].mac == mac);
                }
            }
        }
    }
}

proof fn lemma_rivals(hosts: Seq<HostView>, mac: MacAddr, ip: Ipv4Addr, other: MacAddr)
    ensures
        rivals(hosts, mac, ip).contains(other) ==> other != mac && owners(hosts, ip).contains(other),
        other != mac && owners(hosts, ip).contains(other) && owners(hosts, ip).contains(mac)
            ==> rivals(hosts, mac, ip).contains(other),
{
    let all = owners(hosts, ip);
    ordered::lemma_filter_holds(claimants(hosts, ip), but(mac), other);
    if other != mac && all.contains(other) && all.contains(mac) {
        let i = choose|i: int| 0 <= i < all.len() && all[i] == other;
        let j = choose|j: int| 0 <= j < all.len() && all[j] == mac;
        assert(i != j);
    }
}

proof fn lemma_conflict_flags(
    hosts: Seq<HostView>,
    mac: MacAddr,
    ips: Seq<Ipv4Addr>,
    f: FlagView,
)
    ensures
        conflicts(hosts, mac, ips).contains(f) <==> exists|i: int|
            0 <= i < ips.len() && rivals(hosts, mac, #[trigger] ips[i]).len() > 0 && f
                == (FlagView::DuplicateIp {
                ip: ips[i],
                others: mac_texts(rivals(hosts, mac, ips[i])),
            }),
    decreases ips.len(),
{
    if ips.len() > 0 {
        let init = ips.drop_last();
        let before = conflicts(hosts, mac, init);
        let all = conflicts(hosts, mac, ips);
        lemma_conflict_flags(hosts, mac, init, f);
        if before.contains(f) {
            let k = choose|k: int| 0 <= k < before.len() && before[k] == f;
            assert(all[k] == f);
            let i = choose|i: int|
                0 <= i < init.len() && rivals(hosts, mac, #[trigger] init[i]).len() > 0 && f
                    == (FlagView::DuplicateIp {
                    ip: init[i],
                    others: mac_texts(rivals(hosts, mac, init[i])),
                });
            assert(ips[i] == init[i]);
        } else if all.contains(f) {
            let k = choose|k: int| 0 <= k < all.len() && all[k] == f;
            assert(k == all.len() - 1) by {
                if k < before.len() {
                    assert(before[k] == f);
                }
            }
            assert(f->DuplicateIp_ip == ips[ips.len() - 1]);
        } else {
            assert forall|i: int|
                0 <= i < ips.len() && rivals(hosts, mac, #[trigger] ips[i]).len() > 0 implies f
                != (FlagView::DuplicateIp {
                ip: ips[i],
                others: mac_texts(rivals(hosts, mac, ips[i])),
            }) by {
                if i < init.len() {
                    assert(init[i] == ips[i]);
                } else {
                    assert(all[all.len() - 1] != f);
                }
            }
        }
    }
}

/// Two devices that own the same address, 169.254/16 aside, are each flagged with
/// `DUPLICATE_IP` for it, and each flag names the other device.
pub proof fn a_conflict_is_mutual(
    hosts: Seq<HostView>,
    i: int,
    j: int,
    ip: Ipv4Addr,
    expected: Seq<Ipv4Net>,
    dhcp_baseline: bool,
)
    requires
        0 <= i < hosts.len(),
        0 <= j < hosts.len(),
        hosts[i].mac != hosts[j].mac,
        hosts[i].owned.contains(ip),
        hosts[j].owned.contains(ip),
        !inventory::apipa(ip),
    ensures
        exists|others: Seq<Seq<char>>| #[trigger]
            flags_of(hosts[i], expected, dhcp_baseline, hosts).contains(
                FlagView::DuplicateIp { ip, others },
            ) && others.contains(hosts[j].mac.text()),
        exists|others: Seq<Seq<char>>| #[trigger]
            flags_of(hosts[j], expected, dhcp_baseline, hosts).contains(
                FlagView::DuplicateIp { ip, others },
            ) && others.contains(hosts[i].mac.text()),
{
    lemma_one_side(hosts, i, j, ip, expected, dhcp_baseline);
    lemma_one_side(hosts, j, i, ip, expected, dhcp_baseline);
}

proof fn lemma_one_side(
    hosts: Seq<HostView>,
    i: int,
    j: int,
    ip: Ipv4Addr,
    expected: Seq<Ipv4Net>,
    dhcp_baseline: bool,
)
    requires
        0 <= i < hosts.len(),
        0 <= j < hosts.len(),
        hosts[i].mac != hosts[j].mac,
        hosts[i].owned.contains(ip),
        hosts[j].owned.contains(ip),
        !inventory::apipa(ip),
    ensures
        exists|others: Seq<Seq<char>>| #[trigger]
            flags_of(hosts[i], expected, dhcp_baseline, hosts).contains(
                FlagView::DuplicateIp { ip, others },
            ) && others.contains(hosts[j].mac.text()),
{
    let h = hosts[i];
    let mac = h.mac;
    let other = hosts[j].mac;
    lemma_owners(hosts, ip, mac);
    lemma_owners(hosts, ip, other);
    lemma_rivals(hosts, mac, ip, other);
    let named = rivals(hosts, mac, ip);
    let k = choose|k: int| 0 <= k < named.len() && named[k] == other;
    let others = mac_texts(named);
    assert(others[k] == other.text());
    ordered::lemma_filter_holds(h.identity(), |x: Ipv4Addr| !inventory::apipa(x), ip);
    let ips = routable(h);
    let m = choose|m: int| 0 <= m < ips.len() && ips[m] == ip;
    let f = FlagView::DuplicateIp { ip, others };
    assert(f == FlagView::DuplicateIp { ip: ips[m], others: mac_texts(rivals(hosts, mac, ips[m])) });
    lemma_conflict_flags(hosts, mac, ips, f);
    let found = conflicts(hosts, mac, ips);
    let flags = flags_of(h, expected, dhcp_baseline, hosts);
    let q = choose|q: int| 0 <= q < found.len() && found[q] == f;
    assert(flags[flags.len() - found.len() + q] == f);
    assert(flags.contains(f));
}

/// Does a device with that name, other than the given one, own the address?
pub open spec fn another_owns(
    hosts: Seq<HostView>,
    mac: MacAddr,
    ip: Ipv4Addr,
    name: Seq<char>,
) -> bool {
    exists|j: int|
        0 <= j < hosts.len() && (#[trigger] hosts[j]).mac != mac && hosts[j].owned.contains(ip)
            && hosts[j].mac.text() == name
}

/// A device is only ever flagged with `DUPLICATE_IP` for an address that another
/// device owns. Addresses that a router merely passes on are no conflict.
pub proof fn a_conflict_takes_another_owner(
    h: HostView,
    hosts: Seq<HostView>,
    expected: Seq<Ipv4Net>,
    dhcp_baseline: bool,
    ip: Ipv4Addr,
    others: Seq<Seq<char>>,
)
    requires
        flags_of(h, expected, dhcp_baseline, hosts).contains(FlagView::DuplicateIp { ip, others }),
    ensures
        h.identity().contains(ip) && !inventory::apipa(ip),
        others.len() > 0,
        forall|k: int|
            0 <= k < others.len() ==> another_owns(hosts, h.mac, ip, #[trigger] others[k]),
{
    let f = FlagView::DuplicateIp { ip, others };
    let flags = flags_of(h, expected, dhcp_baseline, hosts);
    let ips = routable(h);
    let found = conflicts(hosts, h.mac, ips);
    let q = choose|q: int| 0 <= q < flags.len() && flags[q] == f;
    let n = flags.len() - found.len();
    assert(q >= n) by {
        if q < n {
            let rest = flag_if(
                foreign(h, expected).len() > 0,
                FlagView::OutsideSubnet { ips: foreign(h, expected) },
            ) + flag_if(h.all_ipv4().len() == 0, FlagView::L2Only) + flag_if(
                fallback(h).len() > 0,
                FlagView::Apipa { ip: fallback(h)[0] },
            ) + lease_flag(h, dhcp_baseline);
            assert(flags[q] == rest[q]);
            assert(!(rest[q] is DuplicateIp));
        }
    }
    assert(found[q - n] == f);
    lemma_conflict_flags(hosts, h.mac, ips, f);
    let m = choose|m: int|
        0 <= m < ips.len() && rivals(hosts, h.mac, #[trigger] ips[m]).len() > 0 && f
            == (FlagView::DuplicateIp {
            ip: ips[m],
            others: mac_texts(rivals(hosts, h.mac, ips[m])),
        });
    assert(ips.contains(ip));
    ordered::lemma_filter_holds(h.identity(), |x: Ipv4Addr| !inventory::apipa(x), ip);
    let named = rivals(hosts, h.mac, ip);
    assert forall|k: int| 0 <= k < others.len() implies another_owns(
        hosts,
        h.mac,
        ip,
        #[trigger] others[k],
    ) by {
        let other = named[k];
        assert(named.contains(other));
        lemma_rivals(hosts, h.mac, ip, other);
        lemma_owners(hosts, ip, other);
        let j = choose|j: int|
            0 <= j < hosts.len() && (#[trigger] hosts[j]).mac == other && hosts[j].owned.contains(ip);
        assert(hosts[j].mac.text() == others[k]);
    }
}

/// The severity of a list of flags is that of the worst of them.
pub proof fn worst_is_the_worst(flags: Seq<FlagView>)
    ensures
        forall|i: int|
            0 <= i < flags.len() ==> (#[trigger] flags[i]).weight().rank() <= worst(flags).rank(),
        flags.len() == 0 ==> worst(flags) == Severity::Info,
        flags.len() > 0 ==> exists|i: int|
            0 <= i < flags.len() && (#[trigger] flags[i]).weight() == worst(flags),
    decreases flags.len(),
{
    if flags.len() > 0 {
        let init = flags.drop_last();
        worst_is_the_worst(init);
        assert forall|i: int| 0 <= i < flags.len() implies (#[trigger] flags[i]).weight().rank()
            <= worst(flags).rank() by {
            if i < init.len() {
                assert(init[i] == flags[i]);
            }
        }
        if worst(flags) == flags.last().weight() {
            assert(flags[flags.len() - 1].weight() == worst(flags));
        } else if init.len() > 0 {
            let i = choose|i: int|
                0 <= i < init.len() && (#[trigger] init[i]).weight() == worst(init);
            assert(flags[i].weight() == worst(flags));
        }
    }
}

/// A device that was seen is critical exactly when an address outside every
/// expected subnet stands for it, or none is known of it at all.
pub proof fn critical_means_outside_or_silent(
    h: HostView,
    inv: InventoryView,
    expected: Seq<Ipv4Net>,
    vendors: Map<Seq<char>, Seq<char>>,
)
    ensures
        finding_of(h, inv, expected, vendors).severity == Severity::Critical <==> foreign(
            h,
            expected,
        ).len() > 0 || h.all_ipv4().len() == 0,
{
    let flags = flags_of(h, expected, inv.lease_file_loaded, inv.hosts);
    lemma_flags_in_place(h, expected, inv.lease_file_loaded, inv.hosts);
    worst_is_the_worst(flags);
    if foreign(h, expected).len() > 0 {
        assert(flags[0].weight() == Severity::Critical);
    }
    if h.all_ipv4().len() == 0 {
        let i = choose|i: int| 0 <= i < flags.len() && #[trigger] flags[i] is L2Only;
        assert(flags[i].weight() == Severity::Critical);
    }
}

/// Accepting more subnets only ever clears devices: an address that is outside the
/// wider list is outside the narrower one.
pub proof fn widening_only_clears(
    h: HostView,
    narrow: Seq<Ipv4Net>,
    wide: Seq<Ipv4Net>,
    ip: Ipv4Addr,
)
    requires
        forall|x: Ipv4Addr| #[trigger] net::in_any(narrow, x) ==> net::in_any(wide, x),
        foreign(h, wide).contains(ip),
    ensures
        foreign(h, narrow).contains(ip),
{
    outside_means_outside(h, wide, ip);
    outside_means_outside(h, narrow, ip);
}

/// What comes from an expected subnet is never reported as outside.
pub proof fn expected_is_never_outside(h: HostView, expected: Seq<Ipv4Net>, ip: Ipv4Addr)
    requires
        net::in_any(expected, ip),
    ensures
        !foreign(h, expected).contains(ip),
{
    outside_means_outside(h, expected, ip);
}

/// No two findings are about the same MAC.
pub proof fn one_finding_per_mac(
    inv: InventoryView,
    expected: Seq<Ipv4Net>,
    vendors: Map<Seq<char>, Seq<char>>,
    i: int,
    j: int,
)
    requires
        inv.wf(),
        0 <= i < j < all_findings(inv, expected, vendors).len(),
    ensures
        all_findings(inv, expected, vendors)[i].mac != all_findings(inv, expected, vendors)[j].mac,
{
    let n = inv.hosts.len() as int;
    let hk = inventory::host_keys(inv.hosts);
    let ok = inventory::lease_keys(inv.orphans);
    let a = if i < n { inv.hosts[i].mac } else { inv.orphans[i - n].0 };
    let b = if j < n { inv.hosts[j].mac } else { inv.orphans[j - n].0 };
    if j < n {
        assert(hk[i] < hk[j]);
    } else if i < n {
        assert(hk[i] != ok[j - n]);
    } else {
        assert(ok[i - n] < ok[j - n]);
    }
    if a.text() == b.text() {
        addr::mac_text_is_injective(a, b);
    }
}

/// The order of the findings leaves nothing open: of findings about different MACs
/// there is only one arrangement with the worst first.
pub proof fn worst_first_is_settled(a: Seq<FindingView>, b: Seq<FindingView>)
    requires
        worst_first(a),
        worst_first(b),
        a.to_multiset() == b.to_multiset(),
        forall|i: int, j: int|
            0 <= i < j < a.len() ==> (#[trigger] a[i]).mac != (#[trigger] a[j]).mac,
    ensures
        a == b,
    decreases a.len(),
{
    a.to_multiset_ensures();
    b.to_multiset_ensures();
    if a.len() == 0 {
        assert(b.len() == 0);
        assert(a =~= b);
    } else {
        let x = a[0];
        let y = b[0];
        assert(a.contains(x));
        assert(a.to_multiset().count(x) > 0);
        assert(b.contains(x));
        assert(b.contains(y));
        assert(b.to_multiset().count(y) > 0);
        assert(a.contains(y));
        let i = choose|i: int| 0 <= i < b.len() && b[i] == x;
        let j = choose|j: int| 0 <= j < a.len() && a[j] == y;
        if j > 0 {
            assert(a[0].mac != a[j].mac);
            text::lemma_text_order_total(x.mac, y.mac);
            assert(!stands_before(a[j], a[0]));
            if i > 0 {
                assert(!stands_before(b[i], b[0]));
            }
            assert(false);
        }
        assert(x == y);
        let ta = a.remove(0);
        let tb = b.remove(0);
        assert(ta.to_multiset() =~= tb.to_multiset());
        assert forall|p: int, q: int| 0 <= p < q < ta.len() implies !stands_before(
            #[trigger] ta[q],
            #[trigger] ta[p],
        ) by {
            assert(ta[p] == a[p + 1] && ta[q] == a[q + 1]);
        }
        assert forall|p: int, q: int| 0 <= p < q < tb.len() implies !stands_before(
            #[trigger] tb[q],
            #[trigger] tb[p],
        ) by {
            assert(tb[p] == b[p + 1] && tb[q] == b[q + 1]);
        }
        assert forall|p: int, q: int| 0 <= p < q < ta.len() implies (#[trigger] ta[p]).mac != (
        #[trigger] ta[q]).mac by {
            assert(ta[p] == a[p + 1] && ta[q] == a[q + 1]);
        }
        worst_first_is_settled(ta, tb);
        assert(a =~= seq![x] + ta);
        assert(b =~= seq![y] + tb);
    }
}

// ---------------------------------------------------------------------
// What each flag takes, in terms of what was seen
// ---------------------------------------------------------------------

/// Does a device bear a flag of some kind?
pub open spec fn bears(flags: Seq<FlagView>, kind: spec_fn(FlagView) -> bool) -> bool {
    exists|i: int| 0 <= i < flags.len() && kind(#[trigger] flags[i])
}

/// A device without a lease, held against a complete list of leases, is accused of it
/// as soon as one of four things was seen of it: it answered an ARP request, it showed
/// itself over IPv6, it sent IPv4 traffic, or it announced itself by a gratuitous ARP.
/// Nothing else accuses it.
pub proof fn four_sources_accuse(
    h: HostView,
    expected: Seq<Ipv4Net>,
    dhcp_baseline: bool,
    hosts: Seq<HostView>,
)
    ensures
        bears(flags_of(h, expected, dhcp_baseline, hosts), |f: FlagView| f is NoLease) <==> {
            &&& h.lease is None
            &&& dhcp_baseline
            &&& h.sources.contains(Source::ArpReply) || h.sources.contains(Source::Ndp)
                || h.sources.contains(Source::Ipv4Source) || h.sources.contains(Source::Gratuitous)
        },
{
    let flags = flags_of(h, expected, dhcp_baseline, hosts);
    let kind = |f: FlagView| f is NoLease;
    no_lease_needs_a_baseline(h, expected, dhcp_baseline, hosts);
    if alive(h) && h.lease is None && dhcp_baseline {
        let i = choose|i: int| 0 <= i < flags.len() && #[trigger] flags[i] is NoLease;
        assert(kind(flags[i]));
    }
    if bears(flags, kind) {
        let i = choose|i: int| 0 <= i < flags.len() && kind(#[trigger] flags[i]);
        assert(flags[i] is NoLease);
    }
    if alive(h) {
        let k = choose|k: int|
            0 <= k < h.sources.len() && (#[trigger] h.sources[k] == Source::ArpReply || h.sources[k]
                == Source::Ndp || h.sources[k] == Source::Ipv4Source || h.sources[k]
                == Source::Gratuitous);
        assert(h.sources.contains(h.sources[k]));
    }
}

proof fn lemma_apipa_by_number(ip: Ipv4Addr)
    ensures
        inventory::apipa(ip) <==> 0xa9fe_0000 <= ip.bits <= 0xa9fe_ffff,
{
}

proof fn lemma_private_by_number(ip: Ipv4Addr)
    ensures
        private(ip) <==> 0x0a00_0000 <= ip.bits <= 0x0aff_ffff || 0xac10_0000 <= ip.bits
            <= 0xac1f_ffff || 0xc0a8_0000 <= ip.bits <= 0xc0a8_ffff || 0x6440_0000 <= ip.bits
            <= 0x647f_ffff,
{
}

/// An address is reported as outside exactly when the device owns it, or routes it and
/// owns none; it is one of 10/8, 172.16/12, 192.168/16 and 100.64/10; and no expected
/// subnet runs over it.
pub proof fn outside_by_number(h: HostView, expected: Seq<Ipv4Net>, ip: Ipv4Addr)
    ensures
        foreign(h, expected).contains(ip) <==> {
            &&& h.owned.contains(ip) || (h.owned.len() == 0 && h.routed.contains(ip))
            &&& 0x0a00_0000 <= ip.bits <= 0x0aff_ffff || 0xac10_0000 <= ip.bits <= 0xac1f_ffff
                || 0xc0a8_0000 <= ip.bits <= 0xc0a8_ffff || 0x6440_0000 <= ip.bits <= 0x647f_ffff
            &&& forall|i: int|
                0 <= i < expected.len() ==> !((#[trigger] expected[i]).first() <= ip.bits
                    <= expected[i].last())
        },
{
    outside_means_outside(h, expected, ip);
    lemma_private_by_number(ip);
    lemma_apipa_by_number(ip);
    inventory::owning_outweighs_routing(h, ip);
    if h.owned.len() > 0 {
        assert(h.owned.contains(h.owned[0]));
    } else {
        assert forall|x: Ipv4Addr| !#[trigger] h.owned.contains(x) by {}
    }
    if net::in_any(expected, ip) {
        let k = choose|k: int| 0 <= k < expected.len() && (#[trigger] expected[k]).has(ip);
        assert(expected[k].first() <= ip.bits <= expected[k].last());
    } else {
        assert forall|i: int| 0 <= i < expected.len() implies !((#[trigger] expected[i]).first()
            <= ip.bits <= expected[i].last()) by {
            assert(!expected[i].has(ip));
        }
    }
}

/// `L2_ONLY` is borne exactly by a device of which no IPv4 address was seen, owned or
/// routed.
pub proof fn silent_means_no_address(
    h: HostView,
    expected: Seq<Ipv4Net>,
    dhcp_baseline: bool,
    hosts: Seq<HostView>,
)
    ensures
        bears(flags_of(h, expected, dhcp_baseline, hosts), |f: FlagView| f is L2Only)
            <==> h.owned.len() == 0 && h.routed.len() == 0,
{
    let flags = flags_of(h, expected, dhcp_baseline, hosts);
    let kind = |f: FlagView| f is L2Only;
    lemma_flags_in_place(h, expected, dhcp_baseline, hosts);
    let all = h.all_ipv4();
    if all.len() == 0 {
        let i = choose|i: int| 0 <= i < flags.len() && #[trigger] flags[i] is L2Only;
        assert(kind(flags[i]));
        if h.owned.len() > 0 {
            assert(h.owned.contains(h.owned[0]));
            inventory::all_is_owned_and_routed(h, h.owned[0]);
        }
        if h.routed.len() > 0 {
            assert(h.routed.contains(h.routed[0]));
            inventory::all_is_owned_and_routed(h, h.routed[0]);
        }
    } else {
        let ip = all[0];
        assert(all.contains(ip));
        inventory::all_is_owned_and_routed(h, ip);
        assert(h.owned.contains(ip) || h.routed.contains(ip));
        if bears(flags, kind) {
            let i = choose|i: int| 0 <= i < flags.len() && kind(#[trigger] flags[i]);
            assert(flags[i] is L2Only);
        }
    }
}

/// `APIPA` is borne exactly by a device that an address in 169.254/16 stands for, and
/// names one of those.
pub proof fn fallback_is_flagged(
    h: HostView,
    expected: Seq<Ipv4Net>,
    dhcp_baseline: bool,
    hosts: Seq<HostView>,
)
    ensures
        bears(flags_of(h, expected, dhcp_baseline, hosts), |f: FlagView| f is Apipa) <==> exists|
            ip: Ipv4Addr,
        | #[trigger]
            h.identity().contains(ip) && 0xa9fe_0000 <= ip.bits <= 0xa9fe_ffff,
        forall|i: int|
            0 <= i < flags_of(h, expected, dhcp_baseline, hosts).len() && #[trigger] flags_of(
                h,
                expected,
                dhcp_baseline,
                hosts,
            )[i] is Apipa ==> {
                let ip = flags_of(h, expected, dhcp_baseline, hosts)[i]->Apipa_ip;
                h.identity().contains(ip) && 0xa9fe_0000 <= ip.bits <= 0xa9fe_ffff
            },
{
    let flags = flags_of(h, expected, dhcp_baseline, hosts);
    let kind = |f: FlagView| f is Apipa;
    let p = |x: Ipv4Addr| inventory::apipa(x);
    let back = fallback(h);
    assert(back == h.identity().filter(p));
    lemma_flags_in_place(h, expected, dhcp_baseline, hosts);
    let a = flag_if(
        foreign(h, expected).len() > 0,
        FlagView::OutsideSubnet { ips: foreign(h, expected) },
    );
    let b = flag_if(h.all_ipv4().len() == 0, FlagView::L2Only);
    let c = flag_if(back.len() > 0, FlagView::Apipa { ip: back[0] });
    let d = lease_flag(h, dhcp_baseline);
    let e = conflicts(hosts, h.mac, routable(h));
    assert(flags == a + b + c + d + e);
    lemma_conflicts_are_duplicates(hosts, h.mac, routable(h));
    if back.len() > 0 {
        assert(back.contains(back[0]));
        ordered::lemma_filter_holds(h.identity(), p, back[0]);
        lemma_apipa_by_number(back[0]);
        assert(flags[(a + b).len() as int] == c[0]);
        assert(kind(flags[(a + b).len() as int]));
        assert(h.identity().contains(back[0]));
    }
    if exists|ip: Ipv4Addr| #[trigger]
        h.identity().contains(ip) && 0xa9fe_0000 <= ip.bits <= 0xa9fe_ffff {
        let ip = choose|ip: Ipv4Addr| #[trigger]
            h.identity().contains(ip) && 0xa9fe_0000 <= ip.bits <= 0xa9fe_ffff;
        lemma_apipa_by_number(ip);
        ordered::lemma_filter_holds(h.identity(), p, ip);
        assert(back.len() > 0);
    }
    assert forall|i: int| 0 <= i < flags.len() && #[trigger] flags[i] is Apipa implies flags[i]
        == (FlagView::Apipa { ip: back[0] }) && back.len() > 0 by {
        let n = (a + b + c + d).len();
        if i >= n {
            assert(flags[i] == e[i - n]);
        } else {
            assert(flags[i] == (a + b + c + d)[i]);
        }
    }
    if bears(flags, kind) {
        let i = choose|i: int| 0 <= i < flags.len() && kind(#[trigger] flags[i]);
        assert(flags[i] is Apipa);
    }
}

/// A flag says how bad it is: an address outside the subnet or none at all is critical,
/// a lease that nobody uses is just information, and everything else is high.
pub proof fn flags_have_their_weight(f: FlagView)
    ensures
        f.weight() == Severity::Critical <==> f is OutsideSubnet || f is L2Only,
        f.weight() == Severity::Info <==> f is OrphanLease,
        Severity::Critical.rank() > Severity::High.rank() > Severity::Info.rank(),
{
}

/// Worst first: of two findings the earlier one is at least as bad, and where they are
/// equally bad its MAC does not come behind the other's.
pub proof fn worst_first_by_severity_and_mac(s: Seq<FindingView>, i: int, j: int)
    requires
        worst_first(s),
        0 <= i < j < s.len(),
    ensures
        s[j].severity == Severity::Critical ==> s[i].severity == Severity::Critical,
        s[i].severity == Severity::Info ==> s[j].severity == Severity::Info,
        s[i].severity == s[j].severity ==> !text::text_before(s[j].mac, s[i].mac),
{
    assert(!stands_before(s[j], s[i]));
}

/// Is the text an address that was seen of the device?
pub open spec fn seen_of(h: HostView, txt: Seq<char>) -> bool {
    exists|ip: Ipv4Addr| (h.owned.contains(ip) || h.routed.contains(ip)) && txt == #[trigger] ip.text()
}

/// Every device that was seen has a finding, and every lease whose device was not; there
/// are no others. The finding of a device names its MAC and shows every address that was
/// seen of it, every source, its name and its lease, and is as bad as its worst flag.
pub proof fn a_finding_tells_what_was_seen(
    inv: InventoryView,
    expected: Seq<Ipv4Net>,
    vendors: Map<Seq<char>, Seq<char>>,
    i: int,
)
    requires
        0 <= i < inv.hosts.len(),
    ensures
        all_findings(inv, expected, vendors).len() == inv.hosts.len() + inv.orphans.len(),
        ({
            let h = inv.hosts[i];
            let f = all_findings(inv, expected, vendors)[i];
            &&& f.mac == h.mac.text()
            &&& f.flags == flags_of(h, expected, inv.lease_file_loaded, inv.hosts)
            &&& forall|ip: Ipv4Addr|
                h.owned.contains(ip) || h.routed.contains(ip) ==> f.ipv4.contains(
                    #[trigger] ip.text(),
                )
            &&& forall|k: int| 0 <= k < f.ipv4.len() ==> seen_of(h, #[trigger] f.ipv4[k])
            &&& f.ipv6.len() == h.ipv6.len() && forall|k: int|
                0 <= k < h.ipv6.len() ==> f.ipv6[k] == (#[trigger] h.ipv6[k]).text()
            &&& f.sources.len() == h.sources.len() && forall|k: int|
                0 <= k < h.sources.len() ==> f.sources[k] == (#[trigger] h.sources[k]).name()
            &&& f.hostname == h.hostname
            &&& f.lease is Some <==> h.lease is Some
            &&& h.lease matches Some(l) ==> f.lease == Some(l.ip.text()) && f.lease_secs
                == l.lease_secs && (f.lease_server is Some <==> l.server is Some) && (l.server
                matches Some(x) ==> f.lease_server == Some(x.text()))
            &&& h.lease is None ==> f.lease_secs is None && f.lease_server is None
            &&& f.flags.len() == 0 ==> f.severity == Severity::Info
            &&& forall|k: int|
                0 <= k < f.flags.len() ==> (#[trigger] f.flags[k]).weight().rank()
                    <= f.severity.rank()
        }),
{
    let h = inv.hosts[i];
    let f = all_findings(inv, expected, vendors)[i];
    assert(f == finding_of(h, inv, expected, vendors));
    worst_is_the_worst(f.flags);
    let all = h.all_ipv4();
    assert forall|ip: Ipv4Addr| h.owned.contains(ip) || h.routed.contains(ip) implies f.ipv4.contains(
        #[trigger] ip.text(),
    ) by {
        inventory::all_is_owned_and_routed(h, ip);
        let k = choose|k: int| 0 <= k < all.len() && all[k] == ip;
        assert(f.ipv4[k] == ip.text());
    }
    assert forall|k: int| 0 <= k < f.ipv4.len() implies seen_of(h, #[trigger] f.ipv4[k]) by {
        let ip = all[k];
        assert(all.contains(ip));
        inventory::all_is_owned_and_routed(h, ip);
        assert(f.ipv4[k] == ip.text());
    }
}

/// A lease whose device was not seen is told as such, with its terms, as information.
pub proof fn an_orphan_lease_is_told(
    inv: InventoryView,
    expected: Seq<Ipv4Net>,
    vendors: Map<Seq<char>, Seq<char>>,
    i: int,
)
    requires
        0 <= i < inv.orphans.len(),
    ensures
        ({
            let (mac, l) = inv.orphans[i];
            let f = all_findings(inv, expected, vendors)[inv.hosts.len() + i];
            &&& f.mac == mac.text()
            &&& f.lease == Some(l.ip.text())
            &&& f.hostname == l.hostname
            &&& f.lease_secs == l.lease_secs
            &&& f.flags.len() == 1 && f.flags[0] == (FlagView::OrphanLease { ip: l.ip })
            &&& f.severity == Severity::Info
            &&& f.ipv4.len() == 0 && f.ipv6.len() == 0
        }),
{
}

/// What a flag means names every address it is about: all of those outside, the one that
/// was handed out and all those in use instead, the one that is claimed twice and every
/// other device that claims it.
pub proof fn a_flag_tells_its_addresses(f: FlagView, k: int)
    ensures
        f matches FlagView::OutsideSubnet { ips } ==> (0 <= k < ips.len() ==> text::contains_text(
            f.meaning(),
            ips[k].text(),
        )),
        f matches FlagView::LeaseMismatch { lease, in_use } ==> text::contains_text(
            f.meaning(),
            lease.text(),
        ) && (0 <= k < in_use.len() ==> text::contains_text(f.meaning(), in_use[k].text())),
        f matches FlagView::DuplicateIp { ip, others } ==> text::contains_text(f.meaning(), ip.text()) && (0
            <= k < others.len() ==> text::contains_text(f.meaning(), others[k])),
        f matches FlagView::Apipa { ip } ==> text::contains_text(f.meaning(), ip.text()),
        f matches FlagView::OrphanLease { ip } ==> text::contains_text(f.meaning(), ip.text()),
{
    let sep = ", "@;
    let none = Seq::<char>::empty();
    match f {
        FlagView::OutsideSubnet { ips } => {
            let list = ipv4_texts(ips);
            if 0 <= k < ips.len() {
                assert(list[k] == ips[k].text());
                text::joined_texts_are_all_there(list, sep, k);
                text::what_stands_inside_stands_outside(
                    "uses "@,
                    text::join(list, sep),
                    " — outside every expected subnet; static IP set on the device itself"@,
                    list[k],
                    text::start_of(list, sep, k),
                );
            }
        },
        FlagView::LeaseMismatch { lease, in_use } => {
            let list = ipv4_texts(in_use);
            let t = lease.text();
            let (a, b) = ("DHCP handed out "@, " but the device uses "@);
            let all = text::join(list, sep);
            text::a_text_stands_in_itself(t);
            text::what_stands_inside_stands_outside(a, t, b + all, t, 0);
            assert(a + t + (b + all) =~= f.meaning());
            if 0 <= k < in_use.len() {
                assert(list[k] == in_use[k].text());
                text::joined_texts_are_all_there(list, sep, k);
                text::what_stands_inside_stands_outside(
                    a + t + b,
                    all,
                    none,
                    list[k],
                    text::start_of(list, sep, k),
                );
                assert(a + t + b + all + none =~= f.meaning());
            }
        },
        FlagView::DuplicateIp { ip, others } => {
            let t = ip.text();
            let a = " is also claimed by "@;
            let all = text::join(others, sep);
            text::a_text_stands_in_itself(t);
            text::what_stands_inside_stands_outside(none, t, a + all, t, 0);
            assert(none + t + (a + all) =~= f.meaning());
            if 0 <= k < others.len() {
                text::joined_texts_are_all_there(others, sep, k);
                text::what_stands_inside_stands_outside(
                    t + a,
                    all,
                    none,
                    others[k],
                    text::start_of(others, sep, k),
                );
                assert(t + a + all + none =~= f.meaning());
            }
        },
        FlagView::Apipa { ip } => {
            let t = ip.text();
            text::a_text_stands_in_itself(t);
            text::what_stands_inside_stands_outside(
                "fell back to "@,
                t,
                " (APIPA): asked for DHCP and got no answer"@,
                t,
                0,
            );
        },
        FlagView::OrphanLease { ip } => {
            let t = ip.text();
            text::a_text_stands_in_itself(t);
            text::what_stands_inside_stands_outside(
                "lease for "@,
                t,
                " on record, but the MAC no longer answers"@,
                t,
                0,
            );
        },
        _ => {},
    }
}

/// Flags have the same name exactly when they are of the same kind.
pub proof fn kinds_of_flags_are_told_apart(a: FlagView, b: FlagView)
    ensures
        a.name() == b.name() <==> (a is OutsideSubnet && b is OutsideSubnet) || (a is L2Only && b is L2Only)
            || (a is NoLease && b is NoLease) || (a is LeaseMismatch && b is LeaseMismatch) || (
        a is DuplicateIp && b is DuplicateIp) || (a is Apipa && b is Apipa) || (a is OrphanLease
            && b is OrphanLease),
{
    reveal_strlit("OUTSIDE_SUBNET");
    reveal_strlit("L2_ONLY");
    reveal_strlit("NO_LEASE");
    reveal_strlit("LEASE_MISMATCH");
    reveal_strlit("DUPLICATE_IP");
    reveal_strlit("APIPA");
    reveal_strlit("ORPHAN_LEASE");
    let (x, y) = (a.name(), b.name());
    if x == y {
        assert(x[0] == y[0] && x[1] == y[1]);
    }
}

} // verus!
