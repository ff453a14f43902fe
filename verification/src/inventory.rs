//! The devices seen so far and what is known of each.
use crate::addr::{self, Ipv4Addr, Ipv6Addr, MacAddr};
use crate::capture::{Event, EventView, Source};
use crate::dhcp::{self, DhcpObservation, Lease, LeaseView, MsgType, ObservationView};
use crate::ordered::{self, Ranked};
use crate::text;
use vstd::prelude::*;

verus! {

broadcast use vstd::seq::group_seq_axioms;

// ---------------------------------------------------------------------
// Hosts
// ---------------------------------------------------------------------

/// A device on the link. The four lists are in increasing order, each item at
/// most once.
#[derive(Debug)]
pub struct Host {
    pub mac: MacAddr,
    /// Addresses this MAC demonstrably OWNS: it answered ARP for them, sent a
    /// gratuitous/probe frame, or received them over DHCP. Proof of ownership.
    pub ipv4_owned: Vec<Ipv4Addr>,
    /// Addresses merely SEEN as the source of traffic on this MAC. On a router
    /// or gateway this includes everything it forwards, not its own address.
    pub ipv4_routed: Vec<Ipv4Addr>,
    pub ipv6: Vec<Ipv6Addr>,
    pub sources: Vec<Source>,
    pub hostname: Option<String>,
    /// Authoritative lease (from a server DHCPACK or from the lease file).
    pub lease: Option<Lease>,
    /// Asked for DHCP at some point (DISCOVER/REQUEST/INFORM observed).
    pub tried_dhcp: bool,
}

/// A [`Host`] with its lists as sequences and its text as characters.
#[verifier::ext_equal]
pub struct HostView {
    pub mac: MacAddr,
    pub owned: Seq<Ipv4Addr>,
    pub routed: Seq<Ipv4Addr>,
    pub ipv6: Seq<Ipv6Addr>,
    pub sources: Seq<Source>,
    pub hostname: Option<Seq<char>>,
    pub lease: Option<LeaseView>,
    pub tried_dhcp: bool,
}

/// What an optional lease says.
pub open spec fn opt_lease_view(l: Option<Lease>) -> Option<LeaseView> {
    match l {
        Some(x) => Some(x@),
        None => None,
    }
}

impl View for Host {
    type V = HostView;

    open spec fn view(&self) -> HostView {
        HostView {
            mac: self.mac,
            owned: self.ipv4_owned@,
            routed: self.ipv4_routed@,
            ipv6: self.ipv6@,
            sources: self.sources@,
            hostname: text::opt_view(self.hostname),
            lease: opt_lease_view(self.lease),
            tried_dhcp: self.tried_dhcp,
        }
    }
}

impl Ranked for Host {
    open spec fn rank(&self) -> nat {
        self.mac.number()
    }

    fn rank_number(&self) -> (r: u128) {
        self.mac.as_number() as u128
    }
}

impl Ranked for (MacAddr, Lease) {
    open spec fn rank(&self) -> nat {
        self.0.number()
    }

    fn rank_number(&self) -> (r: u128) {
        self.0.as_number() as u128
    }
}

/// 169.254/16: the address a system gives itself when DHCP fails.
pub open spec fn apipa(ip: Ipv4Addr) -> bool {
    ip.octet(0) == 169 && ip.octet(1) == 254
}

/// Is the address in 169.254/16?
pub fn is_apipa(ip: &Ipv4Addr) -> (r: bool)
    ensures
        r == apipa(*ip),
{
    let o: [u8; 4] = ip.octets();
    o[0] == 169 && o[1] == 254
}

impl HostView {
    /// A device of which nothing but its MAC is known.
    pub open spec fn unknown(mac: MacAddr) -> HostView {
        HostView {
            mac,
            owned: Seq::empty(),
            routed: Seq::empty(),
            ipv6: Seq::empty(),
            sources: Seq::empty(),
            hostname: None,
            lease: None,
            tried_dhcp: false,
        }
    }

    /// The lists are in increasing order.
    pub open spec fn wf(self) -> bool {
        &&& ordered::increasing(ordered::ranks(self.owned))
        &&& ordered::increasing(ordered::ranks(self.routed))
        &&& ordered::increasing(ordered::ranks(self.ipv6))
        &&& ordered::increasing(ordered::ranks(self.sources))
    }

    /// Every known IPv4 (owned and routed).
    pub open spec fn all_ipv4(self) -> Seq<Ipv4Addr> {
        ordered::inserted_all(self.owned, self.routed)
    }

    /// The addresses that stand for the device's identity: the owned ones when
    /// there are any, otherwise the routed ones, which are the only signal left
    /// for a silent static host.
    pub open spec fn identity(self) -> Seq<Ipv4Addr> {
        if self.owned.len() == 0 {
            self.routed
        } else {
            self.owned
        }
    }

    /// The device after an IPv4 address was seen on it. Traffic alone may be
    /// routed; every other source proves ownership.
    pub open spec fn saw_v4(self, ip: Ipv4Addr, src: Source) -> HostView {
        HostView {
            owned: if src == Source::Ipv4Source {
                self.owned
            } else {
                ordered::inserted(self.owned, ip)
            },
            routed: if src == Source::Ipv4Source {
                ordered::inserted(self.routed, ip)
            } else {
                self.routed
            },
            sources: ordered::inserted(self.sources, src),
            ..self
        }
    }

    /// The device after an IPv6 address was seen on it.
    pub open spec fn saw_v6(self, ip: Ipv6Addr) -> HostView {
        HostView {
            ipv6: ordered::inserted(self.ipv6, ip),
            sources: ordered::inserted(self.sources, Source::Ndp),
            ..self
        }
    }

    /// The device with a name, unless it had one.
    pub open spec fn named(self, hostname: Option<Seq<char>>) -> HostView {
        HostView {
            hostname: if self.hostname is None {
                hostname
            } else {
                self.hostname
            },
            ..self
        }
    }

    /// The device after a DHCP message of its was seen. Only the server's ACK
    /// creates an authoritative lease, and only a release ends one.
    pub open spec fn saw_dhcp(self, obs: ObservationView) -> HostView {
        let h = HostView {
            sources: ordered::inserted(self.sources, Source::Dhcp),
            ..self
        }.named(obs.hostname);
        match obs.msg_type {
            MsgType::Ack => match obs.assigned {
                Some(ip) => HostView {
                    lease: Some(
                        LeaseView {
                            ip,
                            hostname: obs.hostname,
                            lease_secs: obs.lease_secs,
                            server: obs.server,
                        },
                    ),
                    owned: ordered::inserted(h.owned, ip),
                    tried_dhcp: true,
                    ..h
                },
                None => HostView { tried_dhcp: true, ..h },
            },
            MsgType::Discover | MsgType::Request | MsgType::Inform | MsgType::Decline => HostView {
                tried_dhcp: true,
                ..h
            },
            MsgType::Release => HostView { tried_dhcp: true, lease: None, ..h },
            _ => h,
        }
    }

    /// The device after an event about it.
    pub open spec fn heard(self, ev: EventView) -> HostView {
        match ev {
            EventView::V4 { ip, src, .. } => self.saw_v4(ip, src),
            EventView::V6 { ip, .. } => self.saw_v6(ip),
            EventView::Dhcp(obs) => self.saw_dhcp(obs),
        }
    }

    /// The device with a lease that the server's file has on record for it.
    pub open spec fn on_record(self, lease: LeaseView) -> HostView {
        HostView { tried_dhcp: true, lease: Some(lease), ..self.named(lease.hostname) }
    }
}

impl Host {
    /// A device of which nothing but its MAC is known.
    pub fn new(mac: MacAddr) -> (r: Host)
        ensures
            r@ == HostView::unknown(mac),
    {
        Host {
            mac,
            ipv4_owned: Vec::new(),
            ipv4_routed: Vec::new(),
            ipv6: Vec::new(),
            sources: Vec::new(),
            hostname: None,
            lease: None,
            tried_dhcp: false,
        }
    }

    /// Every known IPv4 (owned + routed), for display.
    pub fn ipv4_all(&self) -> (r: Vec<Ipv4Addr>)
        ensures
            r@ == self@.all_ipv4(),
    {
        let mut out: Vec<Ipv4Addr> = Vec::new();
        let mut i: usize = 0;
        while i < self.ipv4_owned.len()
            invariant
                i <= self.ipv4_owned.len(),
                out@ == self.ipv4_owned@.take(i as int),
            decreases self.ipv4_owned.len() - i,
        {
            out.push(self.ipv4_owned[i]);
            i = i + 1;
        }
        assert(out@ =~= self.ipv4_owned@);
        let ghost routed = self.ipv4_routed@;
        let mut j: usize = 0;
        assert(routed.take(0) =~= Seq::empty());
        while j < self.ipv4_routed.len()
            invariant
                j <= self.ipv4_routed.len(),
                routed == self.ipv4_routed@,
                out@ == ordered::inserted_all(self.ipv4_owned@, routed.take(j as int)),
            decreases self.ipv4_routed.len() - j,
        {
            assert(routed.take(j + 1).drop_last() =~= routed.take(j as int));
            assert(routed.take(j + 1).last() == routed[j as int]);
            ordered::insert_ranked(&mut out, self.ipv4_routed[j]);
            j = j + 1;
        }
        assert(routed.take(self.ipv4_routed.len() as int) =~= routed);
        out
    }

    /// The addresses that stand for the device's IDENTITY: the owned ones when
    /// there are any; otherwise the routed ones, which are the only signal left
    /// for a silent static host.
    pub fn identity_ipv4(&self) -> (r: &Vec<Ipv4Addr>)
        ensures
            r@ == self@.identity(),
    {
        if self.ipv4_owned.len() == 0 {
            &self.ipv4_routed
        } else {
            &self.ipv4_owned
        }
    }

    fn name_once(&mut self, hostname: &Option<String>)
        ensures
            final(self)@ == old(self)@.named(text::opt_view(*hostname)),
    {
        if self.hostname.is_none() {
            self.hostname = text::clone_opt(hostname);
        }
    }

    fn note_v4(&mut self, ip: Ipv4Addr, src: Source)
        ensures
            final(self)@ == old(self)@.saw_v4(ip, src),
    {
        // ArpReply/Gratuitous/ArpRequest(sender)/Dhcp prove ownership;
        // Ipv4Source is merely observed traffic, possibly routed.
        match src {
            Source::Ipv4Source => ordered::insert_ranked(&mut self.ipv4_routed, ip),
            _ => ordered::insert_ranked(&mut self.ipv4_owned, ip),
        }
        ordered::insert_ranked(&mut self.sources, src);
    }

    fn note_v6(&mut self, ip: Ipv6Addr)
        ensures
            final(self)@ == old(self)@.saw_v6(ip),
    {
        ordered::insert_ranked(&mut self.ipv6, ip);
        ordered::insert_ranked(&mut self.sources, Source::Ndp);
    }

    fn note_dhcp(&mut self, obs: &DhcpObservation)
        ensures
            final(self)@ == old(self)@.saw_dhcp(obs@),
    {
        ordered::insert_ranked(&mut self.sources, Source::Dhcp);
        self.name_once(&obs.hostname);
        match obs.msg_type {
            // Only the server's ACK creates an authoritative lease.
            MsgType::Ack => {
                if let Some(ip) = obs.assigned {
                    self.lease =
                    Some(
                        Lease {
                            ip,
                            hostname: text::clone_opt(&obs.hostname),
                            lease_secs: obs.lease_secs,
                            server: obs.server,
                        },
                    );
                    ordered::insert_ranked(&mut self.ipv4_owned, ip);
                }
                self.tried_dhcp = true;
            },
            MsgType::Discover | MsgType::Request | MsgType::Inform | MsgType::Decline => {
                self.tried_dhcp = true;
            },
            MsgType::Release => {
                self.tried_dhcp = true;
                self.lease = None;
            },
            _ => {},
        }
    }

    fn record(&mut self, lease: Lease)
        ensures
            final(self)@ == old(self)@.on_record(lease@),
    {
        self.tried_dhcp = true;
        self.name_once(&lease.hostname);
        self.lease = Some(lease);
    }
}

// ---------------------------------------------------------------------
// Inventory
// ---------------------------------------------------------------------

/// Every device seen, and the leases of devices that were not. Both lists are in
/// increasing order of the MAC, and no MAC stands in both.
#[derive(Debug)]
pub struct Inventory {
    pub hosts: Vec<Host>,
    /// Leases on record whose MAC never showed up any other way.
    pub orphan_leases: Vec<(MacAddr, Lease)>,
    /// Was a lease file loaded? Only the file is a complete picture of who has a
    /// lease.
    pub lease_file_loaded: bool,
}

/// An [`Inventory`] with its lists as sequences.
#[verifier::ext_equal]
pub struct InventoryView {
    pub hosts: Seq<HostView>,
    pub orphans: Seq<(MacAddr, LeaseView)>,
    pub lease_file_loaded: bool,
}

/// What a list of devices says.
pub open spec fn host_views(v: Seq<Host>) -> Seq<HostView> {
    Seq::new(v.len(), |i: int| v[i]@)
}

impl View for Inventory {
    type V = InventoryView;

    open spec fn view(&self) -> InventoryView {
        InventoryView {
            hosts: host_views(self.hosts@),
            orphans: dhcp::lease_views(self.orphan_leases@),
            lease_file_loaded: self.lease_file_loaded,
        }
    }
}

/// The numbers of the devices' MACs.
pub open spec fn host_keys(hosts: Seq<HostView>) -> Seq<nat> {
    Seq::new(hosts.len(), |i: int| hosts[i].mac.number())
}

/// The numbers of the MACs that leases are on record for.
pub open spec fn lease_keys(leases: Seq<(MacAddr, LeaseView)>) -> Seq<nat> {
    Seq::new(leases.len(), |i: int| leases[i].0.number())
}

impl InventoryView {
    /// Nothing seen and no lease on record.
    pub open spec fn nothing() -> InventoryView {
        InventoryView { hosts: Seq::empty(), orphans: Seq::empty(), lease_file_loaded: false }
    }

    /// Both lists are in order, no MAC stands in both, and each device is in
    /// order too.
    pub open spec fn wf(self) -> bool {
        &&& ordered::increasing(host_keys(self.hosts))
        &&& ordered::increasing(lease_keys(self.orphans))
        &&& forall|i: int, j: int|
            0 <= i < self.hosts.len() && 0 <= j < self.orphans.len()
                ==> #[trigger] host_keys(self.hosts)[i] != #[trigger] lease_keys(self.orphans)[j]
        &&& forall|i: int| 0 <= i < self.hosts.len() ==> (#[trigger] self.hosts[i]).wf()
    }

    /// Where the device stands in the list, or would stand.
    pub open spec fn place(self, mac: MacAddr) -> int {
        ordered::slot(host_keys(self.hosts), mac.number())
    }

    /// Has the device been seen?
    pub open spec fn knows(self, mac: MacAddr) -> bool {
        ordered::present(host_keys(self.hosts), mac.number())
    }

    /// What is known of a device that has been seen.
    pub open spec fn host(self, mac: MacAddr) -> HostView {
        self.hosts[self.place(mac)]
    }

    /// Is a lease on record for a device that was not seen?
    pub open spec fn has_orphan(self, mac: MacAddr) -> bool {
        ordered::present(lease_keys(self.orphans), mac.number())
    }

    /// Where that lease stands in the list, or would stand.
    pub open spec fn orphan_place(self, mac: MacAddr) -> int {
        ordered::slot(lease_keys(self.orphans), mac.number())
    }

    /// What a device starts with when it is first seen: the lease that was on
    /// record for it, if one was.
    pub open spec fn newcomer(self, mac: MacAddr) -> HostView {
        if self.has_orphan(mac) {
            HostView::unknown(mac).on_record(self.orphans[self.orphan_place(mac)].1)
        } else {
            HostView::unknown(mac)
        }
    }

    /// The inventory with the device in it. A lease on record for it is an orphan
    /// no longer.
    pub open spec fn with_seen(self, mac: MacAddr) -> InventoryView {
        if self.knows(mac) {
            self
        } else {
            InventoryView {
                hosts: self.hosts.insert(self.place(mac), self.newcomer(mac)),
                orphans: if self.has_orphan(mac) {
                    self.orphans.remove(self.orphan_place(mac))
                } else {
                    self.orphans
                },
                ..self
            }
        }
    }

    /// The inventory with another state of a device that is in it.
    pub open spec fn with_host(self, mac: MacAddr, h: HostView) -> InventoryView {
        InventoryView { hosts: self.hosts.update(self.place(mac), h), ..self }
    }

    /// The inventory after an event. The broadcast and the all-zero MAC stand for
    /// no device.
    pub open spec fn after(self, ev: EventView) -> InventoryView {
        if ev.mac().is_device() {
            let t = self.with_seen(ev.mac());
            t.with_host(ev.mac(), t.host(ev.mac()).heard(ev))
        } else {
            self
        }
    }

    /// The inventory with one lease from the server's file.
    pub open spec fn with_lease(self, mac: MacAddr, lease: LeaseView) -> InventoryView {
        if self.knows(mac) {
            self.with_host(mac, self.host(mac).on_record(lease))
        } else if self.has_orphan(mac) {
            InventoryView { orphans: self.orphans.update(self.orphan_place(mac), (mac, lease)), ..self }
        } else {
            InventoryView { orphans: self.orphans.insert(self.orphan_place(mac), (mac, lease)), ..self }
        }
    }

    /// The inventory with the leases from the server's file, taken in order.
    pub open spec fn with_leases(self, leases: Seq<(MacAddr, LeaseView)>) -> InventoryView
        decreases leases.len(),
    {
        if leases.len() == 0 {
            self
        } else {
            self.with_leases(leases.drop_last()).with_lease(leases.last().0, leases.last().1)
        }
    }
}

impl Inventory {
    /// An empty inventory.
    pub fn new() -> (r: Inventory)
        ensures
            r@ == InventoryView::nothing(),
            r@.wf(),
    {
        let r = Inventory {
            hosts: Vec::new(),
            orphan_leases: Vec::new(),
            lease_file_loaded: false,
        };
        assert(r@ =~= InventoryView::nothing());
        r
    }

    /// The position of a device: an existing entry, or a new one made for it.
    fn touch(&mut self, mac: MacAddr) -> (r: usize)
        ensures
            final(self)@ == old(self)@.with_seen(mac),
            r == final(self)@.place(mac),
            r < final(self).hosts.len(),
            old(self)@.knows(mac) ==> final(self)@.knows(mac),
    {
        let k: u128 = mac.as_number() as u128;
        let i: usize = ordered::find_slot(&self.hosts, k);
        assert(ordered::ranks(self.hosts@) =~= host_keys(self@.hosts));
        if i < self.hosts.len() && self.hosts[i].mac.as_number() as u128 == k {
            return i;
        }
        let mut h = Host::new(mac);
        let j: usize = ordered::find_slot(&self.orphan_leases, k);
        assert(ordered::ranks(self.orphan_leases@) =~= lease_keys(self@.orphans));
        let ghost before = self@;
        if j < self.orphan_leases.len() && self.orphan_leases[j].0.as_number() as u128 == k {
            let (_, lease) = self.orphan_leases.remove(j);
            assert(self@.orphans =~= before.orphans.remove(j as int));
            h.record(lease);
        }
        self.hosts.insert(i, h);
        assert(self@.hosts =~= before.hosts.insert(i as int, before.newcomer(mac)));
        proof {
            ordered::lemma_slot(host_keys(before.hosts), mac.number());
            let keys = host_keys(self@.hosts);
            assert(keys =~= host_keys(before.hosts).insert(i as int, mac.number()));
            ordered::lemma_slot_is(keys, mac.number(), i as int);
        }
        i
    }

    /// Takes in one event.
    pub fn apply(&mut self, ev: Event)
        ensures
            final(self)@ == old(self)@.after(ev@),
            old(self)@.wf() ==> final(self)@.wf(),
    {
        proof {
            if self@.wf() {
                events_keep_order(self@, ev@);
            }
        }
        match ev {
            Event::V4 { mac, ip, src } => {
                if !mac.names_a_device() {
                    return;
                }
                let i: usize = self.touch(mac);
                let ghost t = self@;
                let mut h = self.hosts.remove(i);
                h.note_v4(ip, src);
                self.hosts.insert(i, h);
                assert(self@.hosts =~= t.hosts.update(i as int, t.hosts[i as int].saw_v4(ip, src)));
            },
            Event::V6 { mac, ip } => {
                if !mac.names_a_device() {
                    return;
                }
                let i: usize = self.touch(mac);
                let ghost t = self@;
                let mut h = self.hosts.remove(i);
                h.note_v6(ip);
                self.hosts.insert(i, h);
                assert(self@.hosts =~= t.hosts.update(i as int, t.hosts[i as int].saw_v6(ip)));
            },
            Event::Dhcp(obs) => {
                self.apply_dhcp(*obs);
            },
        }
    }

    fn apply_dhcp(&mut self, obs: DhcpObservation)
        ensures
            final(self)@ == old(self)@.after(EventView::Dhcp(obs@)),
    {
        let mac = obs.client_mac;
        if !mac.names_a_device() {
            return;
        }
        let i: usize = self.touch(mac);
        let ghost t = self@;
        let mut h = self.hosts.remove(i);
        h.note_dhcp(&obs);
        self.hosts.insert(i, h);
        assert(self@.hosts =~= t.hosts.update(i as int, t.hosts[i as int].saw_dhcp(obs@)));
    }

    fn merge_lease(&mut self, mac: MacAddr, lease: Lease)
        ensures
            final(self)@ == old(self)@.with_lease(mac, lease@),
    {
        let k: u128 = mac.as_number() as u128;
        let i: usize = ordered::find_slot(&self.hosts, k);
        let ghost before = self@;
        assert(ordered::ranks(self.hosts@) =~= host_keys(self@.hosts));
        assert(ordered::ranks(self.orphan_leases@) =~= lease_keys(self@.orphans));
        if i < self.hosts.len() && self.hosts[i].mac.as_number() as u128 == k {
            let mut h = self.hosts.remove(i);
            h.record(lease);
            self.hosts.insert(i, h);
            assert(self@.hosts =~= before.hosts.update(
                i as int,
                before.hosts[i as int].on_record(lease@),
            ));
            return;
        }
        let j: usize = ordered::find_slot(&self.orphan_leases, k);
        if j < self.orphan_leases.len() && self.orphan_leases[j].0.as_number() as u128 == k {
            self.orphan_leases.set(j, (mac, lease));
            assert(self@.orphans =~= before.orphans.update(j as int, (mac, lease@)));
        } else {
            self.orphan_leases.insert(j, (mac, lease));
            assert(self@.orphans =~= before.orphans.insert(j as int, (mac, lease@)));
        }
    }

    /// Injects leases read from a DHCP server's lease file.
    pub fn merge_lease_file(&mut self, leases: Vec<(MacAddr, Lease)>)
        ensures
            final(self)@ == (InventoryView {
                lease_file_loaded: true,
                ..old(self)@.with_leases(dhcp::lease_views(leases@))
            }),
            old(self)@.wf() ==> final(self)@.wf(),
    {
        let ghost all = dhcp::lease_views(leases@);
        let ghost start = self@;
        let mut i: usize = 0;
        assert(all.take(0) =~= Seq::empty());
        while i < leases.len()
            invariant
                i <= leases.len(),
                all == dhcp::lease_views(leases@),
                self@ == start.with_leases(all.take(i as int)),
            decreases leases.len() - i,
        {
            assert(all.take(i + 1).drop_last() =~= all.take(i as int));
            assert(all.take(i + 1).last() == all[i as int]);
            let lease = leases[i].1.clone();
            self.merge_lease(leases[i].0, lease);
            i = i + 1;
        }
        assert(all.take(leases.len() as int) =~= all);
        proof {
            if start.wf() {
                leases_keep_order(start, all);
            }
        }
        self.lease_file_loaded = true;
    }
}

// ---------------------------------------------------------------------
// What holds of every inventory
// ---------------------------------------------------------------------

/// What is known of a device stays in order.
pub proof fn heard_keeps_order(h: HostView, ev: EventView)
    requires
        h.wf(),
    ensures
        h.heard(ev).wf(),
        h.heard(ev).mac == h.mac,
{
    match ev {
        EventView::V4 { ip, src, .. } => {
            ordered::inserted_keeps_order(h.owned, ip);
            ordered::inserted_keeps_order(h.routed, ip);
            ordered::inserted_keeps_order(h.sources, src);
        },
        EventView::V6 { ip, .. } => {
            ordered::inserted_keeps_order(h.ipv6, ip);
            ordered::inserted_keeps_order(h.sources, Source::Ndp);
        },
        EventView::Dhcp(obs) => {
            ordered::inserted_keeps_order(h.sources, Source::Dhcp);
            if let Some(ip) = obs.assigned {
                ordered::inserted_keeps_order(h.owned, ip);
            }
        },
    }
}

/// A device that has been seen is listed under its own MAC.
pub proof fn known_under_its_mac(v: InventoryView, mac: MacAddr)
    requires
        v.knows(mac),
    ensures
        0 <= v.place(mac) < v.hosts.len(),
        v.host(mac).mac == mac,
{
    let keys = host_keys(v.hosts);
    ordered::lemma_slot(keys, mac.number());
    assert(keys[v.place(mac)] == mac.number());
    addr::mac_number_is_injective(v.host(mac).mac, mac);
}

proof fn lemma_knows(v: InventoryView, mac: MacAddr, i: int)
    requires
        v.wf(),
        0 <= i < v.hosts.len(),
        v.hosts[i].mac == mac,
    ensures
        v.knows(mac),
        v.place(mac) == i,
{
    let keys = host_keys(v.hosts);
    assert(keys[i] == mac.number());
    assert forall|j: int| 0 <= j < i implies #[trigger] keys[j] < mac.number() by {
        assert(keys[j] < keys[i]);
    }
    ordered::lemma_slot_is(keys, mac.number(), i);
}

proof fn lemma_newcomer_fits(v: InventoryView, mac: MacAddr)
    requires
        v.wf(),
        !v.knows(mac),
    ensures
        v.with_seen(mac).wf(),
        !v.with_seen(mac).has_orphan(mac),
        0 <= v.place(mac) <= v.hosts.len(),
        v.with_seen(mac).place(mac) == v.place(mac),
        v.with_seen(mac).knows(mac),
{
    let t = v.with_seen(mac);
    let k = mac.number();
    let keys = host_keys(v.hosts);
    let okeys = lease_keys(v.orphans);
    let tkeys = host_keys(t.hosts);
    let tokeys = lease_keys(t.orphans);
    let i = v.place(mac);
    let j = v.orphan_place(mac);
    ordered::lemma_slot(keys, k);
    ordered::lemma_slot(okeys, k);
    ordered::lemma_present(okeys, k);
    assert(tkeys =~= keys.insert(i, k));
    ordered::lemma_insert_keeps_order(keys, k);
    ordered::lemma_slot_is(tkeys, k, i);
    if v.has_orphan(mac) {
        assert(tokeys =~= okeys.remove(j));
        ordered::lemma_remove_keeps_order(okeys, j);
    }
    assert forall|b: int| 0 <= b < t.orphans.len() implies #[trigger] tokeys[b] != k by {
        if v.has_orphan(mac) {
            let c = if b < j { b } else { b + 1 };
            assert(tokeys[b] == okeys[c]);
            if c < j {
                assert(okeys[c] < okeys[j]);
            } else {
                assert(okeys[j] < okeys[c]);
            }
        } else {
            assert(okeys.contains(okeys[b]));
        }
    }
    ordered::lemma_present(tokeys, k);
    assert forall|a: int, b: int| 0 <= a < t.hosts.len() && 0 <= b < t.orphans.len() implies
        #[trigger] tkeys[a] != #[trigger] tokeys[b] by {
        let c = if v.has_orphan(mac) && b >= j { b + 1 } else { b };
        assert(tokeys[b] == okeys[c]);
        if a < i {
            assert(tkeys[a] == keys[a]);
            assert(keys[a] != okeys[c]);
        } else if a > i {
            assert(tkeys[a] == keys[a - 1]);
            assert(keys[a - 1] != okeys[c]);
        }
    }
    assert forall|a: int| 0 <= a < t.hosts.len() implies (#[trigger] t.hosts[a]).wf() by {
        if a < i {
            assert(t.hosts[a] == v.hosts[a]);
        } else if a > i {
            assert(t.hosts[a] == v.hosts[a - 1]);
        } else {
            assert(t.hosts[a] == v.newcomer(mac));
        }
    }
}

proof fn lemma_others_stay(v: InventoryView, mac: MacAddr, m: MacAddr)
    requires
        v.wf(),
        !v.knows(mac),
    ensures
        v.with_seen(mac).knows(m) <==> v.knows(m) || m == mac,
        v.knows(m) ==> v.with_seen(mac).host(m) == v.host(m),
{
    lemma_newcomer_fits(v, mac);
    let t = v.with_seen(mac);
    let i = v.place(mac);
    if v.knows(m) {
        known_under_its_mac(v, m);
        let a = v.place(m);
        let b = if a < i { a } else { a + 1 };
        assert(t.hosts[b] == v.hosts[a]);
        lemma_knows(t, m, b);
    }
    if t.knows(m) && m != mac {
        known_under_its_mac(t, m);
        let a = t.place(m);
        assert(t.hosts[i].mac == mac);
        let b = if a < i { a } else { a - 1 };
        assert(t.hosts[a] == v.hosts[b]);
        lemma_knows(v, m, b);
    }
}

/// First sight of a device keeps the order and leaves the others as they were.
pub proof fn seeing_keeps_order(v: InventoryView, mac: MacAddr)
    requires
        v.wf(),
    ensures
        v.with_seen(mac).wf(),
        v.with_seen(mac).knows(mac),
        !v.with_seen(mac).has_orphan(mac),
        v.with_seen(mac).host(mac) == (if v.knows(mac) {
            v.host(mac)
        } else {
            v.newcomer(mac)
        }),
        forall|m: MacAddr| #[trigger]
            v.with_seen(mac).knows(m) <==> v.knows(m) || m == mac,
        forall|m: MacAddr|
            v.knows(m) ==> #[trigger] v.with_seen(mac).host(m) == v.host(m),
{
    let t = v.with_seen(mac);
    if v.knows(mac) {
        known_under_its_mac(v, mac);
        if v.has_orphan(mac) {
            ordered::lemma_slot(lease_keys(v.orphans), mac.number());
            assert(host_keys(v.hosts)[v.place(mac)] != lease_keys(v.orphans)[v.orphan_place(mac)]);
        }
    } else {
        lemma_newcomer_fits(v, mac);
        assert forall|m: MacAddr| #[trigger] t.knows(m) <==> v.knows(m) || m == mac by {
            lemma_others_stay(v, mac, m);
        }
        assert forall|m: MacAddr| v.knows(m) implies #[trigger] t.host(m) == v.host(m) by {
            lemma_others_stay(v, mac, m);
        }
    }
}

/// A new state of one device keeps the order and leaves the others as they were.
pub proof fn updating_keeps_order(v: InventoryView, mac: MacAddr, h: HostView)
    requires
        v.wf(),
        v.knows(mac),
        h.wf(),
        h.mac == mac,
    ensures
        v.with_host(mac, h).wf(),
        v.with_host(mac, h).host(mac) == h,
        forall|m: MacAddr| #[trigger] v.with_host(mac, h).knows(m) <==> v.knows(m),
        forall|m: MacAddr|
            v.knows(m) && m != mac ==> #[trigger] v.with_host(mac, h).host(m) == v.host(m),
{
    known_under_its_mac(v, mac);
    let t = v.with_host(mac, h);
    assert(host_keys(t.hosts) =~= host_keys(v.hosts));
    assert forall|m: MacAddr| v.knows(m) && m != mac implies #[trigger] t.host(m) == v.host(m) by {
        known_under_its_mac(v, m);
    }
}

/// No event ever breaks the order of an inventory.
pub proof fn events_keep_order(v: InventoryView, ev: EventView)
    requires
        v.wf(),
    ensures
        v.after(ev).wf(),
{
    if ev.mac().is_device() {
        seeing_keeps_order(v, ev.mac());
        let t = v.with_seen(ev.mac());
        known_under_its_mac(t, ev.mac());
        heard_keeps_order(t.host(ev.mac()), ev);
        updating_keeps_order(t, ev.mac(), t.host(ev.mac()).heard(ev));
    }
}

/// An event changes what is known of its own device, from whatever was known of it
/// before, and of no other.
pub proof fn events_touch_one_device(v: InventoryView, ev: EventView)
    requires
        v.wf(),
        ev.mac().is_device(),
    ensures
        v.after(ev).knows(ev.mac()),
        v.after(ev).host(ev.mac()) == (if v.knows(ev.mac()) {
            v.host(ev.mac())
        } else {
            v.newcomer(ev.mac())
        }).heard(ev),
        !v.after(ev).has_orphan(ev.mac()),
        forall|m: MacAddr|
            #![trigger v.after(ev).knows(m)]
            m != ev.mac() ==> v.after(ev).knows(m) == v.knows(m),
        forall|m: MacAddr|
            #![trigger v.after(ev).host(m)]
            m != ev.mac() && v.knows(m) ==> v.after(ev).host(m) == v.host(m),
{
    let mac = ev.mac();
    seeing_keeps_order(v, mac);
    let t = v.with_seen(mac);
    known_under_its_mac(t, mac);
    heard_keeps_order(t.host(mac), ev);
    updating_keeps_order(t, mac, t.host(mac).heard(ev));
}

/// The broadcast address and the all-zero address never become a device.
pub proof fn no_device_no_change(v: InventoryView, ev: EventView)
    requires
        !ev.mac().is_device(),
    ensures
        v.after(ev) == v,
{
}

/// An event forgets no address and no source of a device.
pub proof fn nothing_seen_is_forgotten(h: HostView, ev: EventView)
    requires
        h.wf(),
    ensures
        forall|ip: Ipv4Addr| #[trigger]
            ordered::ranks(h.owned).contains(ip.rank()) ==> ordered::ranks(
                h.heard(ev).owned,
            ).contains(ip.rank()),
        forall|ip: Ipv4Addr| #[trigger]
            ordered::ranks(h.routed).contains(ip.rank()) ==> ordered::ranks(
                h.heard(ev).routed,
            ).contains(ip.rank()),
        forall|ip: Ipv6Addr| #[trigger]
            ordered::ranks(h.ipv6).contains(ip.rank()) ==> ordered::ranks(
                h.heard(ev).ipv6,
            ).contains(ip.rank()),
        forall|s: Source| #[trigger]
            ordered::ranks(h.sources).contains(s.rank()) ==> ordered::ranks(
                h.heard(ev).sources,
            ).contains(s.rank()),
{
    match ev {
        EventView::V4 { ip, src, .. } => {
            ordered::inserted_keeps_order(h.owned, ip);
            ordered::inserted_keeps_order(h.routed, ip);
            ordered::inserted_keeps_order(h.sources, src);
        },
        EventView::V6 { ip, .. } => {
            ordered::inserted_keeps_order(h.ipv6, ip);
            ordered::inserted_keeps_order(h.sources, Source::Ndp);
        },
        EventView::Dhcp(obs) => {
            ordered::inserted_keeps_order(h.sources, Source::Dhcp);
            if let Some(ip) = obs.assigned {
                ordered::inserted_keeps_order(h.owned, ip);
            }
        },
    }
}

/// Only a server's ACK that grants an address gives a device a lease, and only a
/// release takes one away.
pub proof fn only_an_ack_grants_a_lease(h: HostView, ev: EventView)
    ensures
        h.heard(ev).lease != h.lease ==> ev is Dhcp && (ev->0.msg_type == MsgType::Ack
            && ev->0.assigned is Some || ev->0.msg_type == MsgType::Release),
        h.heard(ev).lease is Some && h.lease is None ==> ev is Dhcp && ev->0.msg_type
            == MsgType::Ack,
        h.lease is Some && h.heard(ev).lease is None ==> ev is Dhcp && ev->0.msg_type
            == MsgType::Release,
{
}

/// One lease from the file keeps the order: it goes to the device that it names, or
/// on record where that device was never seen.
pub proof fn lease_keeps_order(v: InventoryView, mac: MacAddr, lease: LeaseView)
    requires
        v.wf(),
    ensures
        v.with_lease(mac, lease).wf(),
        v.knows(mac) ==> v.with_lease(mac, lease).host(mac).lease == Some(lease),
        !v.knows(mac) ==> {
            let t = v.with_lease(mac, lease);
            t.has_orphan(mac) && t.orphans[t.orphan_place(mac)] == (mac, lease)
        },
        forall|m: MacAddr| #[trigger] v.with_lease(mac, lease).knows(m) <==> v.knows(m),
{
    let t = v.with_lease(mac, lease);
    let k = mac.number();
    let keys = host_keys(v.hosts);
    let okeys = lease_keys(v.orphans);
    ordered::lemma_slot(keys, k);
    ordered::lemma_slot(okeys, k);
    ordered::lemma_present(keys, k);
    let i = v.place(mac);
    let j = v.orphan_place(mac);
    if v.knows(mac) {
        known_under_its_mac(v, mac);
        updating_keeps_order(v, mac, v.host(mac).on_record(lease));
    } else {
        let tokeys = lease_keys(t.orphans);
        if v.has_orphan(mac) {
            assert(tokeys =~= okeys);
        } else {
            assert(tokeys =~= okeys.insert(j, k));
            ordered::lemma_insert_keeps_order(okeys, k);
            ordered::lemma_slot_is(tokeys, k, j);
        }
        assert forall|a: int, b: int| 0 <= a < t.hosts.len() && 0 <= b < t.orphans.len() implies
            #[trigger] host_keys(t.hosts)[a] != #[trigger] tokeys[b] by {
            assert(keys.contains(keys[a]));
            assert(keys[a] != k);
            if tokeys[b] != k {
                let c = if v.has_orphan(mac) || b < j { b } else { b - 1 };
                assert(tokeys[b] == okeys[c]);
                assert(keys[a] != okeys[c]);
            }
        }
    }
}

/// Loading a lease file keeps the order and adds no device.
pub proof fn leases_keep_order(v: InventoryView, leases: Seq<(MacAddr, LeaseView)>)
    requires
        v.wf(),
    ensures
        v.with_leases(leases).wf(),
        forall|m: MacAddr| #[trigger] v.with_leases(leases).knows(m) <==> v.knows(m),
    decreases leases.len(),
{
    if leases.len() > 0 {
        leases_keep_order(v, leases.drop_last());
        let t = v.with_leases(leases.drop_last());
        lease_keeps_order(t, leases.last().0, leases.last().1);
        assert forall|m: MacAddr| #[trigger] v.with_leases(leases).knows(m) <==> v.knows(m) by {
            assert(t.with_lease(leases.last().0, leases.last().1).knows(m) <==> t.knows(m));
        }
    }
}

/// A lease that was on record for a device that no frame had shown is the device's
/// own as soon as one does, and on record for a missing device no longer.
pub proof fn a_lease_is_orphaned_only_while_unseen(v: InventoryView, ev: EventView)
    requires
        v.wf(),
        v.has_orphan(ev.mac()),
        ev.mac().is_device(),
    ensures
        v.newcomer(ev.mac()).lease == Some(v.orphans[v.orphan_place(ev.mac())].1),
        v.after(ev).host(ev.mac()) == v.newcomer(ev.mac()).heard(ev),
        !v.after(ev).has_orphan(ev.mac()),
{
    let mac = ev.mac();
    ordered::lemma_slot(lease_keys(v.orphans), mac.number());
    if v.knows(mac) {
        ordered::lemma_slot(host_keys(v.hosts), mac.number());
        assert(host_keys(v.hosts)[v.place(mac)] != lease_keys(v.orphans)[v.orphan_place(mac)]);
    }
    events_touch_one_device(v, ev);
}

/// A device has an address that stands for it exactly when some address is known
/// of it at all.
pub proof fn identity_needs_an_address(h: HostView)
    requires
        h.wf(),
    ensures
        h.identity().len() == 0 <==> h.all_ipv4().len() == 0,
{
    ordered::inserted_all_is_union(h.owned, h.routed);
    let all = ordered::ranks(h.all_ipv4());
    if h.owned.len() > 0 {
        assert(ordered::ranks(h.owned).contains(ordered::ranks(h.owned)[0]));
        assert(all.contains(ordered::ranks(h.owned)[0]));
    } else if h.routed.len() > 0 {
        assert(ordered::ranks(h.routed).contains(ordered::ranks(h.routed)[0]));
        assert(all.contains(ordered::ranks(h.routed)[0]));
    }
}

/// Every address known of a device is one that it owns or one that it routes.
pub proof fn all_is_owned_and_routed(h: HostView, ip: Ipv4Addr)
    ensures
        h.all_ipv4().contains(ip) <==> h.owned.contains(ip) || h.routed.contains(ip),
{
    ordered::inserted_all_holds(h.owned, h.routed, ip);
}

/// What stands for a device: an address that it owns, or, where it owns none at all,
/// one that it routes.
pub proof fn owning_outweighs_routing(h: HostView, ip: Ipv4Addr)
    ensures
        h.identity().contains(ip) <==> h.owned.contains(ip) || (h.routed.contains(ip) && forall|
            x: Ipv4Addr,
        |
            !#[trigger] h.owned.contains(x)),
{
    if h.owned.len() > 0 {
        assert(h.owned.contains(h.owned[0]));
    }
}

/// No address that a device was heard with is thrown away. Traffic alone makes it a
/// routed one and every other source an owned one; no other address is added, and
/// nothing else about the device changes but for the source.
pub proof fn an_address_heard_is_known(h: HostView, mac: MacAddr, ip: Ipv4Addr, src: Source)
    ensures
        ({
            let g = h.heard(EventView::V4 { mac, ip, src });
            &&& src == Source::Ipv4Source ==> g.routed.contains(ip) && g.owned == h.owned
            &&& src != Source::Ipv4Source ==> g.owned.contains(ip) && g.routed == h.routed
            &&& forall|x: Ipv4Addr|
                #![trigger g.owned.contains(x)]
                #![trigger h.owned.contains(x)]
                g.owned.contains(x) <==> h.owned.contains(x) || (x == ip && src
                    != Source::Ipv4Source)
            &&& forall|x: Ipv4Addr|
                #![trigger g.routed.contains(x)]
                #![trigger h.routed.contains(x)]
                g.routed.contains(x) <==> h.routed.contains(x) || (x == ip && src
                    == Source::Ipv4Source)
            &&& forall|s: Source|
                #![trigger g.sources.contains(s)]
                #![trigger h.sources.contains(s)]
                g.sources.contains(s) <==> h.sources.contains(s) || s == src
            &&& g.all_ipv4().contains(ip)
            &&& g.mac == h.mac && g.ipv6 == h.ipv6 && g.hostname == h.hostname && g.lease
                == h.lease && g.tried_dhcp == h.tried_dhcp
        }),
{
    let g = h.heard(EventView::V4 { mac, ip, src });
    ordered::inserted_holds(h.owned, ip, ip);
    ordered::inserted_holds(h.routed, ip, ip);
    assert forall|x: Ipv4Addr|
        #![trigger g.owned.contains(x)]
        #![trigger h.owned.contains(x)]
        g.owned.contains(x) <==> h.owned.contains(x) || (x == ip && src != Source::Ipv4Source) by {
        ordered::inserted_holds(h.owned, ip, x);
    }
    assert forall|x: Ipv4Addr|
        #![trigger g.routed.contains(x)]
        #![trigger h.routed.contains(x)]
        g.routed.contains(x) <==> h.routed.contains(x) || (x == ip && src == Source::Ipv4Source) by {
        ordered::inserted_holds(h.routed, ip, x);
    }
    assert forall|s: Source|
        #![trigger g.sources.contains(s)]
        #![trigger h.sources.contains(s)]
        g.sources.contains(s) <==> h.sources.contains(s) || s == src by {
        ordered::inserted_holds(h.sources, src, s);
    }
    all_is_owned_and_routed(g, ip);
}

/// An IPv6 address that a device was heard with is kept, and shows that it is alive;
/// nothing else about the device changes.
pub proof fn an_ipv6_address_heard_is_known(h: HostView, mac: MacAddr, ip: Ipv6Addr)
    ensures
        ({
            let g = h.heard(EventView::V6 { mac, ip });
            &&& forall|x: Ipv6Addr|
                #![trigger g.ipv6.contains(x)]
                #![trigger h.ipv6.contains(x)]
                g.ipv6.contains(x) <==> h.ipv6.contains(x) || x == ip
            &&& forall|s: Source|
                #![trigger g.sources.contains(s)]
                #![trigger h.sources.contains(s)]
                g.sources.contains(s) <==> h.sources.contains(s) || s == Source::Ndp
            &&& g.mac == h.mac && g.owned == h.owned && g.routed == h.routed && g.hostname
                == h.hostname && g.lease == h.lease && g.tried_dhcp == h.tried_dhcp
        }),
{
    let g = h.heard(EventView::V6 { mac, ip });
    assert forall|x: Ipv6Addr|
        #![trigger g.ipv6.contains(x)]
        #![trigger h.ipv6.contains(x)]
        g.ipv6.contains(x) <==> h.ipv6.contains(x) || x == ip by {
        ordered::inserted_holds(h.ipv6, ip, x);
    }
    assert forall|s: Source|
        #![trigger g.sources.contains(s)]
        #![trigger h.sources.contains(s)]
        g.sources.contains(s) <==> h.sources.contains(s) || s == Source::Ndp by {
        ordered::inserted_holds(h.sources, Source::Ndp, s);
    }
}

/// What a DHCP message tells of its client. An ACK makes the address that it grants a
/// lease, on its terms, and an address of the device; a release ends the lease. The
/// first name heard stays. Whatever only a client sends shows that it asked for an
/// address, and so does an ACK.
pub proof fn a_dhcp_message_heard_is_known(h: HostView, obs: ObservationView)
    ensures
        ({
            let g = h.heard(EventView::Dhcp(obs));
            let granted = obs.msg_type == MsgType::Ack && obs.assigned is Some;
            &&& granted ==> g.lease is Some && (g.lease->0).ip == obs.assigned->0 && (g.lease->0).hostname
                == obs.hostname && (g.lease->0).lease_secs == obs.lease_secs && (g.lease->0).server
                == obs.server
            &&& obs.msg_type == MsgType::Release ==> g.lease is None
            &&& !granted && obs.msg_type != MsgType::Release ==> g.lease == h.lease
            &&& forall|x: Ipv4Addr|
                #![trigger g.owned.contains(x)]
                #![trigger h.owned.contains(x)]
                g.owned.contains(x) <==> h.owned.contains(x) || (granted && x == obs.assigned->0)
            &&& g.hostname == (if h.hostname is Some {
                h.hostname
            } else {
                obs.hostname
            })
            &&& g.tried_dhcp <==> h.tried_dhcp || obs.msg_type is Discover
                || obs.msg_type is Request || obs.msg_type is Inform || obs.msg_type is Decline
                || obs.msg_type is Release || obs.msg_type is Ack
            &&& forall|s: Source|
                #![trigger g.sources.contains(s)]
                #![trigger h.sources.contains(s)]
                g.sources.contains(s) <==> h.sources.contains(s) || s == Source::Dhcp
            &&& g.mac == h.mac && g.routed == h.routed && g.ipv6 == h.ipv6
        }),
{
    let g = h.heard(EventView::Dhcp(obs));
    let granted = obs.msg_type == MsgType::Ack && obs.assigned is Some;
    assert forall|x: Ipv4Addr|
        #![trigger g.owned.contains(x)]
        #![trigger h.owned.contains(x)]
        g.owned.contains(x) <==> h.owned.contains(x) || (granted && x == obs.assigned->0) by {
        if let Some(ip) = obs.assigned {
            ordered::inserted_holds(h.owned, ip, x);
        }
    }
    assert forall|s: Source|
        #![trigger g.sources.contains(s)]
        #![trigger h.sources.contains(s)]
        g.sources.contains(s) <==> h.sources.contains(s) || s == Source::Dhcp by {
        ordered::inserted_holds(h.sources, Source::Dhcp, s);
    }
}

/// A lease on record makes a device that has it one that asked for an address, under
/// the name of the lease where it had none; nothing else about it changes.
pub proof fn a_lease_on_record_is_the_devices(h: HostView, l: LeaseView)
    ensures
        ({
            let g = h.on_record(l);
            &&& g.lease == Some(l)
            &&& g.tried_dhcp
            &&& g.hostname == (if h.hostname is Some {
                h.hostname
            } else {
                l.hostname
            })
            &&& g.mac == h.mac && g.owned == h.owned && g.routed == h.routed && g.ipv6 == h.ipv6
                && g.sources == h.sources
        }),
{
}

/// A device first heard of an address, with no lease on record for it, is in the
/// inventory with that address and no other.
pub proof fn a_first_sight_is_recorded(v: InventoryView, mac: MacAddr, ip: Ipv4Addr, src: Source)
    requires
        v.wf(),
        mac.is_device(),
        !v.knows(mac),
    ensures
        ({
            let t = v.after(EventView::V4 { mac, ip, src });
            let h = t.host(mac);
            &&& t.hosts.len() == v.hosts.len() + 1
            &&& t.hosts.contains(h)
            &&& h.mac == mac
            &&& h.all_ipv4().contains(ip)
            &&& h.identity().contains(ip)
            &&& forall|x: Ipv4Addr| #[trigger] h.all_ipv4().contains(x) ==> x == ip
            &&& h.sources.contains(src)
            &&& t.lease_file_loaded == v.lease_file_loaded
        }),
{
    let ev = EventView::V4 { mac, ip, src };
    let t = v.after(ev);
    events_touch_one_device(v, ev);
    events_keep_order(v, ev);
    known_under_its_mac(t, mac);
    let before = v.newcomer(mac);
    an_address_heard_is_known(before, mac, ip, src);
    let h = t.host(mac);
    assert(h == before.heard(ev));
    seeing_keeps_order(v, mac);
    known_under_its_mac(v.with_seen(mac), mac);
    ordered::lemma_slot(host_keys(v.hosts), mac.number());
    assert(h.sources.contains(src));
    assert forall|x: Ipv4Addr| #[trigger] h.all_ipv4().contains(x) implies x == ip by {
        all_is_owned_and_routed(h, x);
        assert(h.owned.contains(x) ==> before.owned.contains(x) || x == ip);
        assert(h.routed.contains(x) ==> before.routed.contains(x) || x == ip);
    }
    if src == Source::Ipv4Source {
        assert forall|x: Ipv4Addr| !#[trigger] h.owned.contains(x) by {
            assert(!before.owned.contains(x));
        }
    }
    owning_outweighs_routing(h, ip);
    assert(t.hosts[t.place(mac)] == h);
}

/// Every lease of the file is on record: with the device that it names, where that was
/// seen, and by itself otherwise. Of several for one device the last one counts.
pub proof fn every_lease_is_on_record(
    v: InventoryView,
    leases: Seq<(MacAddr, LeaseView)>,
    i: int,
)
    requires
        v.wf(),
        0 <= i < leases.len(),
        forall|j: int| i < j < leases.len() ==> (#[trigger] leases[j]).0 != leases[i].0,
    ensures
        v.knows(leases[i].0) ==> v.with_leases(leases).host(leases[i].0).lease == Some(
            leases[i].1,
        ),
        !v.knows(leases[i].0) ==> v.with_leases(leases).orphans.contains(leases[i]),
    decreases leases.len(),
{
    let init = leases.drop_last();
    let t = v.with_leases(init);
    let (m, l) = leases.last();
    let mac = leases[i].0;
    leases_keep_order(v, init);
    leases_keep_order(v, leases);
    lease_keeps_order(t, m, l);
    assert(t.knows(mac) == v.knows(mac));
    assert(t.knows(m) == v.knows(m));
    if i < init.len() {
        assert(init[i] == leases[i]);
        assert forall|j: int| i < j < init.len() implies (#[trigger] init[j]).0 != init[i].0 by {
            assert(init[j] == leases[j]);
        }
        every_lease_is_on_record(v, init, i);
        assert(leases[leases.len() - 1].0 != mac);
        if v.knows(mac) {
            known_under_its_mac(t, mac);
            if t.knows(m) {
                known_under_its_mac(t, m);
                updating_keeps_order(t, m, t.host(m).on_record(l));
            }
        } else {
            let k = choose|k: int| 0 <= k < t.orphans.len() && t.orphans[k] == leases[i];
            let u = t.with_lease(m, l);
            let p = t.orphan_place(m);
            ordered::lemma_slot(lease_keys(t.orphans), m.number());
            if t.knows(m) {
                assert(u.orphans[k] == leases[i]);
            } else if t.has_orphan(m) {
                assert(lease_keys(t.orphans)[p] == m.number());
                assert(lease_keys(t.orphans)[k] == mac.number());
                if k == p {
                    addr::mac_number_is_injective(m, mac);
                }
                assert(u.orphans[k] == leases[i]);
            } else {
                assert(u.orphans[if k < p { k } else { k + 1 }] == leases[i]);
            }
        }
    } else {
        let u = t.with_lease(m, l);
        if !v.knows(mac) {
            ordered::lemma_slot(lease_keys(u.orphans), m.number());
            assert(u.orphans[u.orphan_place(m)] == (m, l));
            assert(u.orphans.contains((m, l)));
        }
    }
}

/// A lease file changes nothing about a device that it does not name, and puts no lease
/// on record that it does not hold.
pub proof fn a_lease_file_tells_only_what_it_holds(
    v: InventoryView,
    leases: Seq<(MacAddr, LeaseView)>,
    mac: MacAddr,
    l: LeaseView,
)
    requires
        v.wf(),
        forall|j: int| 0 <= j < leases.len() ==> (#[trigger] leases[j]).0 != mac,
    ensures
        v.knows(mac) ==> v.with_leases(leases).host(mac) == v.host(mac),
        v.with_leases(leases).orphans.contains((mac, l)) <==> v.orphans.contains((mac, l)),
        v.with_leases(leases).hosts.len() == v.hosts.len(),
    decreases leases.len(),
{
    if leases.len() > 0 {
        let init = leases.drop_last();
        let t = v.with_leases(init);
        let (m, x) = leases.last();
        assert(leases[leases.len() - 1].0 != mac);
        assert forall|j: int| 0 <= j < init.len() implies (#[trigger] init[j]).0 != mac by {
            assert(init[j] == leases[j]);
        }
        leases_keep_order(v, init);
        a_lease_file_tells_only_what_it_holds(v, init, mac, l);
        let u = t.with_lease(m, x);
        assert(t.knows(mac) == v.knows(mac));
        let p = t.orphan_place(m);
        ordered::lemma_slot(lease_keys(t.orphans), m.number());
        if t.knows(m) {
            known_under_its_mac(t, m);
            updating_keeps_order(t, m, t.host(m).on_record(x));
        } else if t.has_orphan(m) {
            assert(lease_keys(t.orphans)[p] == m.number());
            addr::mac_number_is_injective(t.orphans[p].0, m);
            assert(t.orphans[p].0 != mac);
            if t.orphans.contains((mac, l)) {
                let k = choose|k: int| 0 <= k < t.orphans.len() && t.orphans[k] == (mac, l);
                assert(u.orphans[k] == (mac, l));
            }
            if u.orphans.contains((mac, l)) {
                let k = choose|k: int| 0 <= k < u.orphans.len() && u.orphans[k] == (mac, l);
                assert(t.orphans[k] == (mac, l));
            }
        } else {
            if t.orphans.contains((mac, l)) {
                let k = choose|k: int| 0 <= k < t.orphans.len() && t.orphans[k] == (mac, l);
                assert(u.orphans[if k < p { k } else { k + 1 }] == (mac, l));
            }
            if u.orphans.contains((mac, l)) {
                let k = choose|k: int| 0 <= k < u.orphans.len() && u.orphans[k] == (mac, l);
                if k != p {
                    assert(t.orphans[if k < p { k } else { k - 1 }] == (mac, l));
                }
            }
        }
    }
}

/// The MACs that stand for a device: all but the broadcast and the all-zero one.
pub proof fn two_macs_are_no_device(mac: MacAddr)
    ensures
        !mac.is_device() <==> mac == MacAddr(0, 0, 0, 0, 0, 0) || mac == MacAddr(
            255,
            255,
            255,
            255,
            255,
            255,
        ),
{
}

} // verus!
