//! Who we are on the network: choosing an interface and reading its addresses.
use crate::addr::{Ipv4Addr, Ipv6Addr, MacAddr};
use crate::error::{Error, ErrorView};
use crate::net::Ipv4Net;
use crate::ordered;
use crate::text;
use vstd::prelude::*;

verus! {

broadcast use vstd::seq::group_seq_axioms;

/// An address that an interface holds.
#[allow(inconsistent_fields)]
#[derive(Debug, Clone, Copy)]
pub enum IfaceAddr {
    V4 { addr: Ipv4Addr, prefix_len: u8 },
    V6 { addr: Ipv6Addr },
}

/// A network interface, as the system lists it.
#[derive(Debug)]
pub struct Interface {
    pub name: String,
    pub index: u32,
    pub mac: Option<MacAddr>,
    pub up: bool,
    pub loopback: bool,
    pub ips: Vec<IfaceAddr>,
}

/// An [`Interface`] with its text as characters.
#[verifier::ext_equal]
pub struct InterfaceView {
    pub name: Seq<char>,
    pub index: u32,
    pub mac: Option<MacAddr>,
    pub up: bool,
    pub loopback: bool,
    pub ips: Seq<IfaceAddr>,
}

impl View for Interface {
    type V = InterfaceView;

    open spec fn view(&self) -> InterfaceView {
        InterfaceView {
            name: self.name@,
            index: self.index,
            mac: self.mac,
            up: self.up,
            loopback: self.loopback,
            ips: self.ips@,
        }
    }
}

/// What a list of interfaces says.
pub open spec fn interface_views(v: Seq<Interface>) -> Seq<InterfaceView> {
    Seq::new(v.len(), |i: int| v[i]@)
}

/// Local facts the rest of the program needs: who we are on the network.
#[derive(Debug)]
pub struct Local {
    /// The interface's name.
    pub name: String,
    /// The interface's number.
    pub index: u32,
    pub mac: MacAddr,
    /// The interface's IPv4. `None` when the machine holds no address on the
    /// network: routine in the field, on a network with no DHCP server. A sweep
    /// with the default `spa` (probe, sender 0.0.0.0) needs no address.
    pub ipv4: Option<Ipv4Addr>,
    /// The interface's subnet, truncated. `None` without IPv4, and also when the
    /// address is APIPA: 169.254/16 is a symptom of missing DHCP, not the
    /// network's subnet. Using it as a baseline would invent a network.
    pub net: Option<Ipv4Net>,
    pub link_local: Option<Ipv6Addr>,
}

/// A [`Local`] with its text as characters.
pub struct LocalView {
    pub name: Seq<char>,
    pub index: u32,
    pub mac: MacAddr,
    pub ipv4: Option<Ipv4Addr>,
    pub net: Option<Ipv4Net>,
    pub link_local: Option<Ipv6Addr>,
}

impl View for Local {
    type V = LocalView;

    open spec fn view(&self) -> LocalView {
        LocalView {
            name: self.name@,
            index: self.index,
            mac: self.mac,
            ipv4: self.ipv4,
            net: self.net,
            link_local: self.link_local,
        }
    }
}

impl Clone for Local {
    fn clone(&self) -> (r: Local)
        ensures
            r@ == self@,
    {
        Local {
            name: self.name.clone(),
            index: self.index,
            mac: self.mac,
            ipv4: self.ipv4,
            net: self.net,
            link_local: self.link_local,
        }
    }
}

/// Is the network written with a 169.254/16 address?
pub open spec fn apipa_net(n: Ipv4Net) -> bool {
    n.addr.octet(0) == 169 && n.addr.octet(1) == 254
}

/// 169.254/16: automatic link-local, assigned by the system when DHCP fails.
/// It is not the network's subnet: no good as a baseline nor as a sweep target.
pub fn is_apipa_net(n: &Ipv4Net) -> (r: bool)
    ensures
        r == apipa_net(*n),
{
    let o: [u8; 4] = n.addr.octets();
    o[0] == 169 && o[1] == 254
}

/// The first of the addresses that is an IPv4 with a proper prefix, and the
/// network around it.
pub open spec fn first_ipv4(ips: Seq<IfaceAddr>) -> Option<(Ipv4Addr, Ipv4Net)>
    decreases ips.len(),
{
    if ips.len() == 0 {
        None
    } else {
        match ips[0] {
            IfaceAddr::V4 { addr, prefix_len } => if prefix_len <= 32 {
                Some((addr, (Ipv4Net { addr, prefix_len }).truncated()))
            } else {
                first_ipv4(ips.drop_first())
            },
            IfaceAddr::V6 { .. } => first_ipv4(ips.drop_first()),
        }
    }
}

/// The first of the addresses that is an IPv6 link-local one.
pub open spec fn first_link_local(ips: Seq<IfaceAddr>) -> Option<Ipv6Addr>
    decreases ips.len(),
{
    if ips.len() == 0 {
        None
    } else {
        match ips[0] {
            IfaceAddr::V6 { addr } => if addr.link_local() {
                Some(addr)
            } else {
                first_link_local(ips.drop_first())
            },
            IfaceAddr::V4 { .. } => first_link_local(ips.drop_first()),
        }
    }
}

fn find_ipv4(ips: &Vec<IfaceAddr>) -> (r: Option<(Ipv4Addr, Ipv4Net)>)
    ensures
        r == first_ipv4(ips@),
        r matches Some((_, n)) ==> n.wf(),
{
    let mut i: usize = 0;
    assert(ips@.skip(0) =~= ips@);
    while i < ips.len()
        invariant
            i <= ips.len(),
            first_ipv4(ips@.skip(i as int)) == first_ipv4(ips@),
        decreases ips.len() - i,
    {
        assert(ips@.skip(i as int)[0] == ips@[i as int]);
        assert(ips@.skip(i as int).drop_first() =~= ips@.skip(i + 1));
        if let IfaceAddr::V4 { addr, prefix_len } = ips[i] {
            if let Some(n) = Ipv4Net::new(addr, prefix_len) {
                return Some((addr, n.trunc()));
            }
        }
        i = i + 1;
    }
    assert(ips@.skip(ips.len() as int) =~= Seq::empty());
    None
}

fn find_link_local(ips: &Vec<IfaceAddr>) -> (r: Option<Ipv6Addr>)
    ensures
        r == first_link_local(ips@),
{
    let mut i: usize = 0;
    assert(ips@.skip(0) =~= ips@);
    while i < ips.len()
        invariant
            i <= ips.len(),
            first_link_local(ips@.skip(i as int)) == first_link_local(ips@),
        decreases ips.len() - i,
    {
        assert(ips@.skip(i as int)[0] == ips@[i as int]);
        assert(ips@.skip(i as int).drop_first() =~= ips@.skip(i + 1));
        if let IfaceAddr::V6 { addr } = ips[i] {
            if addr.is_link_local() {
                return Some(addr);
            }
        }
        i = i + 1;
    }
    assert(ips@.skip(ips.len() as int) =~= Seq::empty());
    None
}

/// Does the interface hold an IPv4 address of any kind?
pub open spec fn holds_ipv4(i: InterfaceView) -> bool {
    exists|k: int| 0 <= k < i.ips.len() && (#[trigger] i.ips[k]) is V4
}

/// Could the interface be swept from: up, no loopback, with a hardware address?
pub open spec fn usable(i: InterfaceView) -> bool {
    i.up && !i.loopback && i.mac is Some
}

/// The first of the interfaces with that name.
pub open spec fn by_name(all: Seq<InterfaceView>, name: Seq<char>) -> Option<InterfaceView>
    decreases all.len(),
{
    if all.len() == 0 {
        None
    } else if all[0].name == name {
        Some(all[0])
    } else {
        by_name(all.drop_first(), name)
    }
}

/// The first of the interfaces that could be used, and holds an IPv4 address where
/// that is asked for.
pub open spec fn first_usable(all: Seq<InterfaceView>, with_ipv4: bool) -> Option<InterfaceView>
    decreases all.len(),
{
    if all.len() == 0 {
        None
    } else if usable(all[0]) && (with_ipv4 ==> holds_ipv4(all[0])) {
        Some(all[0])
    } else {
        first_usable(all.drop_first(), with_ipv4)
    }
}

/// The interface to use: the named one, or the first usable one with an IPv4
/// address, or the first usable one. An address is preferred but not required: on
/// a network without DHCP the card stays address-less and can still sweep.
pub open spec fn chosen(all: Seq<InterfaceView>, name: Option<Seq<char>>) -> Result<
    InterfaceView,
    ErrorView,
> {
    match name {
        Some(n) => match by_name(all, n) {
            Some(i) => Ok(i),
            None => Err(ErrorView::InterfaceNotFound { name: n }),
        },
        None => match first_usable(all, true) {
            Some(i) => Ok(i),
            None => match first_usable(all, false) {
                Some(i) => Ok(i),
                None => Err(ErrorView::NoActiveInterface),
            },
        },
    }
}

/// What we are on an interface.
pub open spec fn local_on(i: InterfaceView) -> Result<LocalView, ErrorView> {
    match i.mac {
        None => Err(ErrorView::NoMac { name: i.name }),
        Some(mac) => Ok(
            LocalView {
                name: i.name,
                index: i.index,
                mac,
                ipv4: match first_ipv4(i.ips) {
                    Some((addr, _)) => Some(addr),
                    None => None,
                },
                net: match first_ipv4(i.ips) {
                    Some((_, n)) => if apipa_net(n) {
                        None
                    } else {
                        Some(n)
                    },
                    None => None,
                },
                link_local: first_link_local(i.ips),
            },
        ),
    }
}

/// What we are on the interface to use.
pub open spec fn resolved(all: Seq<InterfaceView>, name: Option<Seq<char>>) -> Result<
    LocalView,
    ErrorView,
> {
    match chosen(all, name) {
        Ok(i) => local_on(i),
        Err(e) => Err(e),
    }
}

fn has_ipv4(i: &Interface) -> (r: bool)
    ensures
        r == holds_ipv4(i@),
{
    let mut k: usize = 0;
    while k < i.ips.len()
        invariant
            k <= i.ips.len(),
            forall|j: int| 0 <= j < k ==> !((#[trigger] i.ips@[j]) is V4),
        decreases i.ips.len() - k,
    {
        if let IfaceAddr::V4 { .. } = i.ips[k] {
            assert(i@.ips[k as int] is V4);
            return true;
        }
        k = k + 1;
    }
    false
}

fn find_name<'a>(all: &'a Vec<Interface>, name: &str) -> (r: Option<&'a Interface>)
    ensures
        match by_name(interface_views(all@), name@) {
            Some(i) => r matches Some(x) && x@ == i,
            None => r is None,
        },
{
    let ghost s = interface_views(all@);
    let mut i: usize = 0;
    assert(s.skip(0) =~= s);
    while i < all.len()
        invariant
            i <= all.len(),
            s == interface_views(all@),
            by_name(s.skip(i as int), name@) == by_name(s, name@),
        decreases all.len() - i,
    {
        assert(s.skip(i as int)[0] == all@[i as int]@);
        assert(s.skip(i as int).drop_first() =~= s.skip(i + 1));
        if text::same_text(all[i].name.as_str(), name) {
            return Some(&all[i]);
        }
        i = i + 1;
    }
    assert(s.skip(all.len() as int) =~= Seq::empty());
    None
}

fn find_usable(all: &Vec<Interface>, with_ipv4: bool) -> (r: Option<&Interface>)
    ensures
        match first_usable(interface_views(all@), with_ipv4) {
            Some(i) => r matches Some(x) && x@ == i,
            None => r is None,
        },
{
    let ghost s = interface_views(all@);
    let mut i: usize = 0;
    assert(s.skip(0) =~= s);
    while i < all.len()
        invariant
            i <= all.len(),
            s == interface_views(all@),
            first_usable(s.skip(i as int), with_ipv4) == first_usable(s, with_ipv4),
        decreases all.len() - i,
    {
        assert(s.skip(i as int)[0] == all@[i as int]@);
        assert(s.skip(i as int).drop_first() =~= s.skip(i + 1));
        let x: &Interface = &all[i];
        if x.up && !x.loopback && x.mac.is_some() && (!with_ipv4 || has_ipv4(x)) {
            return Some(x);
        }
        i = i + 1;
    }
    assert(s.skip(all.len() as int) =~= Seq::empty());
    None
}

fn local_of(i: &Interface) -> (r: Result<Local, Error>)
    ensures
        match local_on(i@) {
            Ok(l) => r matches Ok(x) && x@ == l,
            Err(e) => r matches Err(x) && x@ == e,
        },
{
    let mac = match i.mac {
        Some(m) => m,
        None => {
            return Err(Error::NoMac { name: i.name.clone() });
        },
    };
    let (ipv4, net) = match find_ipv4(&i.ips) {
        Some((addr, net)) => if is_apipa_net(&net) {
            (Some(addr), None)
        } else {
            (Some(addr), Some(net))
        },
        None => (None, None),
    };
    Ok(
        Local {
            name: i.name.clone(),
            index: i.index,
            mac,
            ipv4,
            net,
            link_local: find_link_local(&i.ips),
        },
    )
}

/// The name asked for, as characters.
pub open spec fn asked(name: Option<&str>) -> Option<Seq<char>> {
    match name {
        Some(n) => Some(n@),
        None => None,
    }
}

/// Chooses the interface to use among those that the system lists, and reads who
/// we are on it.
pub fn resolve(all: &Vec<Interface>, name: Option<&str>) -> (r: Result<Local, Error>)
    ensures
        match resolved(interface_views(all@), asked(name)) {
            Ok(l) => r matches Ok(x) && x@ == l,
            Err(e) => r matches Err(x) && x@ == e,
        },
{
    match name {
        Some(n) => match find_name(all, n) {
            Some(i) => local_of(i),
            None => Err(Error::InterfaceNotFound { name: n.to_owned() }),
        },
        None => match find_usable(all, true) {
            Some(i) => local_of(i),
            None => match find_usable(all, false) {
                Some(i) => local_of(i),
                None => Err(Error::NoActiveInterface),
            },
        },
    }
}

/// The help text shown when the raw socket is refused.
pub open spec fn hint(exe: Seq<char>) -> Seq<char> {
    "Permission denied opening the raw socket.\nipscan needs CAP_NET_RAW. Grant it once with:\n\n    pkexec setcap cap_net_raw+ep "@
        + exe + "\n\nAfter that it runs as a normal user, without sudo."@
}

/// Help text shown when the datalink channel fails for lack of permission, given
/// the path of the program.
pub fn permission_hint(exe: &str) -> (r: String)
    ensures
        r@ == hint(exe@),
{
    let mut s = String::new();
    s.append(
        "Permission denied opening the raw socket.\nipscan needs CAP_NET_RAW. Grant it once with:\n\n    pkexec setcap cap_net_raw+ep ",
    );
    s.append(exe);
    s.append("\n\nAfter that it runs as a normal user, without sudo.");
    s
}

// ---------------------------------------------------------------------
// The list to choose from
// ---------------------------------------------------------------------

/// Trimmed-down interface for the TUI selector: name + IPv4 subnet, if any.
#[derive(Debug)]
pub struct Iface {
    pub name: String,
    pub net: Option<Ipv4Net>,
}

/// An [`Iface`] with its text as characters.
#[verifier::ext_equal]
pub struct IfaceView {
    pub name: Seq<char>,
    pub net: Option<Ipv4Net>,
}

impl View for Iface {
    type V = IfaceView;

    open spec fn view(&self) -> IfaceView {
        IfaceView { name: self.name@, net: self.net }
    }
}

impl Clone for Iface {
    fn clone(&self) -> (r: Iface)
        ensures
            r@ == self@,
    {
        Iface { name: self.name.clone(), net: self.net }
    }
}

/// What a list of candidates says.
pub open spec fn iface_views(v: Seq<Iface>) -> Seq<IfaceView> {
    Seq::new(v.len(), |i: int| v[i]@)
}

/// An interface as a candidate: its subnet is left out where it is APIPA.
pub open spec fn candidate(i: InterfaceView) -> IfaceView {
    IfaceView {
        name: i.name,
        net: match first_ipv4(i.ips) {
            Some((_, n)) => if apipa_net(n) {
                None
            } else {
                Some(n)
            },
            None => None,
        },
    }
}

/// The candidates among the interfaces: those that could be swept from.
pub open spec fn candidates(all: Seq<InterfaceView>) -> Seq<IfaceView>
    decreases all.len(),
{
    if all.len() == 0 {
        Seq::empty()
    } else {
        let before = candidates(all.drop_last());
        if usable(all.last()) {
            before.push(candidate(all.last()))
        } else {
            before
        }
    }
}

/// Does one candidate stand before another: those with a subnet first, being more
/// useful to sweep from, and otherwise in the order of their names.
pub open spec fn listed_before(a: IfaceView, b: IfaceView) -> bool {
    (a.net is Some && b.net is None) || ((a.net is Some) == (b.net is Some) && text::text_before(
        a.name,
        b.name,
    ))
}

/// No candidate stands behind one that it should stand before.
pub open spec fn in_list_order(s: Seq<IfaceView>) -> bool {
    forall|i: int, j: int|
        0 <= i < j < s.len() ==> !listed_before(#[trigger] s[j], #[trigger] s[i])
}

/// Does neither of two candidates stand before the other?
pub open spec fn level_with(a: IfaceView) -> spec_fn(IfaceView) -> bool {
    |b: IfaceView| !listed_before(a, b) && !listed_before(b, a)
}

/// Do the candidates of which neither stands before the other keep the order they
/// have in another list?
pub open spec fn keeps_ties(s: Seq<IfaceView>, t: Seq<IfaceView>) -> bool {
    forall|a: IfaceView| s.filter(#[trigger] level_with(a)) == t.filter(level_with(a))
}

fn goes_first(a: &Iface, b: &Iface) -> (r: bool)
    ensures
        r == listed_before(a@, b@),
{
    (a.net.is_some() && b.net.is_none()) || (a.net.is_some() == b.net.is_some()
        && text::is_before(a.name.as_str(), b.name.as_str()))
}

proof fn lemma_list_order_is_strict(a: IfaceView, b: IfaceView)
    requires
        listed_before(a, b),
    ensures
        !listed_before(b, a),
{
    text::lemma_text_order_total(a.name, b.name);
}

proof fn lemma_list_order_is_total(a: IfaceView, b: IfaceView, c: IfaceView)
    requires
        !listed_before(b, a),
        !listed_before(c, b),
    ensures
        !listed_before(c, a),
{
    text::lemma_text_order_total(a.name, b.name);
    text::lemma_text_order_total(b.name, c.name);
    text::lemma_text_order_total(a.name, c.name);
    if listed_before(c, a) && text::text_before(a.name, b.name) && text::text_before(c.name, a.name) {
        text::lemma_text_order_transitive(c.name, a.name, b.name);
    }
}

proof fn lemma_enlisting_keeps_ties(s: Seq<IfaceView>, k: int, x: IfaceView, a: IfaceView)
    requires
        0 <= k <= s.len(),
        forall|j: int| k <= j < s.len() ==> listed_before(x, #[trigger] s[j]),
    ensures
        s.insert(k, x).filter(level_with(a)) == s.push(x).filter(level_with(a)),
{
    let p = level_with(a);
    let head = s.take(k);
    let tail = s.skip(k);
    assert(s.insert(k, x) =~= head + (seq![x] + tail));
    assert(s.push(x) =~= head + (tail + seq![x]));
    Seq::filter_distributes_over_add(head, seq![x] + tail, p);
    Seq::filter_distributes_over_add(head, tail + seq![x], p);
    Seq::filter_distributes_over_add(seq![x], tail, p);
    Seq::filter_distributes_over_add(tail, seq![x], p);
    if p(x) {
        assert forall|j: int| 0 <= j < tail.len() implies !p(#[trigger] tail[j]) by {
            assert(listed_before(x, s[k + j]));
            if p(tail[j]) {
                lemma_list_order_is_total(tail[j], a, x);
            }
        }
        ordered::lemma_filter_none(tail, p);
    } else {
        ordered::lemma_filter_none(seq![x], p);
    }
    assert(seq![x].filter(p) + tail.filter(p) =~= tail.filter(p) + seq![x].filter(p));
}

fn enlist(out: &mut Vec<Iface>, x: Iface)
    requires
        in_list_order(iface_views(old(out)@)),
    ensures
        in_list_order(iface_views(final(out)@)),
        iface_views(final(out)@).to_multiset() == iface_views(old(out)@).to_multiset().insert(x@),
        keeps_ties(iface_views(final(out)@), iface_views(old(out)@).push(x@)),
{
    let ghost s = iface_views(out@);
    let mut i: usize = out.len();
    while i > 0 && goes_first(&x, &out[i - 1])
        invariant
            i <= out.len(),
            s == iface_views(out@),
            forall|j: int| i <= j < s.len() ==> listed_before(x@, #[trigger] s[j]),
        decreases i,
    {
        i = i - 1;
    }
    let ghost k = i as int;
    out.insert(i, x);
    let ghost t = iface_views(out@);
    proof {
        assert(t =~= s.insert(k, x@));
        vstd::seq_lib::to_multiset_insert(s, k, x@);
        assert forall|a: IfaceView|
            t.filter(#[trigger] level_with(a)) == s.push(x@).filter(level_with(a)) by {
            lemma_enlisting_keeps_ties(s, k, x@, a);
        }
        assert forall|a: int, b: int| 0 <= a < b < t.len() implies !listed_before(
            #[trigger] t[b],
            #[trigger] t[a],
        ) by {
            let p = if a < k { a } else { a - 1 };
            let q = if b < k { b } else { b - 1 };
            if a != k {
                assert(t[a] == s[p]);
            }
            if b != k {
                assert(t[b] == s[q]);
            }
            if a != k && b != k {
                assert(!listed_before(s[q], s[p]));
            } else if a == k {
                lemma_list_order_is_strict(x@, s[q]);
            } else {
                assert(!listed_before(x@, s[k - 1]));
                if p < k - 1 {
                    assert(!listed_before(s[k - 1], s[p]));
                    lemma_list_order_is_total(s[p], s[k - 1], x@);
                }
            }
        }
    }
}

/// Lists candidate interfaces (up, non-loopback) with their IPv4 subnet: those that
/// have one first, each group by name, equals in the order they came in.
pub fn list_ifaces(all: &Vec<Interface>) -> (r: Vec<Iface>)
    ensures
        in_list_order(iface_views(r@)),
        iface_views(r@).to_multiset() == candidates(interface_views(all@)).to_multiset(),
        keeps_ties(iface_views(r@), candidates(interface_views(all@))),
{
    let ghost s = interface_views(all@);
    let mut out: Vec<Iface> = Vec::new();
    let mut i: usize = 0;
    assert(s.take(0) =~= Seq::empty());
    assert(iface_views(out@) =~= candidates(s.take(0)));
    while i < all.len()
        invariant
            i <= all.len(),
            s == interface_views(all@),
            in_list_order(iface_views(out@)),
            iface_views(out@).to_multiset() == candidates(s.take(i as int)).to_multiset(),
            keeps_ties(iface_views(out@), candidates(s.take(i as int))),
        decreases all.len() - i,
    {
        assert(s.take(i + 1).drop_last() =~= s.take(i as int));
        assert(s.take(i + 1).last() == all@[i as int]@);
        if all[i].up && !all[i].loopback && all[i].mac.is_some() {
            let net = match find_ipv4(&all[i].ips) {
                Some((_, n)) => if is_apipa_net(&n) {
                    None
                } else {
                    Some(n)
                },
                None => None,
            };
            let x = Iface { name: all[i].name.clone(), net };
            proof {
                let before = candidates(s.take(i as int));
                before.to_multiset_ensures();
                assert(before.push(x@).to_multiset() =~= before.to_multiset().insert(x@));
            }
            let ghost old_list = iface_views(out@);
            let ghost old_candidates = candidates(s.take(i as int));
            enlist(&mut out, x);
            assert forall|a: IfaceView|
                iface_views(out@).filter(#[trigger] level_with(a)) == old_candidates.push(
                    x@,
                ).filter(level_with(a)) by {
                ordered::lemma_filter_push(old_list, x@, level_with(a));
                ordered::lemma_filter_push(old_candidates, x@, level_with(a));
            }
        }
        i = i + 1;
    }
    assert(s.take(all.len() as int) =~= s);
    out
}

/// A machine that has a usable interface with an IPv4 address never ends up on one
/// without.
pub proof fn an_address_is_preferred(all: Seq<InterfaceView>, k: int)
    requires
        0 <= k < all.len(),
        usable(all[k]) && holds_ipv4(all[k]),
    ensures
        chosen(all, None) matches Ok(i) && usable(i) && holds_ipv4(i),
{
    lemma_first_usable(all, true, k);
}

proof fn lemma_first_usable(all: Seq<InterfaceView>, with_ipv4: bool, k: int)
    requires
        0 <= k < all.len(),
        usable(all[k]) && (with_ipv4 ==> holds_ipv4(all[k])),
    ensures
        first_usable(all, with_ipv4) matches Some(i) && usable(i) && (with_ipv4 ==> holds_ipv4(i)),
    decreases all.len(),
{
    if !(usable(all[0]) && (with_ipv4 ==> holds_ipv4(all[0]))) {
        assert(all.drop_first()[k - 1] == all[k]);
        lemma_first_usable(all.drop_first(), with_ipv4, k - 1);
    }
}

/// 169.254/16 is never taken for the network's own subnet.
pub proof fn apipa_is_no_subnet(i: InterfaceView)
    ensures
        local_on(i) matches Ok(l) ==> (l.net matches Some(n) ==> !apipa_net(n)),
        candidate(i).net matches Some(n) ==> !apipa_net(n),
{
}

// ---------------------------------------------------------------------
// What holds of every choice
// ---------------------------------------------------------------------

/// Is it an IPv4 address with a proper prefix?
pub open spec fn proper_ipv4(a: IfaceAddr) -> bool {
    a matches IfaceAddr::V4 { addr, prefix_len } && prefix_len <= 32
}

/// The first IPv4 address with a proper prefix is ours, and the block around it, written
/// with its lowest address, is our subnet, unless it is 169.254/16.
pub proof fn the_first_ipv4_is_ours(i: InterfaceView, k: int)
    requires
        i.mac is Some,
        0 <= k < i.ips.len(),
        proper_ipv4(i.ips[k]),
        forall|j: int| 0 <= j < k ==> !proper_ipv4(#[trigger] i.ips[j]),
    ensures
        i.ips[k] matches IfaceAddr::V4 { addr, prefix_len } && local_on(i) matches Ok(l) && {
            let size = crate::net::span(prefix_len) as int;
            let low = addr.bits as int - addr.bits as int % size;
            &&& l.mac == i.mac->0
            &&& l.name == i.name
            &&& l.index == i.index
            &&& l.ipv4 == Some(addr)
            &&& l.net is None <==> 0xa9fe_0000 <= low <= 0xa9fe_ffff
            &&& l.net matches Some(n) ==> n.prefix_len == prefix_len && n.addr.bits == low
            &&& candidate(i).net == l.net
            &&& candidate(i).name == i.name
        },
{
    lemma_first_ipv4(i.ips, k);
    if let IfaceAddr::V4 { addr, prefix_len } = i.ips[k] {
        let n = Ipv4Net { addr, prefix_len };
        n.lemma_bounds();
        let b = n.truncated().addr.bits;
        assert(b == n.first());
        let (h, m) = (b / 0x100_0000, b / 0x1_0000 % 0x100);
        assert(b / 0x1_0000 == h * 0x100 + m);
    }
}

proof fn lemma_first_ipv4(ips: Seq<IfaceAddr>, k: int)
    requires
        0 <= k < ips.len(),
        proper_ipv4(ips[k]),
        forall|j: int| 0 <= j < k ==> !proper_ipv4(#[trigger] ips[j]),
    ensures
        ips[k] matches IfaceAddr::V4 { addr, prefix_len } && first_ipv4(ips) == Some(
            (addr, (Ipv4Net { addr, prefix_len }).truncated()),
        ),
    decreases ips.len(),
{
    if k > 0 {
        assert(!proper_ipv4(ips[0]));
        let rest = ips.drop_first();
        assert forall|j: int| 0 <= j < k - 1 implies !proper_ipv4(#[trigger] rest[j]) by {
            assert(rest[j] == ips[j + 1]);
        }
        assert(rest[k - 1] == ips[k]);
        lemma_first_ipv4(rest, k - 1);
    }
}

/// Without an IPv4 address that has a proper prefix there is neither an address nor a
/// subnet, and without a hardware address there is nothing at all.
pub proof fn without_an_address_there_is_no_subnet(i: InterfaceView)
    requires
        forall|j: int| 0 <= j < i.ips.len() ==> !proper_ipv4(#[trigger] i.ips[j]),
    ensures
        candidate(i).net is None,
        i.mac is Some ==> (local_on(i) matches Ok(l) && l.ipv4 is None && l.net is None),
        i.mac is None ==> local_on(i) == Err::<LocalView, ErrorView>(ErrorView::NoMac { name: i.name }),
{
    lemma_no_ipv4(i.ips);
}

proof fn lemma_no_ipv4(ips: Seq<IfaceAddr>)
    requires
        forall|j: int| 0 <= j < ips.len() ==> !proper_ipv4(#[trigger] ips[j]),
    ensures
        first_ipv4(ips) is None,
    decreases ips.len(),
{
    if ips.len() > 0 {
        assert(!proper_ipv4(ips[0]));
        let rest = ips.drop_first();
        assert forall|j: int| 0 <= j < rest.len() implies !proper_ipv4(#[trigger] rest[j]) by {
            assert(rest[j] == ips[j + 1]);
        }
        lemma_no_ipv4(rest);
    }
}

/// Is it an IPv6 address of fe80::/10?
pub open spec fn on_the_link(a: IfaceAddr) -> bool {
    a matches IfaceAddr::V6 { addr } && 0xfe80_0000_0000_0000_0000_0000_0000_0000 <= addr.bits
        <= 0xfebf_ffff_ffff_ffff_ffff_ffff_ffff_ffff
}

/// The first IPv6 link-local address is ours; where there is none, we have none.
pub proof fn the_first_link_local_is_ours(i: InterfaceView, k: int)
    requires
        i.mac is Some,
        0 <= k <= i.ips.len(),
        k < i.ips.len() ==> on_the_link(i.ips[k]),
        forall|j: int| 0 <= j < k ==> !on_the_link(#[trigger] i.ips[j]),
    ensures
        local_on(i) matches Ok(l) && l.link_local == (if k < i.ips.len() {
            Some(i.ips[k]->V6_addr)
        } else {
            None
        }),
{
    lemma_first_link_local(i.ips, k);
}

proof fn lemma_first_link_local(ips: Seq<IfaceAddr>, k: int)
    requires
        0 <= k <= ips.len(),
        k < ips.len() ==> on_the_link(ips[k]),
        forall|j: int| 0 <= j < k ==> !on_the_link(#[trigger] ips[j]),
    ensures
        first_link_local(ips) == (if k < ips.len() {
            Some(ips[k]->V6_addr)
        } else {
            None
        }),
    decreases ips.len(),
{
    if ips.len() > 0 {
        if let IfaceAddr::V6 { addr } = ips[0] {
            crate::addr::ipv6_blocks_are_ranges(addr);
        }
        if k > 0 {
            assert(!on_the_link(ips[0]));
            let rest = ips.drop_first();
            assert forall|j: int| 0 <= j < k - 1 implies !on_the_link(#[trigger] rest[j]) by {
                assert(rest[j] == ips[j + 1]);
            }
            if k < ips.len() {
                assert(rest[k - 1] == ips[k]);
            }
            lemma_first_link_local(rest, k - 1);
        }
    }
}

/// The first interface of a name is the one that is meant by it; a name that none has is
/// an error that tells it.
pub proof fn a_name_means_the_first(all: Seq<InterfaceView>, name: Seq<char>, k: int)
    requires
        0 <= k <= all.len(),
        k < all.len() ==> all[k].name == name,
        forall|j: int| 0 <= j < k ==> (#[trigger] all[j]).name != name,
    ensures
        k < all.len() ==> resolved(all, Some(name)) == local_on(all[k]),
        k == all.len() ==> resolved(all, Some(name)) == Err::<LocalView, ErrorView>(
            ErrorView::InterfaceNotFound { name },
        ),
{
    lemma_by_name(all, name, k);
}

proof fn lemma_by_name(all: Seq<InterfaceView>, name: Seq<char>, k: int)
    requires
        0 <= k <= all.len(),
        k < all.len() ==> all[k].name == name,
        forall|j: int| 0 <= j < k ==> (#[trigger] all[j]).name != name,
    ensures
        by_name(all, name) == (if k < all.len() {
            Some(all[k])
        } else {
            None
        }),
    decreases all.len(),
{
    if k > 0 {
        assert(all[0].name != name);
        let rest = all.drop_first();
        assert forall|j: int| 0 <= j < k - 1 implies (#[trigger] rest[j]).name != name by {
            assert(rest[j] == all[j + 1]);
        }
        if k < all.len() {
            assert(rest[k - 1] == all[k]);
        }
        lemma_by_name(rest, name, k - 1);
    }
}

/// Is the interface up, no loopback, with a hardware address, and with an IPv4 address
/// where that is asked for?
pub open spec fn fit(i: InterfaceView, with_ipv4: bool) -> bool {
    &&& i.up
    &&& !i.loopback
    &&& i.mac is Some
    &&& with_ipv4 ==> exists|k: int| 0 <= k < i.ips.len() && (#[trigger] i.ips[k]) is V4
}

/// Without a name, the first interface with an IPv4 address of those that are fit is
/// taken; where none has one, the first that is fit; and where none is, that is the
/// error.
pub proof fn the_first_fit_is_taken(all: Seq<InterfaceView>, with_ipv4: bool, k: int)
    requires
        0 <= k <= all.len(),
        k < all.len() ==> fit(all[k], with_ipv4),
        forall|j: int| 0 <= j < k ==> !fit(#[trigger] all[j], with_ipv4),
        !with_ipv4 ==> forall|j: int| 0 <= j < all.len() ==> !fit(#[trigger] all[j], true),
    ensures
        k < all.len() ==> resolved(all, None) == local_on(all[k]),
        k == all.len() && !with_ipv4 ==> resolved(all, None) == Err::<LocalView, ErrorView>(
            ErrorView::NoActiveInterface,
        ),
{
    if with_ipv4 {
        lemma_first_fit(all, true, k);
    } else {
        lemma_first_fit(all, true, all.len() as int);
        lemma_first_fit(all, false, k);
    }
}

proof fn lemma_first_fit(all: Seq<InterfaceView>, with_ipv4: bool, k: int)
    requires
        0 <= k <= all.len(),
        k < all.len() ==> fit(all[k], with_ipv4),
        forall|j: int| 0 <= j < k ==> !fit(#[trigger] all[j], with_ipv4),
    ensures
        first_usable(all, with_ipv4) == (if k < all.len() {
            Some(all[k])
        } else {
            None
        }),
    decreases all.len(),
{
    if k > 0 {
        assert(!fit(all[0], with_ipv4));
        let rest = all.drop_first();
        assert forall|j: int| 0 <= j < k - 1 implies !fit(#[trigger] rest[j], with_ipv4) by {
            assert(rest[j] == all[j + 1]);
        }
        if k < all.len() {
            assert(rest[k - 1] == all[k]);
        }
        lemma_first_fit(rest, with_ipv4, k - 1);
    }
}

/// The list to choose from holds every interface that is up, no loopback and has a
/// hardware address, and no other: those of two lists together are those of both.
pub proof fn every_fit_interface_is_listed(a: Seq<InterfaceView>, i: InterfaceView)
    ensures
        i.up && !i.loopback && i.mac is Some ==> candidates(a.push(i)) == candidates(a).push(
            candidate(i),
        ),
        !(i.up && !i.loopback && i.mac is Some) ==> candidates(a.push(i)) == candidates(a),
        candidates(Seq::empty()).len() == 0,
{
    assert(a.push(i).drop_last() =~= a);
    assert(a.push(i).last() == i);
}

/// In the list an interface with a subnet comes before one without, and otherwise the
/// names decide.
pub proof fn subnets_come_first(a: IfaceView, b: IfaceView)
    ensures
        a.net is Some && b.net is None ==> listed_before(a, b) && !listed_before(b, a),
        (a.net is Some <==> b.net is Some) && a.name != b.name ==> (listed_before(a, b)
            <==> text::text_before(a.name, b.name)) && (listed_before(a, b) <==> !listed_before(b, a)),
        (a.net is Some <==> b.net is Some) && a.name == b.name ==> !listed_before(a, b),
{
    text::lemma_text_order_total(a.name, b.name);
}

} // verus!
