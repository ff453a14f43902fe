//! One scan: what to sweep, in what order, and what to do next.
use crate::addr::Ipv4Addr;
use crate::arp::{self, Pace, Spa};
use crate::cli::{self, Cli, CliView, Scope};
use crate::correlate::{self, Finding, FindingView};
use crate::dhcp;
use crate::error::{Error, ErrorView};
use crate::iface::{self, Interface, InterfaceView, Local, LocalView};
use crate::inventory::{self, Host, HostView, Inventory, InventoryView};
use crate::net::{self, Ipv4Net};
use crate::ordered;
use crate::text;
use vstd::prelude::*;

verus! {

broadcast use vstd::seq::group_seq_axioms;

// ---------------------------------------------------------------------
// Configuration
// ---------------------------------------------------------------------

/// Configuration of one scan. Assembled by the CLI from flags, or by the TUI
/// from the form.
#[derive(Debug)]
pub struct ScanConfig {
    /// Interface to use; None auto-detects the first active one.
    pub iface: Option<String>,
    /// Legitimate subnets: a private address outside all of them is suspect.
    pub expected: Vec<Ipv4Net>,
    /// IGNORED ranges (the form's "!"): subtracted from the targets after the
    /// scope has been assembled, they receive not a single packet. They also go
    /// into `expected`, so nothing coming from them reaches the screen.
    pub excluded: Vec<Ipv4Net>,
    /// Extra ranges to sweep explicitly, beyond what the scope covers.
    pub ranges: Vec<Ipv4Net>,
    pub scope: Scope,
    pub spa: Spa,
    pub pace: Pace,
    pub passive_secs: u64,
    pub passive_only: bool,
    pub no_ipv6: bool,
    pub leases_file: Option<String>,
    /// Print the phase lines and progress bar on stderr (the CLI does).
    pub verbose: bool,
}

/// A [`ScanConfig`] with its text as characters.
#[verifier::ext_equal]
pub struct ConfigView {
    pub iface: Option<Seq<char>>,
    pub expected: Seq<Ipv4Net>,
    pub excluded: Seq<Ipv4Net>,
    pub ranges: Seq<Ipv4Net>,
    pub scope: Scope,
    pub spa: Spa,
    pub pace: Pace,
    pub passive_secs: u64,
    pub passive_only: bool,
    pub no_ipv6: bool,
    pub leases_file: Option<Seq<char>>,
    pub verbose: bool,
}

impl View for ScanConfig {
    type V = ConfigView;

    open spec fn view(&self) -> ConfigView {
        ConfigView {
            iface: text::opt_view(self.iface),
            expected: self.expected@,
            excluded: self.excluded@,
            ranges: self.ranges@,
            scope: self.scope,
            spa: self.spa,
            pace: self.pace,
            passive_secs: self.passive_secs,
            passive_only: self.passive_only,
            no_ipv6: self.no_ipv6,
            leases_file: text::opt_view(self.leases_file),
            verbose: self.verbose,
        }
    }
}

impl Clone for ScanConfig {
    fn clone(&self) -> (r: ScanConfig)
        ensures
            r@ == self@,
    {
        ScanConfig {
            iface: text::clone_opt(&self.iface),
            expected: net::copy_nets(self.expected.as_slice()),
            excluded: net::copy_nets(self.excluded.as_slice()),
            ranges: net::copy_nets(self.ranges.as_slice()),
            scope: self.scope,
            spa: self.spa,
            pace: self.pace,
            passive_secs: self.passive_secs,
            passive_only: self.passive_only,
            no_ipv6: self.no_ipv6,
            leases_file: text::clone_opt(&self.leases_file),
            verbose: self.verbose,
        }
    }
}

/// The scan that a command line asks for. What is wrong with it is found in this
/// order: the expected subnets, the ignored ranges, the extra ranges, the sender.
pub open spec fn asked_for(cli: CliView, all: Seq<InterfaceView>) -> Result<ConfigView, ErrorView> {
    match (
        cli::expected_nets(cli, all),
        cli::nets_of(cli.excluded),
        cli::nets_of(cli.ranges),
        Spa::parsed(cli.spa),
    ) {
        (Err(e), _, _, _) => Err(e),
        (_, Err(e), _, _) => Err(e),
        (_, _, Err(e), _) => Err(e),
        (_, _, _, Err(e)) => Err(e),
        (Ok(expected), Ok(excluded), Ok(ranges), Ok(spa)) => Ok(
            ConfigView {
                iface: cli.iface,
                expected: expected + excluded,
                excluded,
                ranges,
                scope: cli.scope,
                spa,
                pace: Pace { rate: cli.rate, settle_ms: cli.settle, passes: cli.passes },
                passive_secs: cli.passive_secs,
                passive_only: cli.passive_only,
                no_ipv6: cli.no_ipv6,
                leases_file: cli.leases_file,
                verbose: true,
            },
        ),
    }
}

/// Assembles the scan that a command line asks for. An ignored range is legitimate
/// too: we never sweep it and nothing from it raises a flag.
pub fn config_from(cli: &Cli, all: &Vec<Interface>) -> (r: Result<ScanConfig, Error>)
    ensures
        match asked_for(cli@, iface::interface_views(all@)) {
            Ok(c) => r matches Ok(x) && x@ == c,
            Err(e) => r matches Err(x) && x@ == e,
        },
{
    let mut expected: Vec<Ipv4Net> = match cli::expected_or_local(cli, all) {
        Ok(v) => v,
        Err(e) => {
            return Err(e);
        },
    };
    let excluded: Vec<Ipv4Net> = match cli::parse_nets(&cli.excluded) {
        Ok(v) => v,
        Err(e) => {
            return Err(e);
        },
    };
    net::append_nets(&mut expected, excluded.as_slice());
    let ranges: Vec<Ipv4Net> = match cli::parse_nets(&cli.ranges) {
        Ok(v) => v,
        Err(e) => {
            return Err(e);
        },
    };
    let spa = match Spa::parse(cli.spa.as_str()) {
        Ok(x) => x,
        Err(e) => {
            return Err(e);
        },
    };
    Ok(
        ScanConfig {
            iface: text::clone_opt(&cli.iface),
            expected,
            excluded,
            ranges,
            scope: cli.scope,
            spa,
            pace: Pace { rate: cli.rate, settle_ms: cli.settle, passes: cli.passes },
            passive_secs: cli.passive_secs,
            passive_only: cli.passive_only,
            no_ipv6: cli.no_ipv6,
            leases_file: text::clone_opt(&cli.leases_file),
            verbose: true,
        },
    )
}

/// Every range that a command line ignores is legitimate too.
pub proof fn ignored_is_legitimate(cli: CliView, all: Seq<InterfaceView>, n: Ipv4Net)
    requires
        asked_for(cli, all) is Ok,
        (asked_for(cli, all)->Ok_0).excluded.contains(n),
    ensures
        (asked_for(cli, all)->Ok_0).expected.contains(n),
{
    let c = asked_for(cli, all)->Ok_0;
    let e = cli::expected_nets(cli, all)->Ok_0;
    let k = choose|k: int| 0 <= k < c.excluded.len() && c.excluded[k] == n;
    assert(c.expected[e.len() + k] == n);
}

/// Can the requests be sent under that sender? Our own address needs one on the
/// interface; the other modes need no address at all.
pub open spec fn sender_fits(spa: Spa, local: LocalView) -> Result<(), ErrorView> {
    if spa == Spa::Local && local.ipv4 is None {
        Err(ErrorView::NoLocalAddress { name: local.name })
    } else {
        Ok(())
    }
}

/// `spa=local` puts our own address in the sender field: impossible without an
/// IPv4 on the interface. The other modes need no address at all.
pub fn validate_spa(spa: Spa, local: &Local) -> (r: Result<(), Error>)
    ensures
        match sender_fits(spa, local@) {
            Ok(_) => r is Ok,
            Err(e) => r matches Err(x) && x@ == e,
        },
{
    match spa {
        Spa::Local => {
            if local.ipv4.is_none() {
                return Err(Error::NoLocalAddress { name: local.name.clone() });
            }
        },
        _ => {},
    }
    Ok(())
}

/// Who we are for a scan: the interface it names, where its sender can be used.
pub open spec fn ready(cfg: ConfigView, all: Seq<InterfaceView>) -> Result<LocalView, ErrorView> {
    match iface::resolved(all, cfg.iface) {
        Err(e) => Err(e),
        Ok(l) => match sender_fits(cfg.spa, l) {
            Err(e) => Err(e),
            Ok(_) => Ok(l),
        },
    }
}

/// Finds out who we are for a scan, before anything is opened.
pub fn prepare(cfg: &ScanConfig, all: &Vec<Interface>) -> (r: Result<Local, Error>)
    ensures
        match ready(cfg@, iface::interface_views(all@)) {
            Ok(l) => r matches Ok(x) && x@ == l,
            Err(e) => r matches Err(x) && x@ == e,
        },
{
    let name: Option<&str> = match &cfg.iface {
        Some(s) => Some(s.as_str()),
        None => None,
    };
    match iface::resolve(all, name) {
        Err(e) => Err(e),
        Ok(l) => match validate_spa(cfg.spa, &l) {
            Err(e) => Err(e),
            Ok(()) => Ok(l),
        },
    }
}

/// What a scan starts out knowing: the leases of the server's file, if one was
/// read. They are loaded before anything else.
pub fn first_inventory(leases_text: Option<&str>) -> (r: (Inventory, usize))
    ensures
        r.0@.wf(),
        match leases_text {
            Some(t) => r.0@ == (InventoryView {
                lease_file_loaded: true,
                ..InventoryView::nothing().with_leases(dhcp::leases_in(t@))
            }) && r.1 == dhcp::leases_in(t@).len(),
            None => r.0@ == InventoryView::nothing() && r.1 == 0,
        },
{
    let mut inv = Inventory::new();
    match leases_text {
        Some(t) => {
            let leases = dhcp::parse_leases_file(t);
            let n: usize = leases.len();
            assert(n == dhcp::lease_views(leases@).len());
            inv.merge_lease_file(leases);
            (inv, n)
        },
        None => (inv, 0),
    }
}

// ---------------------------------------------------------------------
// Progress
// ---------------------------------------------------------------------

/// Current scan phase, for the TUI's label and progress bar.
#[derive(Debug, Clone, Copy, PartialEq, Eq, Structural)]
pub enum Phase {
    Idle,
    Passive,
    Ipv6,
    Sweep,
    Collecting,
    Done,
}

impl Phase {
    /// The phase with a number; any other number stands for idleness.
    pub open spec fn of(v: u8) -> Phase {
        if v == 1 {
            Phase::Passive
        } else if v == 2 {
            Phase::Ipv6
        } else if v == 3 {
            Phase::Sweep
        } else if v == 4 {
            Phase::Collecting
        } else if v == 5 {
            Phase::Done
        } else {
            Phase::Idle
        }
    }

    /// The number of a phase.
    pub open spec fn number(self) -> u8 {
        match self {
            Phase::Idle => 0,
            Phase::Passive => 1,
            Phase::Ipv6 => 2,
            Phase::Sweep => 3,
            Phase::Collecting => 4,
            Phase::Done => 5,
        }
    }

    /// The phase with a number.
    pub fn from_u8(v: u8) -> (r: Phase)
        ensures
            r == Phase::of(v),
    {
        match v {
            1 => Phase::Passive,
            2 => Phase::Ipv6,
            3 => Phase::Sweep,
            4 => Phase::Collecting,
            5 => Phase::Done,
            _ => Phase::Idle,
        }
    }

    /// The number of a phase.
    pub fn as_u8(self) -> (r: u8)
        ensures
            r == self.number(),
            Phase::of(r) == self,
    {
        match self {
            Phase::Idle => 0,
            Phase::Passive => 1,
            Phase::Ipv6 => 2,
            Phase::Sweep => 3,
            Phase::Collecting => 4,
            Phase::Done => 5,
        }
    }

    /// What the user is shown.
    pub open spec fn name(self) -> Seq<char> {
        match self {
            Phase::Idle => "idle"@,
            Phase::Passive => "passive listening"@,
            Phase::Ipv6 => "IPv6 enumeration"@,
            Phase::Sweep => "ARP sweep"@,
            Phase::Collecting => "collecting replies"@,
            Phase::Done => "done"@,
        }
    }

    /// What the user is shown.
    pub fn label(self) -> (r: &'static str)
        ensures
            r@ == self.name(),
    {
        match self {
            Phase::Idle => "idle",
            Phase::Passive => "passive listening",
            Phase::Ipv6 => "IPv6 enumeration",
            Phase::Sweep => "ARP sweep",
            Phase::Collecting => "collecting replies",
            Phase::Done => "done",
        }
    }
}

/// Progress observable from outside. A sweep updates `sent`/`total`.
#[derive(Debug, Clone, Copy)]
pub struct ScanProgress {
    /// The number of the phase the scan is in.
    pub phase: u8,
    pub sent: u64,
    pub total: u64,
}

impl Default for ScanProgress {
    fn default() -> (r: ScanProgress)
        ensures
            r.current() == Phase::Idle,
            r.sent == 0,
            r.total == 0,
    {
        ScanProgress { phase: 0, sent: 0, total: 0 }
    }
}

impl ScanProgress {
    /// The phase the scan is in.
    pub open spec fn current(self) -> Phase {
        Phase::of(self.phase)
    }

    /// The phase the scan is in.
    pub fn phase(&self) -> (r: Phase)
        ensures
            r == self.current(),
    {
        Phase::from_u8(self.phase)
    }

    /// Moves the scan on to a phase.
    pub fn set_phase(&mut self, p: Phase)
        ensures
            final(self).current() == p,
            final(self).sent == old(self).sent,
            final(self).total == old(self).total,
    {
        self.phase = p.as_u8();
    }

    /// (sent, total) for the current sweep.
    pub fn sweep_counts(&self) -> (r: (u64, u64))
        ensures
            r == (self.sent, self.total),
    {
        (self.sent, self.total)
    }
}

/// Half of a sweep's duration, but at least half a second and at most three, all
/// in nanoseconds.
pub open spec fn window(sweep: nat) -> nat {
    if sweep / 2 < 500_000_000 {
        500_000_000
    } else if sweep / 2 > 3_000_000_000 {
        3_000_000_000
    } else {
        sweep / 2
    }
}

/// How long to wait for replies once the sweep goes quiet, in nanoseconds.
/// Proportional to the size of the sweep: a /24 does not deserve the same 3s as a
/// /16. The floor protects congested networks; the ceiling protects the patience
/// of someone testing one hypothesis after another.
pub fn collect_window(sweep: u128) -> (r: u128)
    ensures
        r == window(sweep as nat),
{
    let half: u128 = sweep / 2;
    if half < 500_000_000 {
        500_000_000
    } else if half > 3_000_000_000 {
        3_000_000_000
    } else {
        half
    }
}

/// A longer sweep never gets a shorter window.
pub proof fn the_window_grows_with_the_sweep(a: nat, b: nat)
    requires
        a <= b,
    ensures
        500_000_000 <= window(a) <= window(b) <= 3_000_000_000,
{
}

// ---------------------------------------------------------------------
// Targets
// ---------------------------------------------------------------------

/// The /24 around an address.
pub open spec fn around(ip: Ipv4Addr) -> Ipv4Net {
    (Ipv4Net { addr: ip, prefix_len: 24 }).truncated()
}

/// The /24s around addresses.
pub open spec fn around_all(ips: Seq<Ipv4Addr>) -> Seq<Ipv4Net> {
    Seq::new(ips.len(), |i: int| around(ips[i]))
}

/// The /24s around the addresses that stand for the devices seen so far: if
/// listening turned up 10.37.129.88, the whole 10.37.129.0/24 is worth sweeping.
pub open spec fn revealed(hosts: Seq<HostView>) -> Seq<Ipv4Net>
    decreases hosts.len(),
{
    if hosts.len() == 0 {
        Seq::empty()
    } else {
        revealed(hosts.drop_last()) + around_all(hosts.last().identity())
    }
}

/// 192.168.0.0/16.
pub open spec fn net_192() -> Ipv4Net {
    Ipv4Net { addr: Ipv4Addr { bits: crate::addr::quad(192, 168, 0, 0) }, prefix_len: 16 }
}

/// 172.16.0.0/12.
pub open spec fn net_172() -> Ipv4Net {
    Ipv4Net { addr: Ipv4Addr { bits: crate::addr::quad(172, 16, 0, 0) }, prefix_len: 12 }
}

/// 10.0.0.0/8.
pub open spec fn net_10() -> Ipv4Net {
    Ipv4Net { addr: Ipv4Addr { bits: crate::addr::quad(10, 0, 0, 0) }, prefix_len: 8 }
}

/// The networks that a scope stands for.
pub open spec fn scope_nets(
    scope: Scope,
    expected: Seq<Ipv4Net>,
    hosts: Seq<HostView>,
) -> Seq<Ipv4Net> {
    match scope {
        Scope::Nothing => Seq::empty(),
        Scope::Auto => expected + revealed(hosts) + cli::factory_nets(),
        Scope::Private16 => seq![net_192()],
        Scope::Rfc1918 => seq![net_192(), net_172(), net_10()],
    }
}

/// Is a network worth sweeping: in no ignored range and not APIPA? 169.254/16 is a
/// symptom of missing DHCP, not a network with devices to find.
pub open spec fn eligible(excluded: Seq<Ipv4Net>) -> spec_fn(Ipv4Net) -> bool {
    |n: Ipv4Net| !net::covered_by_any(excluded, n) && !iface::apipa_net(n)
}

/// Every network that a network does not cover.
pub open spec fn outside(n: Ipv4Net) -> spec_fn(Ipv4Net) -> bool {
    |k: Ipv4Net| !n.covers(k)
}

/// The networks, each one left out that another covers: one that is covered when
/// its turn comes is not taken, and one that is taken drives out those that it
/// covers.
pub open spec fn deduped(nets: Seq<Ipv4Net>) -> Seq<Ipv4Net>
    decreases nets.len(),
{
    if nets.len() == 0 {
        Seq::empty()
    } else {
        let kept = deduped(nets.drop_last());
        let n = nets.last();
        if net::covered_by_any(kept, n) {
            kept
        } else {
            kept.filter(outside(n)).push(n)
        }
    }
}

/// Does one of the networks probe all that the given one would?
pub open spec fn served_by_any(nets: Seq<Ipv4Net>, n: Ipv4Net) -> bool {
    exists|i: int| 0 <= i < nets.len() && arp::serves(#[trigger] nets[i], n)
}

/// The networks, each one left out that an earlier one serves. Nothing drives out
/// what stands ahead of it: a larger network that comes later keeps its place, and
/// the sweep takes of it what the earlier ones leave.
pub open spec fn first_come(nets: Seq<Ipv4Net>) -> Seq<Ipv4Net>
    decreases nets.len(),
{
    if nets.len() == 0 {
        Seq::empty()
    } else {
        let kept = first_come(nets.drop_last());
        if served_by_any(kept, nets.last()) {
            kept
        } else {
            kept.push(nets.last())
        }
    }
}

/// All the networks that a scan is asked for: the extra ranges first, then the
/// scope's.
pub open spec fn listed(
    scope: Scope,
    expected: Seq<Ipv4Net>,
    extra: Seq<Ipv4Net>,
    hosts: Seq<HostView>,
) -> Seq<Ipv4Net> {
    extra + scope_nets(scope, expected, hosts)
}

/// The networks to sweep: the extra ranges first, then the scope's, without those
/// that are not worth it and those that add nothing. What is ignored is removed
/// after the scope has been assembled: `Scope::Auto` hands the expected subnets
/// back, and an ignored range is one of them.
pub open spec fn targets(
    scope: Scope,
    expected: Seq<Ipv4Net>,
    extra: Seq<Ipv4Net>,
    excluded: Seq<Ipv4Net>,
    hosts: Seq<HostView>,
) -> Seq<Ipv4Net> {
    first_come(listed(scope, expected, extra, hosts).filter(eligible(excluded)))
}

fn push_around(out: &mut Vec<Ipv4Net>, ips: &Vec<Ipv4Addr>)
    ensures
        final(out)@ == old(out)@ + around_all(ips@),
{
    let mut i: usize = 0;
    while i < ips.len()
        invariant
            i <= ips.len(),
            out@ == old(out)@ + around_all(ips@.take(i as int)),
        decreases ips.len() - i,
    {
        let n = Ipv4Net { addr: ips[i], prefix_len: 24 };
        out.push(n.trunc());
        assert(around_all(ips@.take(i + 1)) =~= around_all(ips@.take(i as int)).push(
            around(ips@[i as int]),
        ));
        i = i + 1;
    }
    assert(ips@.take(ips.len() as int) =~= ips@);
}

fn push_revealed(out: &mut Vec<Ipv4Net>, hosts: &Vec<Host>)
    ensures
        final(out)@ == old(out)@ + revealed(inventory::host_views(hosts@)),
{
    let ghost all = inventory::host_views(hosts@);
    let mut i: usize = 0;
    assert(all.take(0) =~= Seq::empty());
    while i < hosts.len()
        invariant
            i <= hosts.len(),
            all == inventory::host_views(hosts@),
            out@ == old(out)@ + revealed(all.take(i as int)),
        decreases hosts.len() - i,
    {
        assert(all.take(i + 1).drop_last() =~= all.take(i as int));
        assert(all.take(i + 1).last() == hosts@[i as int]@);
        push_around(out, hosts[i].identity_ipv4());
        i = i + 1;
    }
    assert(all.take(hosts.len() as int) =~= all);
}

fn keep_eligible(nets: &Vec<Ipv4Net>, excluded: &[Ipv4Net]) -> (r: Vec<Ipv4Net>)
    ensures
        r@ == nets@.filter(eligible(excluded@)),
{
    let ghost p = eligible(excluded@);
    let mut out: Vec<Ipv4Net> = Vec::new();
    let mut i: usize = 0;
    proof {
        assert(nets@.take(0) =~= Seq::empty());
        ordered::lemma_filter_none(nets@.take(0), p);
    }
    while i < nets.len()
        invariant
            i <= nets.len(),
            p == eligible(excluded@),
            out@ == nets@.take(i as int).filter(p),
        decreases nets.len() - i,
    {
        proof {
            ordered::lemma_filter_step(nets@, i as int, p);
        }
        if !net::any_covers(excluded, &nets[i]) && !iface::is_apipa_net(&nets[i]) {
            out.push(nets[i]);
        }
        i = i + 1;
    }
    assert(nets@.take(nets.len() as int) =~= nets@);
    out
}

/// Leaves out each network that an earlier one serves, preserving the priority
/// order. Likely subnets must be swept BEFORE the large exhaustive blocks: sweeping
/// empty /24s ahead of the populated one piles up broadcast and the switch's storm
/// control swallows the replies. That is why we do NOT sort by address: whatever
/// comes first in priority goes first onto the wire.
fn keep_first(nets: Vec<Ipv4Net>) -> (r: Vec<Ipv4Net>)
    ensures
        r@ == first_come(nets@),
{
    let mut kept: Vec<Ipv4Net> = Vec::new();
    let mut i: usize = 0;
    assert(nets@.take(0) =~= Seq::empty());
    while i < nets.len()
        invariant
            i <= nets.len(),
            kept@ == first_come(nets@.take(i as int)),
        decreases nets.len() - i,
    {
        assert(nets@.take(i + 1).drop_last() =~= nets@.take(i as int));
        assert(nets@.take(i + 1).last() == nets@[i as int]);
        if !arp::any_serves(kept.as_slice(), &nets[i]) {
            kept.push(nets[i]);
        }
        i = i + 1;
    }
    assert(nets@.take(nets.len() as int) =~= nets@);
    kept
}

/// Builds the list of networks to sweep according to the requested scope, in the
/// order in which they go onto the wire.
pub fn build_targets(
    scope: Scope,
    expected: &[Ipv4Net],
    extra: &[Ipv4Net],
    excluded: &[Ipv4Net],
    inv: &Inventory,
) -> (r: Vec<Ipv4Net>)
    ensures
        r@ == targets(scope, expected@, extra@, excluded@, inv@.hosts),
        forall|i: int|
            0 <= i < extra@.len() && eligible(excluded@)(#[trigger] extra@[i]) && (forall|j: int|
                0 <= j < i ==> !eligible(excluded@)(#[trigger] extra@[j])) ==> r@.len() > 0 && r@[0]
                == extra@[i],
{
    let mut nets: Vec<Ipv4Net> = net::copy_nets(extra);
    match scope {
        Scope::Nothing => {},
        Scope::Auto => {
            net::append_nets(&mut nets, expected);
            push_revealed(&mut nets, &inv.hosts);
            let f: Vec<Ipv4Net> = cli::factory_defaults();
            net::append_nets(&mut nets, f.as_slice());
        },
        Scope::Private16 => {
            nets.push(Ipv4Net { addr: Ipv4Addr::new(192, 168, 0, 0), prefix_len: 16 });
        },
        Scope::Rfc1918 => {
            nets.push(Ipv4Net { addr: Ipv4Addr::new(192, 168, 0, 0), prefix_len: 16 });
            nets.push(Ipv4Net { addr: Ipv4Addr::new(172, 16, 0, 0), prefix_len: 12 });
            nets.push(Ipv4Net { addr: Ipv4Addr::new(10, 0, 0, 0), prefix_len: 8 });
        },
    }
    assert(nets@ =~= listed(scope, expected@, extra@, inv@.hosts));
    proof {
        assert forall|i: int|
            0 <= i < extra@.len() && eligible(excluded@)(#[trigger] extra@[i]) && (forall|j: int|
                0 <= j < i ==> !eligible(excluded@)(#[trigger] extra@[j])) implies targets(
            scope,
            expected@,
            extra@,
            excluded@,
            inv@.hosts,
        ).len() > 0 && targets(scope, expected@, extra@, excluded@, inv@.hosts)[0] == extra@[i] by {
            the_first_range_goes_first(scope, expected@, extra@, excluded@, inv@.hosts, i);
        }
    }
    keep_first(keep_eligible(&nets, excluded))
}

fn drive_out(kept: &Vec<Ipv4Net>, n: &Ipv4Net) -> (r: Vec<Ipv4Net>)
    ensures
        r@ == kept@.filter(outside(*n)),
{
    let ghost p = outside(*n);
    let mut out: Vec<Ipv4Net> = Vec::new();
    let mut i: usize = 0;
    proof {
        assert(kept@.take(0) =~= Seq::empty());
        ordered::lemma_filter_none(kept@.take(0), p);
    }
    while i < kept.len()
        invariant
            i <= kept.len(),
            p == outside(*n),
            out@ == kept@.take(i as int).filter(p),
        decreases kept.len() - i,
    {
        proof {
            ordered::lemma_filter_step(kept@, i as int, p);
        }
        if !n.contains_net(&kept[i]) {
            out.push(kept[i]);
        }
        i = i + 1;
    }
    assert(kept@.take(kept.len() as int) =~= kept@);
    out
}

/// Drops duplicates and networks contained in another; what is left keeps its order.
/// A larger network that comes later drives out the smaller ones in it. That serves
/// to tell what a sweep covers, network by network and without counting anything
/// twice; the order on the wire is that of [`build_targets`], which lets nothing be
/// driven out.
pub fn dedup_nets(nets: Vec<Ipv4Net>) -> (r: Vec<Ipv4Net>)
    ensures
        r@ == deduped(nets@),
{
    let mut kept: Vec<Ipv4Net> = Vec::new();
    let mut i: usize = 0;
    assert(nets@.take(0) =~= Seq::empty());
    while i < nets.len()
        invariant
            i <= nets.len(),
            kept@ == deduped(nets@.take(i as int)),
        decreases nets.len() - i,
    {
        assert(nets@.take(i + 1).drop_last() =~= nets@.take(i as int));
        assert(nets@.take(i + 1).last() == nets@[i as int]);
        if !net::any_covers(kept.as_slice(), &nets[i]) {
            let mut rest: Vec<Ipv4Net> = drive_out(&kept, &nets[i]);
            rest.push(nets[i]);
            kept = rest;
        }
        i = i + 1;
    }
    assert(nets@.take(nets.len() as int) =~= nets@);
    kept
}

// ---------------------------------------------------------------------
// What holds of every list of targets
// ---------------------------------------------------------------------

/// No network of the list covers another.
pub open spec fn none_covers_another(s: Seq<Ipv4Net>) -> bool {
    forall|i: int, j: int|
        0 <= i < s.len() && 0 <= j < s.len() && i != j ==> !(#[trigger] s[i]).covers(#[trigger] s[j])
}

/// Does the list arise from another by leaving items out?
pub open spec fn is_sublist<A>(a: Seq<A>, b: Seq<A>) -> bool
    decreases b.len(),
{
    a.len() == 0 || (b.len() > 0 && ((a.last() == b.last() && is_sublist(
        a.drop_last(),
        b.drop_last(),
    )) || is_sublist(a, b.drop_last())))
}

proof fn lemma_filtered_sublist<A>(a: Seq<A>, b: Seq<A>, p: spec_fn(A) -> bool)
    requires
        is_sublist(a, b),
    ensures
        is_sublist(a.filter(p), b),
    decreases b.len(),
{
    reveal(Seq::filter);
    if a.len() > 0 {
        if a.last() == b.last() && is_sublist(a.drop_last(), b.drop_last()) {
            lemma_filtered_sublist(a.drop_last(), b.drop_last(), p);
            let f = a.drop_last().filter(p);
            if p(a.last()) {
                assert(a.filter(p) == f.push(a.last()));
                assert(f.push(a.last()).drop_last() =~= f);
            } else {
                assert(a.filter(p) == f);
            }
        } else {
            lemma_filtered_sublist(a, b.drop_last(), p);
        }
    }
}

proof fn lemma_filter_index<A>(s: Seq<A>, p: spec_fn(A) -> bool, i: int) -> (k: int)
    requires
        0 <= i < s.filter(p).len(),
    ensures
        0 <= k < s.len(),
        s[k] == s.filter(p)[i],
        p(s[k]),
{
    s.lemma_filter_pred(p, i);
    let x = s.filter(p)[i];
    assert(s.filter(p).contains(x));
    s.lemma_filter_contains_rev(p, x);
    choose|k: int| 0 <= k < s.len() && s[k] == x
}

proof fn lemma_filter_keeps_apart(s: Seq<Ipv4Net>, p: spec_fn(Ipv4Net) -> bool)
    requires
        none_covers_another(s),
    ensures
        none_covers_another(s.filter(p)),
    decreases s.len(),
{
    reveal(Seq::filter);
    if s.len() > 0 {
        let init = s.drop_last();
        assert forall|i: int, j: int| 0 <= i < init.len() && 0 <= j < init.len() && i
            != j implies !(#[trigger] init[i]).covers(#[trigger] init[j]) by {
            assert(init[i] == s[i] && init[j] == s[j]);
        }
        lemma_filter_keeps_apart(init, p);
        let f = init.filter(p);
        if p(s.last()) {
            let r = f.push(s.last());
            assert(s.filter(p) == r);
            assert forall|i: int, j: int| 0 <= i < r.len() && 0 <= j < r.len() && i != j implies !(
            #[trigger] r[i]).covers(#[trigger] r[j]) by {
                if i < f.len() {
                    let a = lemma_filter_index(init, p, i);
                    assert(r[i] == s[a]);
                    if j < f.len() {
                        assert(!f[i].covers(f[j]));
                    } else {
                        assert(!s[a].covers(s[s.len() - 1]));
                    }
                } else {
                    let b = lemma_filter_index(init, p, j);
                    assert(r[j] == s[b]);
                    assert(!s[s.len() - 1].covers(s[b]));
                }
            }
        } else {
            assert(s.filter(p) == f);
        }
    }
}

/// What is left of a list of networks: none of it covers another, all of it stood
/// in the list in that order, and not one address is lost.
pub proof fn deduping_loses_nothing(nets: Seq<Ipv4Net>)
    ensures
        none_covers_another(deduped(nets)),
        is_sublist(deduped(nets), nets),
        forall|n: Ipv4Net| #[trigger] nets.contains(n) ==> net::covered_by_any(deduped(nets), n),
    decreases nets.len(),
{
    if nets.len() > 0 {
        let init = nets.drop_last();
        let n = nets.last();
        let kept = deduped(init);
        let r = deduped(nets);
        deduping_loses_nothing(init);
        if net::covered_by_any(kept, n) {
            assert forall|x: Ipv4Net| #[trigger] nets.contains(x) implies net::covered_by_any(
                r,
                x,
            ) by {
                let i = choose|i: int| 0 <= i < nets.len() && nets[i] == x;
                if i < init.len() {
                    assert(init[i] == x);
                    assert(init.contains(x));
                }
            }
        } else {
            let f = kept.filter(outside(n));
            lemma_filter_keeps_apart(kept, outside(n));
            lemma_filtered_sublist(kept, init, outside(n));
            assert(r.drop_last() =~= f);
            assert forall|i: int, j: int| 0 <= i < r.len() && 0 <= j < r.len() && i != j implies !(
            #[trigger] r[i]).covers(#[trigger] r[j]) by {
                if i < f.len() && j < f.len() {
                    assert(!f[i].covers(f[j]));
                } else if i < f.len() {
                    let a = lemma_filter_index(kept, outside(n), i);
                    assert(!kept[a].covers(n));
                } else {
                    kept.lemma_filter_pred(outside(n), j);
                }
            }
            assert forall|x: Ipv4Net| #[trigger] nets.contains(x) implies net::covered_by_any(
                r,
                x,
            ) by {
                let i = choose|i: int| 0 <= i < nets.len() && nets[i] == x;
                if i < init.len() {
                    assert(init[i] == x);
                    assert(init.contains(x));
                    let k = choose|k: int| 0 <= k < kept.len() && (#[trigger] kept[k]).covers(x);
                    if n.covers(kept[k]) {
                        assert(r[f.len() as int].covers(x));
                    } else {
                        kept.lemma_filter_contains(outside(n), k);
                        let j = choose|j: int| 0 <= j < f.len() && f[j] == kept[k];
                        assert(r[j].covers(x));
                    }
                } else {
                    assert(r[f.len() as int].covers(x));
                }
            }
        }
    }
}

proof fn lemma_sublist_holds<A>(a: Seq<A>, b: Seq<A>, i: int)
    requires
        is_sublist(a, b),
        0 <= i < a.len(),
    ensures
        b.contains(a[i]),
    decreases b.len(),
{
    if a.last() == b.last() && is_sublist(a.drop_last(), b.drop_last()) {
        if i == a.len() - 1 {
            assert(b[b.len() - 1] == a[i]);
        } else {
            assert(a.drop_last()[i] == a[i]);
            lemma_sublist_holds(a.drop_last(), b.drop_last(), i);
            let k = choose|k: int| 0 <= k < b.len() - 1 && b.drop_last()[k] == a[i];
            assert(b[k] == a[i]);
        }
    } else {
        lemma_sublist_holds(a, b.drop_last(), i);
        let k = choose|k: int| 0 <= k < b.len() - 1 && b.drop_last()[k] == a[i];
        assert(b[k] == a[i]);
    }
}

proof fn lemma_sublist_push<A>(a: Seq<A>, b: Seq<A>)
    requires
        b.len() > 0,
        is_sublist(a, b.drop_last()),
    ensures
        is_sublist(a, b),
        is_sublist(a.push(b.last()), b),
{
    assert(a.push(b.last()).drop_last() =~= a);
}

/// What is left of a list of networks stood in the list in that order, and whatever
/// a network of the list probes, one that is left probes too.
pub proof fn first_come_loses_nothing(nets: Seq<Ipv4Net>)
    ensures
        is_sublist(first_come(nets), nets),
        forall|n: Ipv4Net| #[trigger] nets.contains(n) ==> served_by_any(first_come(nets), n),
    decreases nets.len(),
{
    if nets.len() > 0 {
        let init = nets.drop_last();
        let kept = first_come(init);
        let r = first_come(nets);
        first_come_loses_nothing(init);
        lemma_sublist_push(kept, nets);
        assert forall|n: Ipv4Net| #[trigger] nets.contains(n) implies served_by_any(r, n) by {
            let i = choose|i: int| 0 <= i < nets.len() && nets[i] == n;
            if i < init.len() {
                assert(init[i] == n);
                assert(init.contains(n));
                let k = choose|k: int| 0 <= k < kept.len() && arp::serves(#[trigger] kept[k], n);
                assert(r[k] == kept[k]);
            } else if !served_by_any(kept, n) {
                assert(r[kept.len() as int] == n);
                assert(arp::serves(n, n));
            }
        }
    }
}

proof fn lemma_first_come_extends(a: Seq<Ipv4Net>, b: Seq<Ipv4Net>)
    ensures
        first_come(a).len() <= first_come(a + b).len(),
        first_come(a + b).take(first_come(a).len() as int) == first_come(a),
    decreases b.len(),
{
    if b.len() == 0 {
        assert(a + b =~= a);
        assert(first_come(a).take(first_come(a).len() as int) =~= first_come(a));
    } else {
        let init = b.drop_last();
        lemma_first_come_extends(a, init);
        assert((a + b).drop_last() =~= a + init);
        let n = first_come(a).len() as int;
        assert(first_come(a + b).take(n) =~= first_come(a + init).take(n));
    }
}

/// An ignored range never comes back through the side door, and 169.254/16 is
/// never a target: whatever the scope, no target lies in an ignored range and none
/// is APIPA.
pub proof fn targets_are_eligible(
    scope: Scope,
    expected: Seq<Ipv4Net>,
    extra: Seq<Ipv4Net>,
    excluded: Seq<Ipv4Net>,
    hosts: Seq<HostView>,
    i: int,
)
    requires
        0 <= i < targets(scope, expected, extra, excluded, hosts).len(),
    ensures
        !net::covered_by_any(excluded, targets(scope, expected, extra, excluded, hosts)[i]),
        !iface::apipa_net(targets(scope, expected, extra, excluded, hosts)[i]),
        listed(scope, expected, extra, hosts).contains(
            targets(scope, expected, extra, excluded, hosts)[i],
        ),
{
    let all = listed(scope, expected, extra, hosts);
    let f = all.filter(eligible(excluded));
    let t = targets(scope, expected, extra, excluded, hosts);
    first_come_loses_nothing(f);
    lemma_sublist_holds(t, f, i);
    ordered::lemma_filter_holds(all, eligible(excluded), t[i]);
}

/// List order is wire order: the targets stand in the order in which the extra
/// ranges and the scope's networks were listed, the extra ranges first.
pub proof fn targets_keep_their_order(
    scope: Scope,
    expected: Seq<Ipv4Net>,
    extra: Seq<Ipv4Net>,
    excluded: Seq<Ipv4Net>,
    hosts: Seq<HostView>,
)
    ensures
        is_sublist(
            targets(scope, expected, extra, excluded, hosts),
            listed(scope, expected, extra, hosts),
        ),
{
    let all = listed(scope, expected, extra, hosts);
    first_come_loses_nothing(all.filter(eligible(excluded)));
    lemma_sublist_of_itself(all);
    lemma_filtered_sublist(all, all, eligible(excluded));
    lemma_sublist_is_transitive(
        targets(scope, expected, extra, excluded, hosts),
        all.filter(eligible(excluded)),
        all,
    );
}

/// The first range that was asked for and is worth sweeping is the first target, and
/// its blocks are the first to be swept, whatever else is listed behind it.
pub proof fn the_first_range_goes_first(
    scope: Scope,
    expected: Seq<Ipv4Net>,
    extra: Seq<Ipv4Net>,
    excluded: Seq<Ipv4Net>,
    hosts: Seq<HostView>,
    i: int,
)
    requires
        0 <= i < extra.len(),
        eligible(excluded)(extra[i]),
        forall|j: int| 0 <= j < i ==> !eligible(excluded)(#[trigger] extra[j]),
    ensures
        targets(scope, expected, extra, excluded, hosts).len() > 0,
        targets(scope, expected, extra, excluded, hosts)[0] == extra[i],
        arp::all_blocks(targets(scope, expected, extra, excluded, hosts)).take(
            arp::blocks(extra[i]).len() as int,
        ) == arp::blocks(extra[i]),
{
    let p = eligible(excluded);
    let all = listed(scope, expected, extra, hosts);
    let n = extra[i];
    let head = all.take(i);
    let tail = all.skip(i + 1);
    assert(all =~= head + (seq![n] + tail));
    Seq::filter_distributes_over_add(head, seq![n] + tail, p);
    Seq::filter_distributes_over_add(seq![n], tail, p);
    assert forall|j: int| 0 <= j < head.len() implies !p(#[trigger] head[j]) by {
        assert(head[j] == extra[j]);
    }
    ordered::lemma_filter_none(head, p);
    ordered::lemma_filter_all(seq![n], p);
    assert(all.filter(p) =~= seq![n] + tail.filter(p));
    lemma_first_come_extends(seq![n], tail.filter(p));
    assert(seq![n].drop_last() =~= Seq::empty());
    assert(!served_by_any(first_come(Seq::empty()), n));
    assert(first_come(seq![n]) =~= seq![n]);
    let t = targets(scope, expected, extra, excluded, hosts);
    assert(t.take(1)[0] == n);
    arp::first_blocks_are_the_first_networks(t);
}

/// List order is wire order, for whatever was listed: every batch for an address that
/// a listed network probes comes before any batch for an address that neither it nor
/// a network listed ahead of it holds. A later network drives none of them out,
/// however large it is.
pub proof fn listed_first_is_sent_first(
    scope: Scope,
    expected: Seq<Ipv4Net>,
    extra: Seq<Ipv4Net>,
    excluded: Seq<Ipv4Net>,
    hosts: Seq<HostView>,
    passes: nat,
    i: int,
    a: int,
    b: int,
    x: Ipv4Addr,
    y: Ipv4Addr,
)
    requires
        0 <= i < listed(scope, expected, extra, hosts).len(),
        eligible(excluded)(listed(scope, expected, extra, hosts)[i]),
        ({
            let batches = arp::plan(
                arp::all_blocks(targets(scope, expected, extra, excluded, hosts)),
                excluded,
                passes,
            );
            &&& 0 <= a < batches.len() && batches[a].contains(x)
            &&& 0 <= b < batches.len() && batches[b].contains(y)
        }),
        arp::probed_in(listed(scope, expected, extra, hosts)[i], x),
        !net::in_any(listed(scope, expected, extra, hosts).take(i + 1), y),
    ensures
        a < b,
{
    let p = eligible(excluded);
    let all = listed(scope, expected, extra, hosts);
    let n = all[i];
    let head = all.take(i + 1);
    let tail = all.skip(i + 1);
    assert(all =~= head + tail);
    Seq::filter_distributes_over_add(head, tail, p);
    lemma_first_come_extends(head.filter(p), tail.filter(p));
    first_come_loses_nothing(head.filter(p));
    let t = targets(scope, expected, extra, excluded, hosts);
    let first = first_come(head.filter(p));
    let rest = t.skip(first.len() as int);
    assert(t =~= first + rest);
    assert(head[i] == n);
    assert(head.contains(n));
    ordered::lemma_filter_holds(head, p, n);
    let k = choose|k: int| 0 <= k < first.len() && arp::serves(#[trigger] first[k], n);
    assert(arp::probed_in(first[k], x));
    if arp::probed_in_any(first, y) {
        let m = choose|m: int| 0 <= m < first.len() && arp::probed_in(#[trigger] first[m], y);
        lemma_sublist_holds(first, head.filter(p), m);
        ordered::lemma_filter_holds(head, p, first[m]);
        arp::probed_means_inside(first[m], y);
        let q = choose|q: int| 0 <= q < head.len() && head[q] == first[m];
        assert(head[q].has(y));
    }
    arp::first_listed_is_first_sent(first, rest, excluded, passes, a, b, x, y);
}

/// What was asked for goes first: every batch for an address that an extra range
/// probes comes before any batch for an address outside that range and the extra
/// ranges ahead of it, whatever the scope.
pub proof fn what_is_asked_for_goes_first(
    scope: Scope,
    expected: Seq<Ipv4Net>,
    extra: Seq<Ipv4Net>,
    excluded: Seq<Ipv4Net>,
    hosts: Seq<HostView>,
    passes: nat,
    i: int,
    a: int,
    b: int,
    x: Ipv4Addr,
    y: Ipv4Addr,
)
    requires
        0 <= i < extra.len(),
        eligible(excluded)(extra[i]),
        ({
            let batches = arp::plan(
                arp::all_blocks(targets(scope, expected, extra, excluded, hosts)),
                excluded,
                passes,
            );
            &&& 0 <= a < batches.len() && batches[a].contains(x)
            &&& 0 <= b < batches.len() && batches[b].contains(y)
        }),
        arp::probed_in(extra[i], x),
        !net::in_any(extra.take(i + 1), y),
    ensures
        a < b,
{
    let all = listed(scope, expected, extra, hosts);
    assert(all[i] == extra[i]);
    assert(all.take(i + 1) =~= extra.take(i + 1));
    listed_first_is_sent_first(
        scope,
        expected,
        extra,
        excluded,
        hosts,
        passes,
        i,
        a,
        b,
        x,
        y,
    );
}

proof fn lemma_sublist_of_itself<A>(a: Seq<A>)
    ensures
        is_sublist(a, a),
    decreases a.len(),
{
    if a.len() > 0 {
        lemma_sublist_of_itself(a.drop_last());
    }
}

proof fn lemma_sublist_drop<A>(a: Seq<A>, b: Seq<A>)
    requires
        a.len() > 0,
        is_sublist(a, b),
    ensures
        is_sublist(a.drop_last(), b),
    decreases b.len(),
{
    if a.last() == b.last() && is_sublist(a.drop_last(), b.drop_last()) {
    } else {
        lemma_sublist_drop(a, b.drop_last());
    }
}

proof fn lemma_sublist_is_transitive<A>(a: Seq<A>, b: Seq<A>, c: Seq<A>)
    requires
        is_sublist(a, b),
        is_sublist(b, c),
    ensures
        is_sublist(a, c),
    decreases c.len(),
{
    if a.len() > 0 {
        if b.last() == c.last() && is_sublist(b.drop_last(), c.drop_last()) {
            if a.last() == b.last() && is_sublist(a.drop_last(), b.drop_last()) {
                lemma_sublist_is_transitive(a.drop_last(), b.drop_last(), c.drop_last());
            } else {
                lemma_sublist_is_transitive(a, b.drop_last(), c.drop_last());
            }
        } else {
            lemma_sublist_is_transitive(a, b, c.drop_last());
        }
    }
}

/// No network that was asked for goes unswept: each extra range and each network of
/// the scope lies in a target, unless it is ignored or APIPA, and what it probes and
/// is not ignored is sent to once per pass.
pub proof fn what_was_asked_for_is_swept(
    scope: Scope,
    expected: Seq<Ipv4Net>,
    extra: Seq<Ipv4Net>,
    excluded: Seq<Ipv4Net>,
    hosts: Seq<HostView>,
    n: Ipv4Net,
    passes: nat,
    ip: Ipv4Addr,
)
    requires
        listed(scope, expected, extra, hosts).contains(n),
        !net::covered_by_any(excluded, n),
        !iface::apipa_net(n),
    ensures
        net::covered_by_any(targets(scope, expected, extra, excluded, hosts), n),
        arp::probed_in(n, ip) && !net::in_any(excluded, ip) ==> arp::times_in(
            arp::plan(
                arp::all_blocks(targets(scope, expected, extra, excluded, hosts)),
                excluded,
                passes,
            ),
            ip,
        ) == passes,
{
    let all = listed(scope, expected, extra, hosts);
    let t = targets(scope, expected, extra, excluded, hosts);
    ordered::lemma_filter_holds(all, eligible(excluded), n);
    first_come_loses_nothing(all.filter(eligible(excluded)));
    let k = choose|k: int| 0 <= k < t.len() && arp::serves(#[trigger] t[k], n);
    assert(t[k].covers(n));
    arp::a_sweep_reaches_each_address(t, excluded, passes, ip);
    if arp::probed_in(n, ip) {
        assert(arp::probed_in(t[k], ip));
    }
}

/// No address is sent to for two targets: the batches of one and the batches of
/// another have no address in common, though a small target may lie in a large one
/// behind it.
pub proof fn targets_do_not_overlap(
    scope: Scope,
    expected: Seq<Ipv4Net>,
    extra: Seq<Ipv4Net>,
    excluded: Seq<Ipv4Net>,
    hosts: Seq<HostView>,
    passes: nat,
    i: int,
    j: int,
    ip: Ipv4Addr,
)
    requires
        0 <= i < j < targets(scope, expected, extra, excluded, hosts).len(),
    ensures
        ({
            let t = targets(scope, expected, extra, excluded, hosts);
            arp::times_in(arp::share(t, i, excluded, passes), ip) == 0 || arp::times_in(
                arp::share(t, j, excluded, passes),
                ip,
            ) == 0
        }),
{
    let t = targets(scope, expected, extra, excluded, hosts);
    arp::shares_do_not_overlap(t, i, j, excluded, passes, ip);
}

/// A scan's sweep: every address that a target probes and no ignored range holds is
/// sent to exactly once per pass, and no other address is sent to at all.
pub proof fn a_scan_reaches_each_address_once_per_pass(
    scope: Scope,
    expected: Seq<Ipv4Net>,
    extra: Seq<Ipv4Net>,
    excluded: Seq<Ipv4Net>,
    hosts: Seq<HostView>,
    passes: nat,
    ip: Ipv4Addr,
)
    ensures
        arp::times_in(
            arp::plan(
                arp::all_blocks(targets(scope, expected, extra, excluded, hosts)),
                excluded,
                passes,
            ),
            ip,
        ) == (if !net::in_any(excluded, ip) && arp::probed_in_any(
            targets(scope, expected, extra, excluded, hosts),
            ip,
        ) {
            passes
        } else {
            0
        }),
{
    arp::a_sweep_reaches_each_address(
        targets(scope, expected, extra, excluded, hosts),
        excluded,
        passes,
        ip,
    );
}

/// The /24 around an address is one, holds the address and starts where a /24 does.
pub proof fn the_subnet_around_an_address(ip: Ipv4Addr)
    ensures
        around(ip).prefix_len == 24,
        around(ip).has(ip),
        around(ip).first() == ip.bits - ip.bits % 256,
        around(ip).last() == ip.bits - ip.bits % 256 + 255,
{
    let n = Ipv4Net { addr: ip, prefix_len: 24 };
    net::lemma_span_values();
    net::lemma_truncated_keeps_block(n);
    n.lemma_bounds();
}

proof fn lemma_revealed(hosts: Seq<HostView>, i: int, ip: Ipv4Addr)
    requires
        0 <= i < hosts.len(),
        hosts[i].identity().contains(ip),
    ensures
        revealed(hosts).contains(around(ip)),
    decreases hosts.len(),
{
    let init = hosts.drop_last();
    let before = revealed(init);
    let own = around_all(hosts.last().identity());
    if i < init.len() {
        assert(init[i] == hosts[i]);
        lemma_revealed(init, i, ip);
        let k = choose|k: int| 0 <= k < before.len() && before[k] == around(ip);
        assert((before + own)[k] == around(ip));
    } else {
        let ips = hosts.last().identity();
        let k = choose|k: int| 0 <= k < ips.len() && ips[k] == ip;
        assert((before + own)[before.len() + k] == around(ip));
    }
}

/// Does the list hold a whole /24 with that address in it?
pub open spec fn lists_subnet_of(nets: Seq<Ipv4Net>, ip: Ipv4Addr) -> bool {
    exists|k: int|
        0 <= k < nets.len() && (#[trigger] nets[k]).prefix_len == 24 && nets[k].has(ip)
}

/// Whatever device listening turned up, and whatever address stands for it, the whole
/// /24 around that address is listed; and every address of that /24 that is neither one
/// of its ends nor ignored nor APIPA is sent to once per pass.
pub proof fn what_was_heard_is_swept(
    expected: Seq<Ipv4Net>,
    extra: Seq<Ipv4Net>,
    excluded: Seq<Ipv4Net>,
    hosts: Seq<HostView>,
    passes: nat,
    i: int,
    ip: Ipv4Addr,
    near: Ipv4Addr,
)
    requires
        0 <= i < hosts.len(),
        hosts[i].identity().contains(ip),
    ensures
        lists_subnet_of(listed(Scope::Auto, expected, extra, hosts), ip),
        near.bits / 256 == ip.bits / 256 && near.bits % 256 != 0 && near.bits % 256 != 255
            && !net::in_any(excluded, near) && ip.bits / 0x1_0000 != 0xa9fe ==> arp::times_in(
            arp::plan(
                arp::all_blocks(targets(Scope::Auto, expected, extra, excluded, hosts)),
                excluded,
                passes,
            ),
            near,
        ) == passes,
{
    let n = around(ip);
    let all = listed(Scope::Auto, expected, extra, hosts);
    lemma_revealed(hosts, i, ip);
    the_subnet_around_an_address(ip);
    let r = revealed(hosts);
    let k = choose|k: int| 0 <= k < r.len() && r[k] == n;
    let at = extra.len() + expected.len() + k;
    assert(all[at] == n);
    assert(all[at].prefix_len == 24 && all[at].has(ip));
    if near.bits / 256 == ip.bits / 256 && near.bits % 256 != 0 && near.bits % 256 != 255
        && !net::in_any(excluded, near) && ip.bits / 0x1_0000 != 0xa9fe {
        assert(n.has(near));
        if net::covered_by_any(excluded, n) {
            let m = choose|m: int| 0 <= m < excluded.len() && (#[trigger] excluded[m]).covers(n);
            assert(excluded[m].has(near));
        }
        assert(n.addr.bits == ip.bits - ip.bits % 256);
        assert(!iface::apipa_net(n));
        assert(all.contains(n));
        arp::probed_means_inside(n, near);
        what_was_asked_for_is_swept(Scope::Auto, expected, extra, excluded, hosts, n, passes, near);
    }
}

/// What the scopes list behind the extra ranges: auto, every expected subnet and every
/// factory default; private16, all of 192.168/16; rfc1918, all of the private space; and
/// the last one nothing.
pub proof fn scopes_list_what_they_promise(
    expected: Seq<Ipv4Net>,
    extra: Seq<Ipv4Net>,
    hosts: Seq<HostView>,
    n: Ipv4Net,
    ip: Ipv4Addr,
)
    ensures
        expected.contains(n) || cli::factory_nets().contains(n) ==> listed(
            Scope::Auto,
            expected,
            extra,
            hosts,
        ).contains(n),
        net::in_any(listed(Scope::Private16, expected, extra, hosts), ip) <==> net::in_any(extra, ip)
            || 0xc0a8_0000 <= ip.bits <= 0xc0a8_ffff,
        net::in_any(listed(Scope::Rfc1918, expected, extra, hosts), ip) <==> net::in_any(extra, ip)
            || 0xc0a8_0000 <= ip.bits <= 0xc0a8_ffff || 0xac10_0000 <= ip.bits <= 0xac1f_ffff
            || 0x0a00_0000 <= ip.bits <= 0x0aff_ffff,
        listed(Scope::Nothing, expected, extra, hosts) == extra,
        extra.contains(n) ==> forall|s: Scope| #[trigger]
            listed(s, expected, extra, hosts).contains(n),
{
    let auto = listed(Scope::Auto, expected, extra, hosts);
    let f = cli::factory_nets();
    if expected.contains(n) {
        let k = choose|k: int| 0 <= k < expected.len() && expected[k] == n;
        assert(auto[extra.len() + k] == n);
    }
    if f.contains(n) {
        let k = choose|k: int| 0 <= k < f.len() && f[k] == n;
        assert(auto[extra.len() + expected.len() + revealed(hosts).len() + k] == n);
    }
    net::lemma_span_values();
    lemma_scope_blocks(ip);
    let p = listed(Scope::Private16, expected, extra, hosts);
    let r = listed(Scope::Rfc1918, expected, extra, hosts);
    let e = extra.len() as int;
    assert(p[e] == net_192());
    assert(r[e] == net_192() && r[e + 1] == net_172() && r[e + 2] == net_10());
    if net::in_any(extra, ip) {
        let k = choose|k: int| 0 <= k < extra.len() && (#[trigger] extra[k]).has(ip);
        assert(p[k].has(ip) && r[k].has(ip));
    }
    if net::in_any(p, ip) {
        let k = choose|k: int| 0 <= k < p.len() && (#[trigger] p[k]).has(ip);
        if k < e {
            assert(extra[k].has(ip));
        }
    }
    if net::in_any(r, ip) {
        let k = choose|k: int| 0 <= k < r.len() && (#[trigger] r[k]).has(ip);
        if k < e {
            assert(extra[k].has(ip));
        }
    }
    if net_192().has(ip) {
        assert(p[e].has(ip) && r[e].has(ip));
    }
    if net_172().has(ip) {
        assert(r[e + 1].has(ip));
    }
    if net_10().has(ip) {
        assert(r[e + 2].has(ip));
    }
    assert(listed(Scope::Nothing, expected, extra, hosts) =~= extra);
    if extra.contains(n) {
        let k = choose|k: int| 0 <= k < extra.len() && extra[k] == n;
        assert forall|s: Scope| #[trigger] listed(s, expected, extra, hosts).contains(n) by {
            assert(listed(s, expected, extra, hosts)[k] == n);
        }
    }
}

proof fn lemma_scope_blocks(ip: Ipv4Addr)
    ensures
        net_192().has(ip) <==> 0xc0a8_0000 <= ip.bits <= 0xc0a8_ffff,
        net_172().has(ip) <==> 0xac10_0000 <= ip.bits <= 0xac1f_ffff,
        net_10().has(ip) <==> 0x0a00_0000 <= ip.bits <= 0x0aff_ffff,
{
    net::lemma_span_values();
    assert(net_192().addr.bits == 0xc0a8_0000);
    assert(net_172().addr.bits == 0xac10_0000);
    assert(net_10().addr.bits == 0x0a00_0000);
    assert(net::span(23) == 0x200);
    assert(net::span(22) == 0x400);
    assert(net::span(21) == 0x800);
    assert(net::span(20) == 0x1000);
    assert(net::span(19) == 0x2000);
    assert(net::span(18) == 0x4000);
    assert(net::span(17) == 0x8000);
    assert(net::span(16) == 0x10000);
    assert(net::span(15) == 0x20000);
    assert(net::span(14) == 0x40000);
    assert(net::span(13) == 0x80000);
    assert(net::span(12) == 0x100000);
    assert(net::span(11) == 0x200000);
    assert(net::span(10) == 0x400000);
    assert(net::span(9) == 0x800000);
    assert(net::span(8) == 0x1000000);
    assert(0xc0a8_0000int % 0x1_0000int == 0 && 0xac10_0000int % 0x10_0000int == 0);
    assert(0x0a00_0000int % 0x100_0000int == 0);
    assert(net_192().first() == 0xc0a8_0000);
    assert(net_172().first() == 0xac10_0000);
    assert(net_10().first() == 0x0a00_0000);
}

// ---------------------------------------------------------------------
// The four layers
// ---------------------------------------------------------------------

/// How far a scan has come.
#[derive(Debug, Clone, Copy, PartialEq, Eq, Structural)]
pub enum Stage {
    /// Nothing has been done.
    Start,
    /// The air has been listened to.
    Listened,
    /// The link has been enumerated over IPv6, or that was skipped.
    Enumerated,
    /// The networks have been swept.
    Swept,
    /// The replies have been collected.
    Collected,
    /// Everything is done.
    Over,
}

/// What a scan has to do next.
#[derive(Debug)]
pub enum Task {
    /// Listen only, for that many seconds.
    Listen { secs: u64 },
    /// Send the echo requests to ff02::1 and give the replies two seconds.
    Enumerate,
    /// The link cannot be enumerated: we have no link-local address.
    NoLinkLocal,
    /// Sweep the networks.
    Sweep { nets: Vec<Ipv4Net> },
    /// Wait for replies, for that many nanoseconds.
    Collect { nanos: u128 },
    /// Nothing is left to do.
    Finish,
}

/// A [`Task`] with its list as a sequence.
#[verifier::ext_equal]
pub enum TaskView {
    Listen { secs: u64 },
    Enumerate,
    NoLinkLocal,
    Sweep { nets: Seq<Ipv4Net> },
    Collect { nanos: nat },
    Finish,
}

impl View for Task {
    type V = TaskView;

    open spec fn view(&self) -> TaskView {
        match self {
            Task::Listen { secs } => TaskView::Listen { secs: *secs },
            Task::Enumerate => TaskView::Enumerate,
            Task::NoLinkLocal => TaskView::NoLinkLocal,
            Task::Sweep { nets } => TaskView::Sweep { nets: nets@ },
            Task::Collect { nanos } => TaskView::Collect { nanos: *nanos as nat },
            Task::Finish => TaskView::Finish,
        }
    }
}

impl TaskView {
    /// The phase that a task puts the scan in, if it does.
    pub open spec fn phase(self) -> Option<Phase> {
        match self {
            TaskView::Listen { .. } => Some(Phase::Passive),
            TaskView::Enumerate => Some(Phase::Ipv6),
            TaskView::NoLinkLocal => None,
            TaskView::Sweep { .. } => Some(Phase::Sweep),
            TaskView::Collect { .. } => Some(Phase::Collecting),
            TaskView::Finish => Some(Phase::Done),
        }
    }

    /// Does the task put packets on the wire?
    pub open spec fn sends(self) -> bool {
        self is Enumerate || self is Sweep
    }
}

impl Task {
    /// The phase that a task puts the scan in, if it does.
    pub fn phase(&self) -> (r: Option<Phase>)
        ensures
            r == self@.phase(),
    {
        match self {
            Task::Listen { .. } => Some(Phase::Passive),
            Task::Enumerate => Some(Phase::Ipv6),
            Task::NoLinkLocal => None,
            Task::Sweep { .. } => Some(Phase::Sweep),
            Task::Collect { .. } => Some(Phase::Collecting),
            Task::Finish => Some(Phase::Done),
        }
    }
}

/// The networks that a scan sweeps, given what it has seen so far.
pub open spec fn config_targets(cfg: ConfigView, inv: InventoryView) -> Seq<Ipv4Net> {
    targets(cfg.scope, cfg.expected, cfg.ranges, cfg.excluded, inv.hosts)
}

/// Layers 3 and 4: the ARP sweep, unless there is nothing to sweep or the user
/// wants to stop.
pub open spec fn sweep_next(cfg: ConfigView, inv: InventoryView, stop: bool) -> (Stage, TaskView) {
    if config_targets(cfg, inv).len() == 0 || stop {
        (Stage::Over, TaskView::Finish)
    } else {
        (Stage::Swept, TaskView::Sweep { nets: config_targets(cfg, inv) })
    }
}

/// Layer 2, the enumeration over IPv6, and what follows. Nothing is sent where
/// nothing is to be sent at all or the user wants to stop.
pub open spec fn enumerate_next(
    cfg: ConfigView,
    link_local: bool,
    inv: InventoryView,
    stop: bool,
) -> (Stage, TaskView) {
    if cfg.passive_only || stop {
        (Stage::Over, TaskView::Finish)
    } else if cfg.no_ipv6 {
        sweep_next(cfg, inv, stop)
    } else if link_local {
        (Stage::Enumerated, TaskView::Enumerate)
    } else {
        (Stage::Enumerated, TaskView::NoLinkLocal)
    }
}

/// What a scan does next and how far it then is.
pub open spec fn next_task(
    cfg: ConfigView,
    link_local: bool,
    stage: Stage,
    inv: InventoryView,
    stop: bool,
    sweep_nanos: nat,
) -> (Stage, TaskView) {
    match stage {
        Stage::Start => if cfg.passive_secs > 0 {
            (Stage::Listened, TaskView::Listen { secs: cfg.passive_secs })
        } else {
            enumerate_next(cfg, link_local, inv, stop)
        },
        Stage::Listened => enumerate_next(cfg, link_local, inv, stop),
        Stage::Enumerated => sweep_next(cfg, inv, stop),
        Stage::Swept => (Stage::Collected, TaskView::Collect { nanos: window(sweep_nanos) }),
        Stage::Collected => (Stage::Over, TaskView::Finish),
        Stage::Over => (Stage::Over, TaskView::Finish),
    }
}

fn after_enumeration(cfg: &ScanConfig, inv: &Inventory, stop: bool) -> (r: (Stage, Task))
    ensures
        (r.0, r.1@) == sweep_next(cfg@, inv@, stop),
{
    let nets: Vec<Ipv4Net> = build_targets(
        cfg.scope,
        cfg.expected.as_slice(),
        cfg.ranges.as_slice(),
        cfg.excluded.as_slice(),
        inv,
    );
    if nets.len() == 0 || stop {
        (Stage::Over, Task::Finish)
    } else {
        (Stage::Swept, Task::Sweep { nets })
    }
}

fn after_listening(cfg: &ScanConfig, local: &Local, inv: &Inventory, stop: bool) -> (r: (Stage, Task))
    ensures
        (r.0, r.1@) == enumerate_next(cfg@, local.link_local is Some, inv@, stop),
{
    if cfg.passive_only || stop {
        return (Stage::Over, Task::Finish);
    }
    if cfg.no_ipv6 {
        return after_enumeration(cfg, inv, stop);
    }
    if local.link_local.is_some() {
        (Stage::Enumerated, Task::Enumerate)
    } else {
        (Stage::Enumerated, Task::NoLinkLocal)
    }
}

/// The four layers, one task at a time. The collector feeds the inventory while the
/// tasks are carried out; `stop` is whether the user wants to stop by now, and
/// `sweep_nanos` how long the sweep took, once there was one.
pub fn run_layers(
    cfg: &ScanConfig,
    local: &Local,
    stage: Stage,
    inv: &Inventory,
    stop: bool,
    sweep_nanos: u128,
) -> (r: (Stage, Task))
    ensures
        (r.0, r.1@) == next_task(
            cfg@,
            local.link_local is Some,
            stage,
            inv@,
            stop,
            sweep_nanos as nat,
        ),
{
    match stage {
        Stage::Start => {
            if cfg.passive_secs > 0 {
                (Stage::Listened, Task::Listen { secs: cfg.passive_secs })
            } else {
                after_listening(cfg, local, inv, stop)
            }
        },
        Stage::Listened => after_listening(cfg, local, inv, stop),
        Stage::Enumerated => after_enumeration(cfg, inv, stop),
        Stage::Swept => (Stage::Collected, Task::Collect { nanos: collect_window(sweep_nanos) }),
        Stage::Collected => (Stage::Over, Task::Finish),
        Stage::Over => (Stage::Over, Task::Finish),
    }
}

/// How many tasks a scan can at most still have.
pub open spec fn tasks_left(stage: Stage) -> nat {
    match stage {
        Stage::Start => 5,
        Stage::Listened => 4,
        Stage::Enumerated => 3,
        Stage::Swept => 2,
        Stage::Collected => 1,
        Stage::Over => 0,
    }
}

/// A scan comes to an end: every task but the last brings it nearer.
pub proof fn a_scan_ends(
    cfg: ConfigView,
    link_local: bool,
    stage: Stage,
    inv: InventoryView,
    stop: bool,
    sweep_nanos: nat,
)
    ensures
        next_task(cfg, link_local, stage, inv, stop, sweep_nanos).1 is Finish <==> next_task(
            cfg,
            link_local,
            stage,
            inv,
            stop,
            sweep_nanos,
        ).0 == Stage::Over,
        stage != Stage::Over ==> tasks_left(
            next_task(cfg, link_local, stage, inv, stop, sweep_nanos).0,
        ) < tasks_left(stage),
{
}

/// A scan goes through its layers in order and leaves none out that was asked for: it
/// listens for as long as it was told to; then, unless it was to listen only, it
/// enumerates the link where that can be done; then it sweeps all its targets; and then
/// it waits for the replies.
pub proof fn layers_follow_one_another(
    cfg: ConfigView,
    link_local: bool,
    inv: InventoryView,
    sweep_nanos: nat,
)
    ensures
        ({
            let at = |s: Stage| next_task(cfg, link_local, s, inv, false, sweep_nanos);
            let t = targets(cfg.scope, cfg.expected, cfg.ranges, cfg.excluded, inv.hosts);
            &&& cfg.passive_secs > 0 ==> at(Stage::Start) == (
                Stage::Listened,
                TaskView::Listen { secs: cfg.passive_secs },
            )
            &&& cfg.passive_secs == 0 ==> at(Stage::Start) == at(Stage::Listened)
            &&& cfg.passive_only ==> at(Stage::Listened).1 is Finish
            &&& !cfg.passive_only && !cfg.no_ipv6 ==> at(Stage::Listened).0 == Stage::Enumerated
                && (at(Stage::Listened).1 is Enumerate <==> link_local)
            &&& !cfg.passive_only && cfg.no_ipv6 ==> at(Stage::Listened) == at(Stage::Enumerated)
            &&& t.len() > 0 ==> at(Stage::Enumerated) == (
                Stage::Swept,
                TaskView::Sweep { nets: t },
            )
            &&& t.len() == 0 ==> at(Stage::Enumerated).1 is Finish
            &&& at(Stage::Swept).0 == Stage::Collected && at(Stage::Swept).1 is Collect
        }),
{
}

/// The replies to a sweep are waited for even where the user wants to stop, for half as
/// long as the sweep took where that lies between half a second and three seconds.
pub proof fn replies_are_waited_for(
    cfg: ConfigView,
    link_local: bool,
    inv: InventoryView,
    stop: bool,
    sweep_nanos: nat,
)
    ensures
        ({
            let task = next_task(cfg, link_local, Stage::Swept, inv, stop, sweep_nanos).1;
            &&& task is Collect
            &&& sweep_nanos <= 1_000_000_000 ==> task->nanos == 500_000_000
            &&& 1_000_000_000 <= sweep_nanos <= 6_000_000_000 ==> 2 * task->nanos <= sweep_nanos
                < 2 * task->nanos + 2
            &&& sweep_nanos >= 6_000_000_000 ==> task->nanos == 3_000_000_000
        }),
{
}

/// Once the user wants to stop, nothing more is sent, whatever comes next.
pub proof fn nothing_is_sent_after_a_stop(
    cfg: ConfigView,
    link_local: bool,
    stage: Stage,
    inv: InventoryView,
    sweep_nanos: nat,
)
    ensures
        !next_task(cfg, link_local, stage, inv, true, sweep_nanos).1.sends(),
{
}

/// Listening only means that nothing is ever sent: such a scan listens, if it is to
/// listen at all, and is over.
pub proof fn listening_only_sends_nothing(
    cfg: ConfigView,
    link_local: bool,
    stage: Stage,
    inv: InventoryView,
    stop: bool,
    sweep_nanos: nat,
)
    requires
        cfg.passive_only,
        stage == Stage::Start || stage == Stage::Listened || stage == Stage::Over,
    ensures
        !next_task(cfg, link_local, stage, inv, stop, sweep_nanos).1.sends(),
        next_task(cfg, link_local, stage, inv, stop, sweep_nanos).0 == Stage::Listened || next_task(
            cfg,
            link_local,
            stage,
            inv,
            stop,
            sweep_nanos,
        ).0 == Stage::Over,
{
}

// ---------------------------------------------------------------------
// Watching
// ---------------------------------------------------------------------

/// Is the finding flagged, and its MAC not among those reported before?
pub open spec fn is_fresh(known: Seq<Seq<char>>) -> spec_fn(FindingView) -> bool {
    |f: FindingView| f.flags.len() > 0 && !known.contains(f.mac)
}

/// The MACs of findings.
pub open spec fn macs_of(fs: Seq<FindingView>) -> Seq<Seq<char>> {
    Seq::new(fs.len(), |i: int| fs[i].mac)
}

fn is_known(known: &Vec<String>, mac: &str) -> (r: bool)
    ensures
        r == text::views(known@).contains(mac@),
{
    let mut i: usize = 0;
    while i < known.len()
        invariant
            i <= known.len(),
            forall|j: int| 0 <= j < i ==> (#[trigger] known@[j])@ != mac@,
        decreases known.len() - i,
    {
        if text::same_text(known[i].as_str(), mac) {
            assert(text::views(known@)[i as int] == mac@);
            return true;
        }
        i = i + 1;
    }
    assert forall|j: int| 0 <= j < known@.len() implies text::views(known@)[j] != mac@ by {
        assert(text::views(known@)[j] == known@[j]@);
    }
    false
}

/// The findings that were not reported before. From now on they count as reported.
pub fn fresh(findings: &Vec<Finding>, known: &mut Vec<String>) -> (r: Vec<Finding>)
    ensures
        correlate::finding_views(r@) == correlate::finding_views(findings@).filter(
            is_fresh(text::views(old(known)@)),
        ),
        text::views(final(known)@) == text::views(old(known)@) + macs_of(
            correlate::finding_views(r@),
        ),
{
    let ghost all = correlate::finding_views(findings@);
    let ghost p = is_fresh(text::views(known@));
    let mut out: Vec<Finding> = Vec::new();
    let mut i: usize = 0;
    proof {
        assert(all.take(0) =~= Seq::empty());
        ordered::lemma_filter_none(all.take(0), p);
        assert(correlate::finding_views(out@) =~= Seq::empty());
    }
    while i < findings.len()
        invariant
            i <= findings.len(),
            known@ == old(known)@,
            all == correlate::finding_views(findings@),
            p == is_fresh(text::views(known@)),
            correlate::finding_views(out@) == all.take(i as int).filter(p),
        decreases findings.len() - i,
    {
        let f: &Finding = &findings[i];
        let ghost before = out@;
        proof {
            ordered::lemma_filter_step(all, i as int, p);
            assert(all[i as int] == f@);
            assert(f@.flags.len() == f.flags@.len());
        }
        if f.flags.len() > 0 && !is_known(known, f.mac.as_str()) {
            let c = f.clone();
            out.push(c);
            assert(correlate::finding_views(out@) =~= correlate::finding_views(before).push(f@));
        }
        i = i + 1;
    }
    assert(all.take(findings.len() as int) =~= all);
    let ghost new = correlate::finding_views(out@);
    let mut j: usize = 0;
    assert(text::views(known@) =~= text::views(old(known)@) + macs_of(new.take(0)));
    while j < out.len()
        invariant
            j <= out.len(),
            new == correlate::finding_views(out@),
            text::views(known@) == text::views(old(known)@) + macs_of(new.take(j as int)),
        decreases out.len() - j,
    {
        let ghost before = known@;
        known.push(out[j].mac.clone());
        assert(text::views(known@) =~= text::views(before).push(out@[j as int].mac@));
        assert(macs_of(new.take(j + 1)) =~= macs_of(new.take(j as int)).push(out@[j as int].mac@));
        j = j + 1;
    }
    assert(new.take(out.len() as int) =~= new);
    out
}

/// Nothing is reported twice: what a cycle reports, no later cycle does.
pub proof fn nothing_is_reported_twice(
    known: Seq<Seq<char>>,
    first: Seq<FindingView>,
    later: Seq<FindingView>,
    i: int,
    j: int,
)
    requires
        0 <= i < first.filter(is_fresh(known)).len(),
        0 <= j < later.filter(is_fresh(known + macs_of(first.filter(is_fresh(known))))).len(),
    ensures
        first.filter(is_fresh(known))[i].mac != later.filter(
            is_fresh(known + macs_of(first.filter(is_fresh(known)))),
        )[j].mac,
{
    let a = first.filter(is_fresh(known));
    let k = known + macs_of(a);
    later.lemma_filter_pred(is_fresh(k), j);
    assert(k[known.len() + i] == a[i].mac);
}

/// A cycle reports every finding that bears a flag and whose MAC was not reported
/// before, and no other.
pub proof fn what_is_new_is_reported(
    known: Seq<Seq<char>>,
    findings: Seq<FindingView>,
    f: FindingView,
)
    ensures
        findings.filter(is_fresh(known)).contains(f) <==> {
            &&& findings.contains(f)
            &&& f.flags.len() > 0
            &&& forall|k: int| 0 <= k < known.len() ==> #[trigger] known[k] != f.mac
        },
{
    ordered::lemma_filter_holds(findings, is_fresh(known), f);
    if known.contains(f.mac) {
        let k = choose|k: int| 0 <= k < known.len() && known[k] == f.mac;
        assert(known[k] == f.mac);
    } else {
        assert forall|k: int| 0 <= k < known.len() implies #[trigger] known[k] != f.mac by {
            if known[k] == f.mac {
                assert(known.contains(f.mac));
            }
        }
    }
}

/// A scan takes over what the command line says: each range under its own role, in
/// order and with its host bits cleared, and every other setting as it is. What is
/// expected holds the subnets given, or else our own.
pub proof fn the_command_line_is_taken_over(cli: CliView, all: Seq<InterfaceView>)
    requires
        asked_for(cli, all) is Ok,
    ensures
        ({
            let c = asked_for(cli, all)->Ok_0;
            &&& c.ranges.len() == cli.ranges.len() && forall|i: int|
                0 <= i < cli.ranges.len() ==> c.ranges[i] == (Ipv4Net::parsed(
                    #[trigger] cli.ranges[i],
                )->0).truncated()
            &&& c.excluded.len() == cli.excluded.len() && forall|i: int|
                0 <= i < cli.excluded.len() ==> c.excluded[i] == (Ipv4Net::parsed(
                    #[trigger] cli.excluded[i],
                )->0).truncated()
            &&& forall|i: int|
                0 <= i < cli.expected.len() ==> c.expected.contains(
                    (Ipv4Net::parsed(#[trigger] cli.expected[i])->0).truncated(),
                )
            &&& cli.expected.len() > 0 ==> c.expected.len() == cli.expected.len()
                + cli.excluded.len()
            &&& cli.expected.len() == 0 ==> iface::resolved(all, cli.iface) is Ok && ((
            iface::resolved(all, cli.iface)->Ok_0).net matches Some(n) ==> c.expected.contains(n))
            &&& c.iface == cli.iface && c.scope == cli.scope && c.pace.rate == cli.rate
                && c.pace.settle_ms == cli.settle && c.pace.passes == cli.passes && c.passive_secs
                == cli.passive_secs && c.passive_only == cli.passive_only && c.no_ipv6
                == cli.no_ipv6 && c.leases_file == cli.leases_file
        }),
{
    let c = asked_for(cli, all)->Ok_0;
    cli::nets_are_read_one_by_one(cli.ranges);
    cli::nets_are_read_one_by_one(cli.excluded);
    cli::nets_are_read_one_by_one(cli.expected);
    if cli.expected.len() > 0 {
        let e = cli::nets_of(cli.expected)->Ok_0;
        assert forall|i: int| 0 <= i < cli.expected.len() implies c.expected.contains(
            (Ipv4Net::parsed(#[trigger] cli.expected[i])->0).truncated(),
        ) by {
            assert(c.expected[i] == e[i]);
        }
    } else {
        if let Some(n) = (iface::resolved(all, cli.iface)->Ok_0).net {
            assert(c.expected[0] == n);
        }
    }
}

/// A scan is made ready on the interface that its name resolves to, and under our own
/// address only where that interface has one.
pub proof fn a_scan_is_made_ready(cfg: ConfigView, all: Seq<InterfaceView>)
    ensures
        ready(cfg, all) is Ok <==> {
            &&& iface::resolved(all, cfg.iface) is Ok
            &&& cfg.spa == Spa::Local ==> (iface::resolved(all, cfg.iface)->Ok_0).ipv4 is Some
        },
        ready(cfg, all) matches Ok(l) ==> iface::resolved(all, cfg.iface) == Ok::<
            LocalView,
            ErrorView,
        >(l),
{
}

/// A wish to stop is heeded between two layers: what has not begun by then is left out,
/// but listening, which ends by itself, is begun in any case.
pub proof fn a_stop_ends_a_scan(
    cfg: ConfigView,
    link_local: bool,
    inv: InventoryView,
    sweep_nanos: nat,
)
    ensures
        ({
            let at = |s: Stage| next_task(cfg, link_local, s, inv, true, sweep_nanos);
            &&& cfg.passive_secs > 0 ==> at(Stage::Start) == (
                Stage::Listened,
                TaskView::Listen { secs: cfg.passive_secs },
            )
            &&& cfg.passive_secs == 0 ==> at(Stage::Start) == (Stage::Over, TaskView::Finish)
            &&& at(Stage::Listened) == (Stage::Over, TaskView::Finish)
            &&& at(Stage::Enumerated) == (Stage::Over, TaskView::Finish)
            &&& at(Stage::Collected) == (Stage::Over, TaskView::Finish)
        }),
{
}

/// Every phase has its own number and its own name, and is found by its number.
pub proof fn phases_are_told_apart(a: Phase, b: Phase)
    ensures
        Phase::of(a.number()) == a,
        a != b ==> a.number() != b.number(),
        a != b ==> a.name() != b.name(),
{
    reveal_strlit("idle");
    reveal_strlit("passive listening");
    reveal_strlit("IPv6 enumeration");
    reveal_strlit("ARP sweep");
    reveal_strlit("collecting replies");
    reveal_strlit("done");
    let (x, y) = (a.name(), b.name());
    if a != b && x == y {
        assert(x[0] == y[0]);
    }
}

/// While it listens, enumerates, sweeps, waits or is done, a scan is in the phase of
/// that name; only the note that there is no link-local address leaves it in the one
/// before.
pub proof fn a_task_has_its_phase(t: TaskView)
    ensures
        t is Listen <==> t.phase() == Some(Phase::Passive),
        t is Enumerate <==> t.phase() == Some(Phase::Ipv6),
        t is Sweep <==> t.phase() == Some(Phase::Sweep),
        t is Collect <==> t.phase() == Some(Phase::Collecting),
        t is Finish <==> t.phase() == Some(Phase::Done),
        t is NoLinkLocal <==> t.phase() is None,
        t.sends() <==> t.phase() == Some(Phase::Ipv6) || t.phase() == Some(Phase::Sweep),
{
}

} // verus!
