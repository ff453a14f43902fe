//! What the command line asks for.
use crate::addr::Ipv4Addr;
use crate::error::{Error, ErrorView};
use crate::iface::{self, Interface, InterfaceView};
use crate::net::Ipv4Net;
use crate::text;
use vstd::prelude::*;

verus! {

broadcast use vstd::seq::group_seq_axioms;

/// The command line, read.
#[derive(Debug)]
pub struct Cli {
    /// Network interface to use (auto-detects the first active one if omitted).
    pub iface: Option<String>,
    /// Open the interactive interface (TUI) instead of the command line mode.
    pub tui: bool,
    /// Subnet(s) treated as legitimate. Defaults to the interface's own subnet.
    pub expected: Vec<String>,
    /// Range(s) to IGNORE (the TUI form's "!"): they receive not a single packet
    /// and nothing coming from them is flagged.
    pub excluded: Vec<String>,
    /// Scope of the active sweep.
    pub scope: Scope,
    /// Extra subnets to sweep.
    pub ranges: Vec<String>,
    /// Seconds of passive listening before the active sweep.
    pub passive_secs: u64,
    /// ARP packets per second inside each /24 block.
    pub rate: u64,
    /// Silence after each /24, in ms.
    pub settle: u64,
    /// How many times to resend each /24.
    pub passes: u32,
    /// Send nothing at all: passive listening only (stealth mode).
    pub passive_only: bool,
    /// Skip the ICMPv6 enumeration of ff02::1.
    pub no_ipv6: bool,
    /// Read leases from a file (dnsmasq.leases or dhcpd.leases) besides sniffing.
    pub leases_file: Option<String>,
    /// Continuous monitoring: repeats the cycles and reports only what is new.
    pub watch: bool,
    /// Interval between cycles in --watch mode, in seconds.
    pub watch_interval: u64,
    /// JSON output instead of a table.
    pub json: bool,
    /// CSV output instead of a table.
    pub csv: bool,
    /// Show every host, including those with no flag at all.
    pub all: bool,
    /// Sender IP of the ARP requests.
    pub spa: String,
}

/// A [`Cli`] with its text as characters.
pub struct CliView {
    pub iface: Option<Seq<char>>,
    pub tui: bool,
    pub expected: Seq<Seq<char>>,
    pub excluded: Seq<Seq<char>>,
    pub scope: Scope,
    pub ranges: Seq<Seq<char>>,
    pub passive_secs: u64,
    pub rate: u64,
    pub settle: u64,
    pub passes: u32,
    pub passive_only: bool,
    pub no_ipv6: bool,
    pub leases_file: Option<Seq<char>>,
    pub watch: bool,
    pub watch_interval: u64,
    pub json: bool,
    pub csv: bool,
    pub all: bool,
    pub spa: Seq<char>,
}

impl View for Cli {
    type V = CliView;

    open spec fn view(&self) -> CliView {
        CliView {
            iface: text::opt_view(self.iface),
            tui: self.tui,
            expected: text::views(self.expected@),
            excluded: text::views(self.excluded@),
            scope: self.scope,
            ranges: text::views(self.ranges@),
            passive_secs: self.passive_secs,
            rate: self.rate,
            settle: self.settle,
            passes: self.passes,
            passive_only: self.passive_only,
            no_ipv6: self.no_ipv6,
            leases_file: text::opt_view(self.leases_file),
            watch: self.watch,
            watch_interval: self.watch_interval,
            json: self.json,
            csv: self.csv,
            all: self.all,
            spa: self.spa@,
        }
    }
}

/// What the active sweep covers.
#[derive(Debug, Clone, Copy, PartialEq, Eq, Structural)]
pub enum Scope {
    /// Nothing but the ranges that were given: without any, passive listening only.
    Nothing,
    /// Subnets found while listening + factory defaults (seconds).
    Auto,
    /// The whole of 192.168.0.0/16 (~7s at 10k pps).
    Private16,
    /// All of RFC1918: 10/8 + 172.16/12 + 192.168/16 (~30min at 10k pps).
    Rfc1918,
}

/// The /24 with the given first three octets.
pub open spec fn slash24(a: u8, b: u8, c: u8) -> Ipv4Net {
    Ipv4Net { addr: Ipv4Addr { bits: crate::addr::quad(a, b, c, 0) }, prefix_len: 24 }
}

/// Subnets vendors ship as factory defaults. Swept in Auto mode because a device
/// that is "outside the range" is almost always sitting in one of them.
///
/// 169.254.0.0/16 (APIPA) is deliberately NOT here: sweeping a whole /16 on every
/// "auto" scan costs tens of seconds, and a host in APIPA gives itself away anyway
/// (it ARPs for its own 169.254.x.x), so the passive layer catches it.
pub open spec fn factory_nets() -> Seq<Ipv4Net> {
    seq![
        slash24(192, 168, 0),
        slash24(192, 168, 1),
        slash24(192, 168, 2),
        slash24(192, 168, 8),
        slash24(192, 168, 10),
        slash24(192, 168, 11),
        slash24(192, 168, 15),
        slash24(192, 168, 16),
        slash24(192, 168, 25),
        slash24(192, 168, 50),
        slash24(192, 168, 88),  // Mikrotik
        slash24(192, 168, 100),  // modems and ONTs
        slash24(192, 168, 123),
        slash24(192, 168, 127),  // Moxa
        slash24(192, 168, 178),  // AVM Fritz!Box
        slash24(192, 168, 254),
        slash24(10, 0, 0),
        slash24(10, 0, 1),
        slash24(10, 1, 1),
        slash24(10, 10, 10),
        slash24(172, 16, 0),
        slash24(172, 20, 0),
    ]
}

fn push_slash24(out: &mut Vec<Ipv4Net>, a: u8, b: u8, c: u8)
    ensures
        final(out)@ == old(out)@.push(slash24(a, b, c)),
{
    out.push(Ipv4Net { addr: Ipv4Addr::new(a, b, c, 0), prefix_len: 24 });
}

/// Lists the subnets that vendors ship as factory defaults.
pub fn factory_defaults() -> (r: Vec<Ipv4Net>)
    ensures
        r@ == factory_nets(),
{
    let mut out: Vec<Ipv4Net> = Vec::new();
    push_slash24(&mut out, 192, 168, 0);
    push_slash24(&mut out, 192, 168, 1);
    push_slash24(&mut out, 192, 168, 2);
    push_slash24(&mut out, 192, 168, 8);
    push_slash24(&mut out, 192, 168, 10);
    push_slash24(&mut out, 192, 168, 11);
    push_slash24(&mut out, 192, 168, 15);
    push_slash24(&mut out, 192, 168, 16);
    push_slash24(&mut out, 192, 168, 25);
    push_slash24(&mut out, 192, 168, 50);
    push_slash24(&mut out, 192, 168, 88);
    push_slash24(&mut out, 192, 168, 100);
    push_slash24(&mut out, 192, 168, 123);
    push_slash24(&mut out, 192, 168, 127);
    push_slash24(&mut out, 192, 168, 178);
    push_slash24(&mut out, 192, 168, 254);
    push_slash24(&mut out, 10, 0, 0);
    push_slash24(&mut out, 10, 0, 1);
    push_slash24(&mut out, 10, 1, 1);
    push_slash24(&mut out, 10, 10, 10);
    push_slash24(&mut out, 172, 16, 0);
    push_slash24(&mut out, 172, 20, 0);
    assert(out@ =~= factory_nets());
    out
}

/// The networks that texts name, host bits cleared; the first text that names none
/// is an error.
pub open spec fn nets_of(list: Seq<Seq<char>>) -> Result<Seq<Ipv4Net>, ErrorView>
    decreases list.len(),
{
    if list.len() == 0 {
        Ok(Seq::empty())
    } else {
        match nets_of(list.drop_last()) {
            Err(e) => Err(e),
            Ok(v) => match Ipv4Net::parsed(list.last()) {
                Some(n) => Ok(v.push(n.truncated())),
                None => Err(ErrorView::InvalidCidr { text: list.last() }),
            },
        }
    }
}

proof fn lemma_error_stands(list: Seq<Seq<char>>, i: int)
    requires
        0 <= i <= list.len(),
        nets_of(list.take(i)) is Err,
    ensures
        nets_of(list) == nets_of(list.take(i)),
    decreases list.len() - i,
{
    if i < list.len() {
        assert(list.take(i + 1).drop_last() =~= list.take(i));
        lemma_error_stands(list, i + 1);
    } else {
        assert(list.take(i) =~= list);
    }
}

/// Reads networks in prefix notation, host bits cleared.
pub fn parse_nets(list: &Vec<String>) -> (r: Result<Vec<Ipv4Net>, Error>)
    ensures
        match nets_of(text::views(list@)) {
            Ok(v) => r matches Ok(x) && x@ == v,
            Err(e) => r matches Err(x) && x@ == e,
        },
        r matches Ok(x) ==> forall|i: int| 0 <= i < x@.len() ==> (#[trigger] x@[i]).wf(),
{
    let ghost all = text::views(list@);
    let mut out: Vec<Ipv4Net> = Vec::new();
    let mut i: usize = 0;
    assert(all.take(0) =~= Seq::empty());
    while i < list.len()
        invariant
            i <= list.len(),
            all == text::views(list@),
            nets_of(all.take(i as int)) == Ok::<Seq<Ipv4Net>, ErrorView>(out@),
            forall|k: int| 0 <= k < out@.len() ==> (#[trigger] out@[k]).wf(),
        decreases list.len() - i,
    {
        assert(all.take(i + 1).drop_last() =~= all.take(i as int));
        assert(all.take(i + 1).last() == list@[i as int]@);
        match Ipv4Net::parse(list[i].as_str()) {
            Some(n) => out.push(n.trunc()),
            None => {
                proof {
                    lemma_error_stands(all, i + 1);
                }
                return Err(Error::InvalidCidr { text: list[i].clone() });
            },
        }
        i = i + 1;
    }
    assert(all.take(list.len() as int) =~= all);
    Ok(out)
}

/// A network, if there is one, as a list.
pub open spec fn maybe_net(n: Option<Ipv4Net>) -> Seq<Ipv4Net> {
    match n {
        Some(x) => seq![x],
        None => Seq::empty(),
    }
}

/// The expected subnets: those given, or the local subnet when none was.
pub open spec fn expected_nets(cli: CliView, all: Seq<InterfaceView>) -> Result<
    Seq<Ipv4Net>,
    ErrorView,
> {
    if cli.expected.len() > 0 {
        nets_of(cli.expected)
    } else {
        match iface::resolved(all, cli.iface) {
            Ok(l) => Ok(maybe_net(l.net)),
            Err(e) => Err(e),
        }
    }
}

/// The expected subnets: those given with --expected, or the local subnet when
/// none was. On a network without DHCP the interface may have no subnet: the list
/// comes back empty and there is no legitimacy baseline, which is the truth about
/// that network.
pub fn expected_or_local(cli: &Cli, all: &Vec<Interface>) -> (r: Result<Vec<Ipv4Net>, Error>)
    ensures
        match expected_nets(cli@, iface::interface_views(all@)) {
            Ok(v) => r matches Ok(x) && x@ == v,
            Err(e) => r matches Err(x) && x@ == e,
        },
{
    assert(cli@.expected.len() == cli.expected@.len());
    if cli.expected.len() > 0 {
        return parse_nets(&cli.expected);
    }
    let name: Option<&str> = match &cli.iface {
        Some(s) => Some(s.as_str()),
        None => None,
    };
    match iface::resolve(all, name) {
        Ok(l) => {
            let mut out: Vec<Ipv4Net> = Vec::new();
            if let Some(n) = l.net {
                out.push(n);
            }
            assert(out@ =~= maybe_net(l@.net));
            Ok(out)
        },
        Err(e) => Err(e),
    }
}

/// Texts are read as networks exactly when each of them names one, and then one by
/// one.
pub proof fn nets_are_read_one_by_one(list: Seq<Seq<char>>)
    ensures
        nets_of(list) is Ok <==> forall|i: int|
            0 <= i < list.len() ==> Ipv4Net::parsed(#[trigger] list[i]) is Some,
        nets_of(list) matches Ok(v) ==> v.len() == list.len() && forall|i: int|
            0 <= i < list.len() ==> #[trigger] v[i] == (Ipv4Net::parsed(list[i])->0).truncated(),
    decreases list.len(),
{
    if list.len() > 0 {
        let init = list.drop_last();
        nets_are_read_one_by_one(init);
        if nets_of(list) is Ok {
            assert forall|i: int| 0 <= i < list.len() implies Ipv4Net::parsed(
                #[trigger] list[i],
            ) is Some by {
                if i < init.len() {
                    assert(init[i] == list[i]);
                }
            }
        }
        if forall|i: int| 0 <= i < list.len() ==> Ipv4Net::parsed(#[trigger] list[i]) is Some {
            assert forall|i: int| 0 <= i < init.len() implies Ipv4Net::parsed(
                #[trigger] init[i],
            ) is Some by {
                assert(init[i] == list[i]);
            }
            assert(Ipv4Net::parsed(list[list.len() - 1]) is Some);
        }
    }
}

/// The first text that names no network is the error, whatever follows it.
pub proof fn the_first_bad_text_is_told(list: Seq<Seq<char>>, k: int)
    requires
        0 <= k < list.len(),
        Ipv4Net::parsed(list[k]) is None,
        forall|j: int| 0 <= j < k ==> Ipv4Net::parsed(#[trigger] list[j]) is Some,
    ensures
        nets_of(list) == Err::<Seq<Ipv4Net>, ErrorView>(ErrorView::InvalidCidr { text: list[k] }),
{
    let before = list.take(k);
    assert forall|j: int| 0 <= j < before.len() implies Ipv4Net::parsed(#[trigger] before[j]) is Some by {
        assert(before[j] == list[j]);
    }
    nets_are_read_one_by_one(before);
    assert(list.take(k + 1).drop_last() =~= before);
    assert(list.take(k + 1).last() == list[k]);
    lemma_error_stands(list, k + 1);
}

/// Networks given in prefix notation are the ones that are expected, each with its host
/// bits cleared; the interface is not even looked at.
pub proof fn what_is_given_is_expected(cli: CliView, all: Seq<InterfaceView>, nets: Seq<Ipv4Net>)
    requires
        nets.len() > 0,
        forall|i: int| 0 <= i < nets.len() ==> (#[trigger] nets[i]).wf(),
        cli.expected == Seq::new(nets.len(), |i: int| nets[i].text()),
    ensures
        expected_nets(cli, all) matches Ok(v) && v.len() == nets.len() && forall|i: int|
            0 <= i < nets.len() ==> (#[trigger] v[i]).prefix_len == nets[i].prefix_len
                && v[i].addr.bits == nets[i].addr.bits - nets[i].addr.bits as int
                % crate::net::span(nets[i].prefix_len) as int,
{
    assert forall|i: int| 0 <= i < cli.expected.len() implies Ipv4Net::parsed(
        #[trigger] cli.expected[i],
    ) == Some(nets[i]) by {
        crate::net::network_reads_back(nets[i]);
    }
    nets_are_read_one_by_one(cli.expected);
    let v = nets_of(cli.expected)->Ok_0;
    assert forall|i: int| 0 <= i < nets.len() implies (#[trigger] v[i]).prefix_len == nets[i].prefix_len
        && v[i].addr.bits == nets[i].addr.bits - nets[i].addr.bits as int % crate::net::span(
        nets[i].prefix_len,
    ) as int by {
        assert(Ipv4Net::parsed(cli.expected[i]) == Some(nets[i]));
        nets[i].lemma_bounds();
        assert(v[i] == nets[i].truncated());
    }
}

/// Where nothing is given, our own subnet is what is expected, and nothing where we
/// have none.
pub proof fn otherwise_our_own_subnet_is_expected(cli: CliView, all: Seq<InterfaceView>)
    requires
        cli.expected.len() == 0,
    ensures
        match iface::resolved(all, cli.iface) {
            Ok(l) => expected_nets(cli, all) matches Ok(v) && match l.net {
                Some(n) => v.len() == 1 && v[0] == n,
                None => v.len() == 0,
            },
            Err(e) => expected_nets(cli, all) == Err::<Seq<Ipv4Net>, ErrorView>(e),
        },
{
}

/// The factory defaults are private /24s, no two of them the same.
pub proof fn factory_defaults_are_private(i: int, j: int)
    requires
        0 <= i < j < factory_nets().len(),
    ensures
        factory_nets()[i] != factory_nets()[j],
        factory_nets()[i].prefix_len == 24,
        factory_nets()[i].addr.rfc1918(),
        factory_nets()[i].addr.bits % 256 == 0,
        factory_nets().len() == 22,
{
    let f = factory_nets();
    assert(f[i].addr.bits != f[j].addr.bits);
    crate::addr::blocks_are_ranges(f[i].addr);
}

/// Which the factory defaults are, as numbers: the /24s of 192.168 first, then those of
/// 10 and of 172.
pub proof fn factory_defaults_by_number(i: int)
    requires
        0 <= i < 22,
    ensures
        factory_nets()[i].addr.bits == 256 * seq![
            0xc0a800int,
            0xc0a801,
            0xc0a802,
            0xc0a808,
            0xc0a80a,
            0xc0a80b,
            0xc0a80f,
            0xc0a810,
            0xc0a819,
            0xc0a832,
            0xc0a858,
            0xc0a864,
            0xc0a87b,
            0xc0a87f,
            0xc0a8b2,
            0xc0a8fe,
            0x0a0000,
            0x0a0001,
            0x0a0101,
            0x0a0a0a,
            0xac1000,
            0xac1400,
        ][i],
{
}

} // verus!
