//! Central state and logic of the TUI.
use crate::addr::Ipv4Addr;
use crate::arp::{self, Pace, Spa};
use crate::cli::{self, Cli, CliView, Scope};
use crate::correlate::{self, Finding, FindingView};
use crate::error::{Error, ErrorView};
use crate::iface::{self, Iface, IfaceView};
use crate::inventory::{HostView, Inventory};
use crate::net::{self, Ipv4Net};
use crate::oui::OuiDb;
use crate::report;
use crate::scan::{self, ConfigView, ScanConfig};
use crate::text;
use vstd::prelude::*;

verus! {

broadcast use vstd::seq::group_seq_axioms;

// ---------------------------------------------------------------------
// Ranges
// ---------------------------------------------------------------------

/// A range's role. Two independent questions (do we sweep it? does it count as
/// legitimate?) whose useful combinations are these three.
#[derive(Debug, Clone, Copy, PartialEq, Eq, Structural)]
pub enum RangeKind {
    /// `[ ]` The network you are on: swept and legitimate. It is a private
    /// address outside every expected range that counts as suspicious.
    Expected,
    /// `[>]` The range you suspect: swept first and NOT legitimate, so whoever
    /// is in there shows up flagged.
    Target,
    /// `[!]` A range already ruled out: it receives not a single packet and
    /// counts as legitimate, so nothing from it clutters the screen.
    Ignored,
}

impl RangeKind {
    /// The role that follows in the cycle.
    pub open spec fn following(self) -> RangeKind {
        match self {
            RangeKind::Expected => RangeKind::Target,
            RangeKind::Target => RangeKind::Ignored,
            RangeKind::Ignored => RangeKind::Expected,
        }
    }

    /// The role that comes before in the cycle.
    pub open spec fn preceding(self) -> RangeKind {
        self.following().following()
    }

    /// The role that follows in the cycle.
    pub fn next(self) -> (r: RangeKind)
        ensures
            r == self.following(),
            r.preceding() == self,
    {
        match self {
            RangeKind::Expected => RangeKind::Target,
            RangeKind::Target => RangeKind::Ignored,
            RangeKind::Ignored => RangeKind::Expected,
        }
    }

    /// The role that comes before in the cycle.
    pub fn prev(self) -> (r: RangeKind)
        ensures
            r == self.preceding(),
            r.following() == self,
    {
        self.next().next()
    }

    /// A one-column marker, shown in brackets in the list.
    pub open spec fn mark(self) -> Seq<char> {
        match self {
            RangeKind::Expected => " "@,
            RangeKind::Target => ">"@,
            RangeKind::Ignored => "!"@,
        }
    }

    /// A one-column marker, shown in brackets in the list.
    pub fn marker(self) -> (r: &'static str)
        ensures
            r@ == self.mark(),
    {
        match self {
            RangeKind::Expected => " ",
            RangeKind::Target => ">",
            RangeKind::Ignored => "!",
        }
    }
}

/// One row of the range list: a CIDR and its role in the sweep.
#[derive(Debug)]
pub struct RangeRow {
    pub text: String,
    pub kind: RangeKind,
}

/// A [`RangeRow`] with its text as characters.
#[verifier::ext_equal]
pub struct RangeView {
    pub text: Seq<char>,
    pub kind: RangeKind,
}

impl View for RangeRow {
    type V = RangeView;

    open spec fn view(&self) -> RangeView {
        RangeView { text: self.text@, kind: self.kind }
    }
}

impl RangeView {
    /// The network that the row names, host bits cleared.
    pub open spec fn net(self) -> Option<Ipv4Net> {
        match Ipv4Net::parsed(text::trim(self.text)) {
            Some(n) => Some(n.truncated()),
            None => None,
        }
    }

    /// Is the row empty or does it name a network?
    pub open spec fn fine(self) -> bool {
        text::trim(self.text).len() == 0 || self.net() is Some
    }
}

/// What a list of rows says.
pub open spec fn range_views(v: Seq<RangeRow>) -> Seq<RangeView> {
    Seq::new(v.len(), |i: int| v[i]@)
}

impl RangeRow {
    /// A row with that text and role.
    pub fn new(text: String, kind: RangeKind) -> (r: RangeRow)
        ensures
            r@ == (RangeView { text: text@, kind }),
    {
        RangeRow { text, kind }
    }

    /// The network that the row names, host bits cleared.
    pub fn parsed(&self) -> (r: Option<Ipv4Net>)
        ensures
            r == self@.net(),
    {
        let t = text::trimmed_string(self.text.as_str());
        match Ipv4Net::parse(t.as_str()) {
            Some(n) => Some(n.trunc()),
            None => None,
        }
    }

    /// Is the row empty or does it name a network?
    pub fn valid(&self) -> (r: bool)
        ensures
            r == self@.fine(),
    {
        text::trimmed_string(self.text.as_str()).as_str().is_empty() || self.parsed().is_some()
    }
}

// ---------------------------------------------------------------------
// The form
// ---------------------------------------------------------------------

/// The form's advanced fields.
#[derive(Debug)]
pub struct Advanced {
    pub spa: String,
    pub rate: u64,
    pub settle: u64,
    pub passes: u32,
    pub no_ipv6: bool,
    pub leases_file: String,
    pub passive_secs: u64,
}

/// An [`Advanced`] with its text as characters.
#[verifier::ext_equal]
pub struct AdvancedView {
    pub spa: Seq<char>,
    pub rate: u64,
    pub settle: u64,
    pub passes: u32,
    pub no_ipv6: bool,
    pub leases_file: Seq<char>,
    pub passive_secs: u64,
}

impl View for Advanced {
    type V = AdvancedView;

    open spec fn view(&self) -> AdvancedView {
        AdvancedView {
            spa: self.spa@,
            rate: self.rate,
            settle: self.settle,
            passes: self.passes,
            no_ipv6: self.no_ipv6,
            leases_file: self.leases_file@,
            passive_secs: self.passive_secs,
        }
    }
}

impl AdvancedView {
    /// The fields as the form opens with them. Listening takes zero seconds: capture
    /// stays alive during the sweep and after it, so listening never stops.
    pub open spec fn initial() -> AdvancedView {
        AdvancedView {
            spa: "probe"@,
            rate: 2_000,
            settle: 150,
            passes: 2,
            no_ipv6: false,
            leases_file: Seq::empty(),
            passive_secs: 0,
        }
    }
}

impl Default for Advanced {
    fn default() -> (r: Advanced)
        ensures
            r@ == AdvancedView::initial(),
    {
        let r = Advanced {
            spa: "probe".to_owned(),
            rate: 2_000,
            settle: 150,
            passes: 2,
            no_ipv6: false,
            leases_file: String::new(),
            passive_secs: 0,
        };
        assert(r@.leases_file =~= Seq::empty());
        r
    }
}

/// The two halves of the screen.
#[derive(Debug, Clone, Copy, PartialEq, Eq, Structural)]
pub enum Pane {
    Form,
    Results,
}

/// Where the cursor sits in the form. The range list occupies several slots.
#[derive(Debug, Clone, Copy, PartialEq, Eq, Structural)]
pub enum FormFocus {
    Interface,
    Scope,
    Range(usize),
    AdvancedToggle,
    AdvSpa,
    AdvRate,
    AdvSettle,
    AdvPasses,
    AdvNoIpv6,
    AdvLeases,
    AdvPassive,
}

/// Is there a scan, and is its sweep still running?
#[derive(Debug, Clone, Copy, PartialEq, Eq, Structural)]
pub enum ScanState {
    Absent,
    Running,
    Finished,
}

// ---------------------------------------------------------------------
// The state
// ---------------------------------------------------------------------

/// Everything the interface knows. Instants are nanoseconds on a clock that only
/// moves forward.
pub struct App {
    // ---- form ----
    pub ifaces: Vec<Iface>,
    pub iface_idx: usize,
    pub scope: Scope,
    pub ranges: Vec<RangeRow>,
    pub advanced_open: bool,
    pub adv: Advanced,
    // ---- focus and editing ----
    pub pane: Pane,
    pub form_focus: FormFocus,
    /// Edit buffer for the focused field or range.
    pub editing: Option<String>,
    // ---- results ----
    pub oui: OuiDb,
    pub findings: Vec<Finding>,
    pub result_idx: usize,
    pub only_flagged: bool,
    pub filter: Option<String>,
    /// Typing in the filter.
    pub filtering: bool,
    // ---- scan ----
    pub scan: ScanState,
    pub clock: u128,
    pub last_refresh: u128,
    pub session_whitelist: Vec<Ipv4Net>,
    // ---- ui ----
    pub help_open: bool,
    pub toast: Option<(String, u128)>,
    pub should_quit: bool,
    pub perm_error: Option<String>,
}

/// An [`App`] with its lists as sequences and its text as characters.
#[verifier::ext_equal]
pub struct AppView {
    pub ifaces: Seq<IfaceView>,
    pub iface_idx: usize,
    pub scope: Scope,
    pub ranges: Seq<RangeView>,
    pub advanced_open: bool,
    pub adv: AdvancedView,
    pub pane: Pane,
    pub form_focus: FormFocus,
    pub editing: Option<Seq<char>>,
    pub vendors: Map<Seq<char>, Seq<char>>,
    pub findings: Seq<FindingView>,
    pub result_idx: usize,
    pub only_flagged: bool,
    pub filter: Option<Seq<char>>,
    pub filtering: bool,
    pub scan: ScanState,
    pub clock: u128,
    pub last_refresh: u128,
    pub whitelist: Seq<Ipv4Net>,
    pub help_open: bool,
    pub toast: Option<(Seq<char>, u128)>,
    pub should_quit: bool,
    pub perm_error: Option<Seq<char>>,
}

impl View for App {
    type V = AppView;

    open spec fn view(&self) -> AppView {
        AppView {
            ifaces: iface::iface_views(self.ifaces@),
            iface_idx: self.iface_idx,
            scope: self.scope,
            ranges: range_views(self.ranges@),
            advanced_open: self.advanced_open,
            adv: self.adv@,
            pane: self.pane,
            form_focus: self.form_focus,
            editing: text::opt_view(self.editing),
            vendors: self.oui@,
            findings: correlate::finding_views(self.findings@),
            result_idx: self.result_idx,
            only_flagged: self.only_flagged,
            filter: text::opt_view(self.filter),
            filtering: self.filtering,
            scan: self.scan,
            clock: self.clock,
            last_refresh: self.last_refresh,
            whitelist: self.session_whitelist@,
            help_open: self.help_open,
            toast: match self.toast {
                Some((s, t)) => Some((s@, t)),
                None => None,
            },
            should_quit: self.should_quit,
            perm_error: text::opt_view(self.perm_error),
        }
    }
}

/// What the interface asks its surroundings to do.
#[derive(Debug)]
pub enum Action {
    Nothing,
    /// Give up the scan there was, start one with this configuration, and report
    /// back whether it started.
    Launch { cfg: ScanConfig, notice: String },
    /// Give up the scan there was.
    Abandon,
    /// Tell the running scan to stop.
    Stop,
    /// Put the text on the clipboard.
    Copy { text: String },
    /// Send one ping, and report back.
    Probe { ip: Ipv4Addr, iface: Option<String> },
    /// Write the findings to files, and report back.
    Export,
    /// Draw the findings anew from the scan's inventory.
    Reanalyze,
}

/// An [`Action`] with its text as characters.
#[verifier::ext_equal]
pub enum ActionView {
    Nothing,
    Launch { cfg: ConfigView, notice: Seq<char> },
    Abandon,
    Stop,
    Copy { text: Seq<char> },
    Probe { ip: Ipv4Addr, iface: Option<Seq<char>> },
    Export,
    Reanalyze,
}

impl View for Action {
    type V = ActionView;

    open spec fn view(&self) -> ActionView {
        match self {
            Action::Nothing => ActionView::Nothing,
            Action::Launch { cfg, notice } => ActionView::Launch { cfg: cfg@, notice: notice@ },
            Action::Abandon => ActionView::Abandon,
            Action::Stop => ActionView::Stop,
            Action::Copy { text } => ActionView::Copy { text: text@ },
            Action::Probe { ip, iface } => ActionView::Probe {
                ip: *ip,
                iface: text::opt_view(*iface),
            },
            Action::Export => ActionView::Export,
            Action::Reanalyze => ActionView::Reanalyze,
        }
    }
}

impl AppView {
    /// The cursor is on something that is there, and so is the interface chosen.
    pub open spec fn wf(self) -> bool {
        &&& self.form_focus matches FormFocus::Range(i) ==> i < self.ranges.len()
        &&& self.iface_idx == 0 || self.iface_idx < self.ifaces.len()
    }

    /// The name of the interface chosen.
    pub open spec fn chosen_name(self) -> Option<Seq<char>> {
        if self.iface_idx < self.ifaces.len() {
            Some(self.ifaces[self.iface_idx as int].name)
        } else {
            None
        }
    }

    /// The subnet of the interface chosen.
    pub open spec fn chosen_net(self) -> Option<Ipv4Net> {
        if self.iface_idx < self.ifaces.len() {
            match self.ifaces[self.iface_idx as int].net {
                Some(n) => Some(n.truncated()),
                None => None,
            }
        } else {
            None
        }
    }

    /// With a message on the status line, from now on.
    pub open spec fn saying(self, msg: Seq<char>) -> AppView {
        AppView { toast: Some((msg, self.clock)), ..self }
    }
}

// ---------------------------------------------------------------------
// Building the configuration from the form
// ---------------------------------------------------------------------

/// The networks of the rows with a role, the row at `skip` left out.
pub open spec fn nets_marked(rows: Seq<RangeView>, kind: RangeKind, skip: int) -> Seq<Ipv4Net>
    decreases rows.len(),
{
    if rows.len() == 0 {
        Seq::empty()
    } else {
        let before = nets_marked(rows.drop_last(), kind, skip);
        if rows.len() - 1 == skip || rows.last().kind != kind {
            before
        } else {
            match rows.last().net() {
                Some(n) => before.push(n),
                None => before,
            }
        }
    }
}

impl AppView {
    /// The path of the lease file, if the field is filled in.
    pub open spec fn lease_path(self) -> Option<Seq<char>> {
        let t = text::trim(self.adv.leases_file);
        if t.len() == 0 {
            None
        } else {
            Some(t)
        }
    }

    /// Does the interface's subnet have to stand in as the baseline: where no range of
    /// the form is left as a network, or where nothing at all is expected?
    pub open spec fn falls_back(self, normal: Seq<Ipv4Net>, ignored: Seq<Ipv4Net>) -> bool {
        nets_marked(self.ranges, RangeKind::Expected, -1).len() == 0 || (normal + ignored
            + self.whitelist).len() == 0
    }

    /// A scan of the ranges. What is marked as ignored is legitimate too, and so is
    /// the session's whitelist. The interface's subnet becomes the baseline where
    /// there is no other; it may not exist, and then having no baseline is the truth.
    pub open spec fn config_with(
        self,
        ranges: Seq<Ipv4Net>,
        normal: Seq<Ipv4Net>,
        ignored: Seq<Ipv4Net>,
        scope: Scope,
        passive_secs: u64,
    ) -> Result<ConfigView, ErrorView> {
        match Spa::parsed(self.adv.spa) {
            Err(e) => Err(e),
            Ok(spa) => Ok(
                ConfigView {
                    iface: self.chosen_name(),
                    expected: normal + ignored + self.whitelist + (if self.falls_back(
                        normal,
                        ignored,
                    ) {
                        cli::maybe_net(self.chosen_net())
                    } else {
                        Seq::empty()
                    }),
                    excluded: ignored,
                    ranges,
                    scope,
                    spa,
                    pace: Pace {
                        rate: self.adv.rate,
                        settle_ms: self.adv.settle,
                        passes: self.adv.passes,
                    },
                    passive_secs,
                    passive_only: false,
                    no_ipv6: self.adv.no_ipv6,
                    leases_file: self.lease_path(),
                    verbose: false,
                },
            ),
        }
    }

    /// The full sweep: targets ahead of the ordinary networks, being the hypothesis
    /// under test.
    pub open spec fn full_config(self) -> Result<ConfigView, ErrorView> {
        let normal = nets_marked(self.ranges, RangeKind::Expected, -1);
        self.config_with(
            nets_marked(self.ranges, RangeKind::Target, -1) + normal,
            normal,
            nets_marked(self.ranges, RangeKind::Ignored, -1),
            self.scope,
            self.adv.passive_secs,
        )
    }

    /// The sweep of one range: no scope and no listening. It applies even to a range
    /// marked as ignored: the gesture is explicit.
    pub open spec fn single_config(self, idx: int) -> Result<ConfigView, ErrorView> {
        if idx < 0 || idx >= self.ranges.len() || self.ranges[idx].net() is None {
            Err(ErrorView::NoRange)
        } else {
            self.config_with(
                seq![self.ranges[idx].net()->0],
                nets_marked(self.ranges, RangeKind::Expected, idx),
                nets_marked(self.ranges, RangeKind::Ignored, idx),
                Scope::Nothing,
                0,
            )
        }
    }

    /// Is there a row that is neither empty nor a network?
    pub open spec fn has_bad_range(self) -> bool {
        exists|i: int| 0 <= i < self.ranges.len() && !(#[trigger] self.ranges[i]).fine()
    }
}

/// The networks of the rows with a role, the row at `skip` left out where there is
/// one to leave out.
fn collect_marked(rows: &Vec<RangeRow>, kind: RangeKind, skip: Option<usize>) -> (r: Vec<Ipv4Net>)
    ensures
        r@ == nets_marked(
            range_views(rows@),
            kind,
            match skip {
                Some(k) => k as int,
                None => -1,
            },
        ),
{
    let ghost all = range_views(rows@);
    let ghost k = match skip {
        Some(k) => k as int,
        None => -1,
    };
    let mut out: Vec<Ipv4Net> = Vec::new();
    let mut i: usize = 0;
    assert(all.take(0) =~= Seq::empty());
    while i < rows.len()
        invariant
            i <= rows.len(),
            all == range_views(rows@),
            k == (match skip {
                Some(k) => k as int,
                None => -1,
            }),
            out@ == nets_marked(all.take(i as int), kind, k),
        decreases rows.len() - i,
    {
        assert(all.take(i + 1).drop_last() =~= all.take(i as int));
        assert(all.take(i + 1).last() == rows@[i as int]@);
        let skipped: bool = match skip {
            Some(s) => s == i,
            None => false,
        };
        if !skipped && rows[i].kind == kind {
            if let Some(n) = rows[i].parsed() {
                out.push(n);
            }
        }
        i = i + 1;
    }
    assert(all.take(rows.len() as int) =~= all);
    out
}

/// Does the result of assembling a configuration agree with what it should be?
pub open spec fn config_agrees(
    r: Result<ScanConfig, Error>,
    want: Result<ConfigView, ErrorView>,
) -> bool {
    match want {
        Ok(c) => r matches Ok(x) && x@ == c,
        Err(e) => r matches Err(x) && x@ == e,
    }
}

impl App {
    /// The state that the interface opens with. It is pre-filled with the local
    /// subnet if there is one. On a network without DHCP there is none: the list
    /// starts empty rather than inventing a range that would give a false baseline,
    /// and with no baseline there is nothing to call an anomaly, so the screen opens
    /// showing everything that answered.
    pub fn new(ifaces: Vec<Iface>, oui: OuiDb, clock: u128) -> (r: App)
        ensures
            r@ == AppView::opening(iface::iface_views(ifaces@), oui@, clock),
            r@.wf(),
    {
        let local: Option<Ipv4Net> = if ifaces.len() > 0 {
            ifaces[0].net
        } else {
            None
        };
        let mut ranges: Vec<RangeRow> = Vec::new();
        if let Some(n) = local {
            ranges.push(RangeRow::new(n.to_string(), RangeKind::Expected));
        }
        let r = App {
            ifaces,
            iface_idx: 0,
            scope: Scope::Auto,
            ranges,
            advanced_open: false,
            adv: Advanced::default(),
            pane: Pane::Form,
            form_focus: FormFocus::Interface,
            editing: None,
            oui,
            findings: Vec::new(),
            result_idx: 0,
            only_flagged: local.is_some(),
            filter: None,
            filtering: false,
            scan: ScanState::Absent,
            clock,
            last_refresh: clock,
            session_whitelist: Vec::new(),
            help_open: false,
            toast: None,
            should_quit: false,
            perm_error: None,
        };
        assert(r@ =~= AppView::opening(iface::iface_views(ifaces@), oui@, clock));
        r
    }

    /// The name of the interface chosen.
    pub fn iface_name(&self) -> (r: Option<String>)
        ensures
            text::opt_view(r) == self@.chosen_name(),
    {
        if self.iface_idx < self.ifaces.len() {
            assert(self@.ifaces[self.iface_idx as int] == self.ifaces@[self.iface_idx as int]@);
            Some(self.ifaces[self.iface_idx].name.clone())
        } else {
            None
        }
    }

    /// IPv4 subnet of the focused interface, if it has one.
    pub fn local_net(&self) -> (r: Option<Ipv4Net>)
        ensures
            r == self@.chosen_net(),
    {
        if self.iface_idx < self.ifaces.len() {
            assert(self@.ifaces[self.iface_idx as int] == self.ifaces@[self.iface_idx as int]@);
            match self.ifaces[self.iface_idx].net {
                Some(n) => Some(n.trunc()),
                None => None,
            }
        } else {
            None
        }
    }

    /// Is a sweep running?
    pub fn is_running(&self) -> (r: bool)
        ensures
            r == (self.scan == ScanState::Running),
    {
        self.scan == ScanState::Running
    }

    /// Shows a message on the status line.
    pub fn toast(&mut self, msg: String)
        ensures
            final(self)@ == old(self)@.saying(msg@),
    {
        self.toast = Some((msg, self.clock));
    }

    /// The toast expires after a few seconds.
    pub fn tick_toast(&mut self)
        ensures
            final(self)@ == old(self)@.ticked(),
    {
        let expired: bool = match &self.toast {
            Some((_, t)) => self.clock > *t && self.clock - *t > 4_000_000_000,
            None => false,
        };
        if expired {
            self.toast = None;
        }
    }

    /// The full sweep, assembled from the form. Targets (`[>]`) go ahead of the
    /// ordinary networks: they are the hypothesis under test, and
    /// `scan::build_targets` preserves that order all the way to the wire.
    pub fn build_config(&self) -> (r: Result<ScanConfig, Error>)
        ensures
            config_agrees(r, self@.full_config()),
    {
        let normal: Vec<Ipv4Net> = collect_marked(&self.ranges, RangeKind::Expected, None);
        let ignored: Vec<Ipv4Net> = collect_marked(&self.ranges, RangeKind::Ignored, None);
        let mut ranges: Vec<Ipv4Net> = collect_marked(&self.ranges, RangeKind::Target, None);
        net::append_nets(&mut ranges, normal.as_slice());
        self.finish_config(ranges, normal, ignored, self.scope, self.adv.passive_secs)
    }

    /// "Sweep this range now" (the `s` key): only the focused range, with no scope
    /// and no passive listening. This is the hypothesis loop: type, fire, read,
    /// switch.
    pub fn build_config_single(&self, idx: usize) -> (r: Result<ScanConfig, Error>)
        ensures
            config_agrees(r, self@.single_config(idx as int)),
    {
        if idx >= self.ranges.len() {
            return Err(Error::NoRange);
        }
        assert(self@.ranges[idx as int] == self.ranges@[idx as int]@);
        let target = match self.ranges[idx].parsed() {
            Some(n) => n,
            None => {
                return Err(Error::NoRange);
            },
        };
        let mut ranges: Vec<Ipv4Net> = Vec::new();
        ranges.push(target);
        assert(ranges@ =~= seq![target]);
        let normal: Vec<Ipv4Net> = collect_marked(&self.ranges, RangeKind::Expected, Some(idx));
        let ignored: Vec<Ipv4Net> = collect_marked(&self.ranges, RangeKind::Ignored, Some(idx));
        self.finish_config(ranges, normal, ignored, Scope::Nothing, 0)
    }

    /// The part both assemblies share: who judges what, plus advanced fields.
    fn finish_config(
        &self,
        ranges: Vec<Ipv4Net>,
        normal: Vec<Ipv4Net>,
        ignored: Vec<Ipv4Net>,
        scope: Scope,
        passive_secs: u64,
    ) -> (r: Result<ScanConfig, Error>)
        ensures
            config_agrees(
                r,
                self@.config_with(ranges@, normal@, ignored@, scope, passive_secs),
            ),
    {
        let mut expected: Vec<Ipv4Net> = net::copy_nets(normal.as_slice());
        // An ignored range is legitimate too: if something from it turns up
        // through passive listening it raises no alert.
        net::append_nets(&mut expected, ignored.as_slice());
        // The session whitelist ('w') counts as expected as well.
        net::append_nets(&mut expected, self.session_whitelist.as_slice());
        let ghost before = expected@;
        // Without a baseline every private address would look suspicious.
        let networks: Vec<Ipv4Net> = collect_marked(&self.ranges, RangeKind::Expected, None);
        if networks.len() == 0 || expected.len() == 0 {
            if let Some(n) = self.local_net() {
                expected.push(n);
            }
        }
        assert(expected@ =~= before + (if self@.falls_back(normal@, ignored@) {
            cli::maybe_net(self@.chosen_net())
        } else {
            Seq::empty()
        }));
        let spa = match Spa::parse(self.adv.spa.as_str()) {
            Ok(x) => x,
            Err(e) => {
                return Err(e);
            },
        };
        let path = text::trimmed_string(self.adv.leases_file.as_str());
        let leases_file = if path.as_str().is_empty() {
            None
        } else {
            Some(path)
        };
        Ok(
            ScanConfig {
                iface: self.iface_name(),
                expected,
                excluded: ignored,
                ranges,
                scope,
                spa,
                pace: Pace {
                    rate: self.adv.rate,
                    settle_ms: self.adv.settle,
                    passes: self.adv.passes,
                },
                passive_secs,
                passive_only: false,
                no_ipv6: self.adv.no_ipv6,
                leases_file,
                verbose: false,
            },
        )
    }

    /// Is there a row that is neither empty nor a network?
    pub fn any_invalid_range(&self) -> (r: bool)
        ensures
            r == self@.has_bad_range(),
    {
        let mut i: usize = 0;
        while i < self.ranges.len()
            invariant
                i <= self.ranges.len(),
                forall|j: int| 0 <= j < i ==> (#[trigger] self@.ranges[j]).fine(),
            decreases self.ranges.len() - i,
        {
            assert(self@.ranges[i as int] == self.ranges@[i as int]@);
            if !self.ranges[i].valid() {
                return true;
            }
            i = i + 1;
        }
        false
    }
}

impl AppView {
    /// The state that the interface opens with.
    pub open spec fn opening(
        ifaces: Seq<IfaceView>,
        vendors: Map<Seq<char>, Seq<char>>,
        clock: u128,
    ) -> AppView {
        let local = if ifaces.len() > 0 {
            ifaces[0].net
        } else {
            None
        };
        AppView {
            ifaces,
            iface_idx: 0,
            scope: Scope::Auto,
            ranges: match local {
                Some(n) => seq![RangeView { text: n.text(), kind: RangeKind::Expected }],
                None => Seq::empty(),
            },
            advanced_open: false,
            adv: AdvancedView::initial(),
            pane: Pane::Form,
            form_focus: FormFocus::Interface,
            editing: None,
            vendors,
            findings: Seq::empty(),
            result_idx: 0,
            only_flagged: local is Some,
            filter: None,
            filtering: false,
            scan: ScanState::Absent,
            clock,
            last_refresh: clock,
            whitelist: Seq::empty(),
            help_open: false,
            toast: None,
            should_quit: false,
            perm_error: None,
        }
    }

    /// Without a message that has been shown for more than four seconds.
    pub open spec fn ticked(self) -> AppView {
        match self.toast {
            Some((_, t)) => if self.clock - t > 4_000_000_000 {
                AppView { toast: None, ..self }
            } else {
                self
            },
            None => self,
        }
    }
}

// ---------------------------------------------------------------------
// Starting and following a scan
// ---------------------------------------------------------------------

impl AppView {
    /// After a request to launch a scan. A running sweep is left alone. The old scan
    /// goes away BEFORE the new one is born: giving it up stops it, so doing that
    /// afterwards would stop the freshly created one.
    pub open spec fn launching(self, cfg: Result<ConfigView, ErrorView>, notice: Seq<char>) -> (
        AppView,
        ActionView,
    ) {
        if self.scan == ScanState::Running {
            (self, ActionView::Nothing)
        } else {
            let t = AppView { scan: ScanState::Absent, ..self };
            match cfg {
                Ok(c) => (t, ActionView::Launch { cfg: c, notice }),
                Err(e) => (t.not_launched(e.message()), ActionView::Abandon),
            }
        }
    }

    /// After a scan has started.
    pub open spec fn launched(self, notice: Seq<char>) -> AppView {
        AppView {
            findings: Seq::empty(),
            result_idx: 0,
            scan: ScanState::Running,
            pane: Pane::Results,
            ..self
        }.saying(notice)
    }

    /// After a scan could not be started. A missing capability is shown in full.
    pub open spec fn not_launched(self, msg: Seq<char>) -> AppView {
        if text::contains_text(msg, "CAP_NET_RAW"@) {
            AppView { perm_error: Some(msg), ..self }
        } else {
            self.saying("failed to start: "@ + msg)
        }
    }

    /// After a request for the full sweep.
    #[verifier::opaque]
    pub open spec fn starting(self) -> (AppView, ActionView) {
        if self.has_bad_range() {
            (
                self.saying("some range has an invalid CIDR — fix it before running"@),
                ActionView::Nothing,
            )
        } else {
            self.launching(self.full_config(), "sweep started"@)
        }
    }

    /// After a request for the sweep of one range.
    #[verifier::opaque]
    pub open spec fn starting_single(self, idx: int) -> (AppView, ActionView) {
        self.launching(
            self.single_config(idx),
            if 0 <= idx < self.ranges.len() {
                "sweeping "@ + text::trim(self.ranges[idx].text)
            } else {
                "sweep started"@
            },
        )
    }

    /// After a request to cancel.
    #[verifier::opaque]
    pub open spec fn cancelling(self) -> (AppView, ActionView) {
        if self.scan == ScanState::Absent {
            (self, ActionView::Nothing)
        } else {
            (self.saying("sweep cancelled (partial results kept)"@), ActionView::Stop)
        }
    }

    /// After the findings of the scan were drawn anew.
    pub open spec fn refreshed(self, findings: Seq<FindingView>) -> AppView {
        if self.scan == ScanState::Absent {
            AppView { last_refresh: self.clock, ..self }
        } else {
            let t = AppView { findings, last_refresh: self.clock, ..self };
            let n = t.visible().len();
            if t.result_idx >= n && n > 0 {
                AppView { result_idx: (n - 1) as usize, ..t }
            } else {
                t
            }
        }
    }

    /// Is it time to draw the findings anew?
    pub open spec fn wants_refresh(self) -> bool {
        self.scan != ScanState::Absent && self.clock - self.last_refresh > 250_000_000
    }
}

impl App {
    /// Fires the full sweep: the `r` key.
    pub fn start_scan(&mut self) -> (r: Action)
        ensures
            (final(self)@, r@) == old(self)@.starting(),
            old(self)@.wf() ==> final(self)@.wf(),
    {
        proof {
            reveal(AppView::starting);
        }
        if self.any_invalid_range() {
            self.toast("some range has an invalid CIDR — fix it before running".to_owned());
            return Action::Nothing;
        }
        let cfg = self.build_config();
        self.launch(cfg, "sweep started".to_owned())
    }

    /// Fires a sweep of a single range: the form's `s` key.
    pub fn scan_single(&mut self, idx: usize) -> (r: Action)
        ensures
            (final(self)@, r@) == old(self)@.starting_single(idx as int),
            old(self)@.wf() ==> final(self)@.wf(),
    {
        proof {
            reveal(AppView::starting_single);
        }
        let mut label = String::new();
        if idx < self.ranges.len() {
            assert(self@.ranges[idx as int] == self.ranges@[idx as int]@);
            label.append("sweeping ");
            label.append(text::trimmed_string(self.ranges[idx].text.as_str()).as_str());
        } else {
            label.append("sweep started");
        }
        let cfg = self.build_config_single(idx);
        self.launch(cfg, label)
    }

    fn launch(&mut self, cfg: Result<ScanConfig, Error>, notice: String) -> (r: Action)
        ensures
            forall|want: Result<ConfigView, ErrorView>| #[trigger]
                config_agrees(cfg, want) ==> (final(self)@, r@) == old(self)@.launching(
                    want,
                    notice@,
                ),
    {
        if self.is_running() {
            return Action::Nothing;
        }
        self.scan = ScanState::Absent;
        match cfg {
            Ok(c) => Action::Launch { cfg: c, notice },
            Err(e) => {
                self.launch_failed(e.message());
                Action::Abandon
            },
        }
    }

    /// The scan has started.
    pub fn launch_succeeded(&mut self, notice: String)
        ensures
            final(self)@ == old(self)@.launched(notice@),
    {
        self.findings = Vec::new();
        self.result_idx = 0;
        self.scan = ScanState::Running;
        self.pane = Pane::Results;
        self.toast(notice);
        assert(self@.findings =~= Seq::empty());
    }

    /// The scan could not be started.
    pub fn launch_failed(&mut self, msg: String)
        ensures
            final(self)@ == old(self)@.not_launched(msg@),
    {
        if text::has_text(msg.as_str(), "CAP_NET_RAW") {
            self.perm_error = Some(msg);
        } else {
            let mut s = String::new();
            s.append("failed to start: ");
            s.append(msg.as_str());
            self.toast(s);
        }
    }

    /// Stops the scan, keeping what was found.
    pub fn cancel_scan(&mut self) -> (r: Action)
        ensures
            (final(self)@, r@) == old(self)@.cancelling(),
            old(self)@.wf() ==> final(self)@.wf(),
    {
        proof {
            reveal(AppView::cancelling);
        }
        if self.scan == ScanState::Absent {
            return Action::Nothing;
        }
        self.toast("sweep cancelled (partial results kept)".to_owned());
        Action::Stop
    }

    /// Is it time to draw the findings anew?
    pub fn refresh_due(&self) -> (r: bool)
        ensures
            r == self@.wants_refresh(),
    {
        self.scan != ScanState::Absent && self.clock > self.last_refresh && self.clock
            - self.last_refresh > 250_000_000
    }

    /// Takes in the findings drawn anew from the scan's shared inventory.
    pub fn refresh_findings(&mut self, findings: Vec<Finding>)
        ensures
            final(self)@ == old(self)@.refreshed(correlate::finding_views(findings@)),
    {
        if self.scan != ScanState::Absent {
            self.findings = findings;
            self.last_refresh = self.clock;
            let n: usize = self.visible_indices().len();
            if self.result_idx >= n && n > 0 {
                self.result_idx = n - 1;
            }
        } else {
            self.last_refresh = self.clock;
        }
    }
}

// ---------------------------------------------------------------------
// What is visible
// ---------------------------------------------------------------------

/// Does one of the texts hold the pattern?
pub open spec fn any_contains(list: Seq<Seq<char>>, pat: Seq<char>) -> bool {
    exists|i: int| 0 <= i < list.len() && text::contains_text(#[trigger] list[i], pat)
}

/// Does a finding match a filter, given in lower case? The MAC, the vendor and the
/// host name are compared in lower case, the addresses as they are.
pub open spec fn matches_filter(f: FindingView, q: Seq<char>) -> bool {
    ||| text::contains_text(text::lowercase(f.mac), q)
    ||| any_contains(f.ipv4, q)
    ||| text::contains_text(text::lowercase(report::or_empty(f.vendor)), q)
    ||| text::contains_text(text::lowercase(report::or_empty(f.hostname)), q)
}

impl AppView {
    /// Is a finding visible under the filter and the flagged-only switch?
    pub open spec fn shows(self, f: FindingView) -> bool {
        &&& !self.only_flagged || f.flags.len() > 0
        &&& self.filter matches Some(q) ==> matches_filter(f, text::lowercase(q))
    }

    /// The positions of the first `n` findings that are visible.
    pub open spec fn visible_among(self, n: nat) -> Seq<usize>
        decreases n,
    {
        if n == 0 {
            Seq::empty()
        } else {
            let before = self.visible_among((n - 1) as nat);
            if self.shows(self.findings[n - 1]) {
                before.push((n - 1) as usize)
            } else {
                before
            }
        }
    }

    /// The positions of the findings that are visible.
    pub open spec fn visible(self) -> Seq<usize> {
        self.visible_among(self.findings.len())
    }

    /// The finding under the cursor.
    pub open spec fn selected(self) -> Option<FindingView> {
        if self.result_idx < self.visible().len() {
            Some(self.findings[self.visible()[self.result_idx as int] as int])
        } else {
            None
        }
    }
}

/// The positions that are visible are positions of findings, in order.
pub proof fn visible_is_in_order(v: AppView, n: nat)
    requires
        n <= v.findings.len(),
        v.findings.len() <= usize::MAX,
    ensures
        v.visible_among(n).len() <= n,
        forall|i: int|
            0 <= i < v.visible_among(n).len() ==> (#[trigger] v.visible_among(n)[i]) < n && v.shows(
                v.findings[v.visible_among(n)[i] as int],
            ),
        forall|i: int, j: int|
            0 <= i < j < v.visible_among(n).len() ==> #[trigger] v.visible_among(n)[i]
                < #[trigger] v.visible_among(n)[j],
        forall|k: usize|
            k < n && v.shows(v.findings[k as int]) ==> #[trigger] v.visible_among(n).contains(k),
    decreases n,
{
    if n > 0 {
        let m = (n - 1) as nat;
        let before = v.visible_among(m);
        visible_is_in_order(v, m);
        let r = v.visible_among(n);
        assert forall|k: usize| k < n && v.shows(v.findings[k as int]) implies #[trigger] r.contains(
            k,
        ) by {
            if k < m {
                assert(before.contains(k));
                let i = choose|i: int| 0 <= i < before.len() && before[i] == k;
                assert(r[i] == k);
            } else {
                assert(r[before.len() as int] == k);
            }
        }
    }
}

fn any_has_text(list: &Vec<String>, pat: &str) -> (r: bool)
    ensures
        r == any_contains(text::views(list@), pat@),
{
    let mut i: usize = 0;
    while i < list.len()
        invariant
            i <= list.len(),
            forall|j: int|
                0 <= j < i ==> !text::contains_text(#[trigger] text::views(list@)[j], pat@),
        decreases list.len() - i,
    {
        if text::has_text(list[i].as_str(), pat) {
            assert(text::contains_text(text::views(list@)[i as int], pat@));
            return true;
        }
        i = i + 1;
    }
    false
}

fn passes_filter(f: &Finding, q: &str) -> (r: bool)
    ensures
        r == matches_filter(f@, q@),
{
    text::has_text(text::to_lower(f.mac.as_str()).as_str(), q) || any_has_text(&f.ipv4, q)
        || text::has_text(text::to_lower(report::opt_str(&f.vendor)).as_str(), q)
        || text::has_text(text::to_lower(report::opt_str(&f.hostname)).as_str(), q)
}

/// The first of the texts that is an address.
pub open spec fn first_address(list: Seq<Seq<char>>) -> Option<Ipv4Addr>
    decreases list.len(),
{
    if list.len() == 0 {
        None
    } else {
        match Ipv4Addr::parsed(list[0]) {
            Some(ip) => Some(ip),
            None => first_address(list.drop_first()),
        }
    }
}

fn find_address(list: &Vec<String>) -> (r: Option<Ipv4Addr>)
    ensures
        r == first_address(text::views(list@)),
{
    let ghost all = text::views(list@);
    let mut i: usize = 0;
    assert(all.skip(0) =~= all);
    while i < list.len()
        invariant
            i <= list.len(),
            all == text::views(list@),
            first_address(all.skip(i as int)) == first_address(all),
        decreases list.len() - i,
    {
        assert(all.skip(i as int)[0] == list@[i as int]@);
        assert(all.skip(i as int).drop_first() =~= all.skip(i + 1));
        if let Some(ip) = Ipv4Addr::parse(list[i].as_str()) {
            return Some(ip);
        }
        i = i + 1;
    }
    assert(all.skip(list.len() as int) =~= Seq::empty());
    None
}

impl App {
    /// Indices of `findings` visible under the filter and only_flagged.
    pub fn visible_indices(&self) -> (r: Vec<usize>)
        ensures
            r@ == self@.visible(),
            forall|i: int| 0 <= i < r@.len() ==> (#[trigger] r@[i]) < self.findings@.len(),
    {
        let q: Option<String> = match &self.filter {
            Some(s) => Some(text::to_lower(s.as_str())),
            None => None,
        };
        let mut out: Vec<usize> = Vec::new();
        let mut i: usize = 0;
        while i < self.findings.len()
            invariant
                i <= self.findings.len(),
                match self@.filter {
                    Some(s) => q matches Some(x) && x@ == text::lowercase(s),
                    None => q is None,
                },
                out@ == self@.visible_among(i as nat),
                forall|k: int| 0 <= k < out@.len() ==> (#[trigger] out@[k]) < self.findings@.len(),
            decreases self.findings.len() - i,
        {
            let f: &Finding = &self.findings[i];
            assert(self@.findings[i as int] == f@);
            assert(f@.flags.len() == f.flags@.len());
            let wanted: bool = match &q {
                Some(s) => passes_filter(f, s.as_str()),
                None => true,
            };
            if (!self.only_flagged || f.flags.len() > 0) && wanted {
                out.push(i);
            }
            i = i + 1;
        }
        out
    }

    /// The finding under the cursor.
    pub fn selected_finding(&self) -> (r: Option<&Finding>)
        ensures
            match self@.selected() {
                Some(f) => r matches Some(x) && x@ == f,
                None => r is None,
            },
    {
        let vis: Vec<usize> = self.visible_indices();
        if self.result_idx < vis.len() {
            assert(vis@[self.result_idx as int] < self.findings@.len());
            Some(&self.findings[vis[self.result_idx]])
        } else {
            None
        }
    }
}

// ---------------------------------------------------------------------
// Actions on the selected host
// ---------------------------------------------------------------------

impl AppView {
    /// The first address of the finding under the cursor.
    pub open spec fn selected_address(self) -> Option<Ipv4Addr> {
        match self.selected() {
            Some(f) => first_address(f.ipv4),
            None => None,
        }
    }

    /// After a request to accept the /24 of the selected device for this session.
    #[verifier::opaque]
    pub open spec fn whitelisting(self) -> (AppView, ActionView) {
        match self.selected_address() {
            Some(ip) => {
                let n = scan::around(ip);
                (
                    AppView {
                        whitelist: if self.whitelist.contains(n) {
                            self.whitelist
                        } else {
                            self.whitelist.push(n)
                        },
                        ..self
                    }.saying(n.text() + " marked as known (this session)"@),
                    if self.scan == ScanState::Absent {
                        ActionView::Nothing
                    } else {
                        ActionView::Reanalyze
                    },
                )
            },
            None => (self.saying("host has no IPv4 to whitelist"@), ActionView::Nothing),
        }
    }

    /// After a request to copy the MAC of the selected device.
    #[verifier::opaque]
    pub open spec fn copying(self) -> (AppView, ActionView) {
        match self.selected() {
            Some(f) => (
                self.saying("MAC "@ + f.mac + " copied"@),
                ActionView::Copy { text: f.mac },
            ),
            None => (self, ActionView::Nothing),
        }
    }

    /// After a request to probe the selected device.
    #[verifier::opaque]
    pub open spec fn probing(self) -> (AppView, ActionView) {
        match self.selected_address() {
            Some(ip) => (self, ActionView::Probe { ip, iface: self.chosen_name() }),
            None => (self.saying("host has no IPv4 to probe"@), ActionView::Nothing),
        }
    }

    /// After a probe: alive, no answer, or not even tried.
    pub open spec fn probed(self, ip: Ipv4Addr, alive: Option<bool>) -> AppView {
        self.saying(
            match alive {
                Some(true) => ip.text() + " answered (alive)"@,
                Some(false) => ip.text() + " did not answer"@,
                None => "could not probe "@ + ip.text(),
            },
        )
    }

    /// After an export.
    pub open spec fn exported(self, paths: Result<Seq<char>, Seq<char>>) -> AppView {
        self.saying(
            match paths {
                Ok(p) => "exported: "@ + p,
                Err(e) => "export failed: "@ + e,
            },
        )
    }
}

fn holds_net(nets: &Vec<Ipv4Net>, n: Ipv4Net) -> (r: bool)
    ensures
        r == nets@.contains(n),
{
    let mut i: usize = 0;
    while i < nets.len()
        invariant
            i <= nets.len(),
            forall|j: int| 0 <= j < i ==> nets@[j] != n,
        decreases nets.len() - i,
    {
        if nets[i] == n {
            assert(nets@[i as int] == n);
            return true;
        }
        i = i + 1;
    }
    false
}

impl App {
    fn address_under_cursor(&self) -> (r: Option<Ipv4Addr>)
        ensures
            r == self@.selected_address(),
    {
        match self.selected_finding() {
            Some(f) => find_address(&f.ipv4),
            None => None,
        }
    }

    /// Accepts the /24 of the selected device for this session: the `w` key.
    pub fn whitelist_selected(&mut self) -> (r: Action)
        ensures
            (final(self)@, r@) == old(self)@.whitelisting(),
            old(self)@.wf() ==> final(self)@.wf(),
    {
        proof {
            reveal(AppView::whitelisting);
        }
        match self.address_under_cursor() {
            Some(ip) => {
                let n = (Ipv4Net { addr: ip, prefix_len: 24 }).trunc();
                if !holds_net(&self.session_whitelist, n) {
                    self.session_whitelist.push(n);
                }
                let mut s = n.to_string();
                s.append(" marked as known (this session)");
                self.toast(s);
                if self.scan == ScanState::Absent {
                    Action::Nothing
                } else {
                    Action::Reanalyze
                }
            },
            None => {
                self.toast("host has no IPv4 to whitelist".to_owned());
                Action::Nothing
            },
        }
    }

    /// Recomputes findings with the session whitelist added to the expected set, so
    /// that what was accepted disappears at once.
    pub fn reapply_whitelist(&mut self, inv: &Inventory, expected: &[Ipv4Net])
        ensures
            final(self)@ == (AppView { findings: final(self)@.findings, ..old(self)@ }),
            correlate::worst_first(final(self)@.findings),
            final(self)@.findings.to_multiset() == correlate::all_findings(
                inv@,
                expected@ + old(self)@.whitelist,
                old(self)@.vendors,
            ).to_multiset(),
    {
        let mut wide: Vec<Ipv4Net> = net::copy_nets(expected);
        net::append_nets(&mut wide, self.session_whitelist.as_slice());
        let fs = correlate::analyze(inv, wide.as_slice(), &self.oui);
        self.findings = fs;
    }

    /// Copies the MAC of the selected device: the `y` key.
    pub fn copy_mac_selected(&mut self) -> (r: Action)
        ensures
            (final(self)@, r@) == old(self)@.copying(),
            old(self)@.wf() ==> final(self)@.wf(),
    {
        proof {
            reveal(AppView::copying);
        }
        let mac: Option<String> = match self.selected_finding() {
            Some(f) => Some(f.mac.clone()),
            None => None,
        };
        match mac {
            Some(m) => {
                let mut s = String::new();
                s.append("MAC ");
                s.append(m.as_str());
                s.append(" copied");
                self.toast(s);
                Action::Copy { text: m }
            },
            None => Action::Nothing,
        }
    }

    /// Probes the selected device: the `p` key.
    pub fn probe_selected(&mut self) -> (r: Action)
        ensures
            (final(self)@, r@) == old(self)@.probing(),
            old(self)@.wf() ==> final(self)@.wf(),
    {
        proof {
            reveal(AppView::probing);
        }
        match self.address_under_cursor() {
            Some(ip) => Action::Probe { ip, iface: self.iface_name() },
            None => {
                self.toast("host has no IPv4 to probe".to_owned());
                Action::Nothing
            },
        }
    }

    /// The probe is over.
    pub fn probe_done(&mut self, ip: Ipv4Addr, alive: Option<bool>)
        ensures
            final(self)@ == old(self)@.probed(ip, alive),
    {
        let mut s = String::new();
        match alive {
            Some(true) => {
                s.append(ip.to_string().as_str());
                s.append(" answered (alive)");
            },
            Some(false) => {
                s.append(ip.to_string().as_str());
                s.append(" did not answer");
            },
            None => {
                s.append("could not probe ");
                s.append(ip.to_string().as_str());
            },
        }
        self.toast(s);
    }

    /// The export is over.
    pub fn export_done(&mut self, paths: Result<String, String>)
        ensures
            final(self)@ == old(self)@.exported(
                match paths {
                    Ok(p) => Ok(p@),
                    Err(e) => Err(e@),
                },
            ),
    {
        let mut s = String::new();
        match paths {
            Ok(p) => {
                s.append("exported: ");
                s.append(p.as_str());
            },
            Err(e) => {
                s.append("export failed: ");
                s.append(e.as_str());
            },
        }
        self.toast(s);
    }
}

// ---------------------------------------------------------------------
// Command line flags as the form's initial state
// ---------------------------------------------------------------------

/// Where the first interface with that name stands, if there is one.
pub open spec fn position_of(ifaces: Seq<IfaceView>, name: Seq<char>) -> Option<int>
    decreases ifaces.len(),
{
    if ifaces.len() == 0 {
        None
    } else if ifaces[0].name == name {
        Some(0)
    } else {
        match position_of(ifaces.drop_first(), name) {
            Some(i) => Some(i + 1),
            None => None,
        }
    }
}

/// Rows with those texts and that role.
pub open spec fn rows_of(texts: Seq<Seq<char>>, kind: RangeKind) -> Seq<RangeView> {
    Seq::new(texts.len(), |i: int| RangeView { text: texts[i], kind })
}

impl AppView {
    /// With the command line flags as the form's initial state. The time to listen
    /// is not taken over: the TUI listens for zero seconds by default. Ranges that
    /// are given replace the pre-filled row; an extra range means "sweep this too",
    /// not "this is legitimate".
    pub open spec fn with_cli(self, cli: CliView) -> AppView {
        AppView {
            iface_idx: self.named_iface(cli.iface),
            scope: cli.scope,
            adv: AdvancedView {
                rate: cli.rate,
                settle: cli.settle,
                passes: cli.passes,
                no_ipv6: cli.no_ipv6,
                spa: cli.spa,
                leases_file: match cli.leases_file {
                    Some(l) => l,
                    None => self.adv.leases_file,
                },
                ..self.adv
            },
            ranges: if cli_rows(cli).len() > 0 {
                cli_rows(cli)
            } else {
                self.ranges
            },
            ..self
        }
    }

    /// Where the interface with that name stands; the one chosen so far where none
    /// has it, or none is named.
    pub open spec fn named_iface(self, name: Option<Seq<char>>) -> usize {
        match name {
            Some(n) => match position_of(self.ifaces, n) {
                Some(i) => i as usize,
                None => self.iface_idx,
            },
            None => self.iface_idx,
        }
    }
}

/// The rows that a command line gives.
pub open spec fn cli_rows(cli: CliView) -> Seq<RangeView> {
    rows_of(cli.expected, RangeKind::Expected) + rows_of(cli.excluded, RangeKind::Ignored) + rows_of(
        cli.ranges,
        RangeKind::Target,
    )
}

fn find_iface(ifaces: &Vec<Iface>, name: &str) -> (r: Option<usize>)
    ensures
        match position_of(iface::iface_views(ifaces@), name@) {
            Some(i) => r matches Some(k) && k == i && k < ifaces.len(),
            None => r is None,
        },
{
    let ghost all = iface::iface_views(ifaces@);
    let mut i: usize = 0;
    assert(all.skip(0) =~= all);
    while i < ifaces.len()
        invariant
            i <= ifaces.len(),
            all == iface::iface_views(ifaces@),
            match position_of(all.skip(i as int), name@) {
                Some(k) => position_of(all, name@) == Some(k + i),
                None => position_of(all, name@) is None,
            },
        decreases ifaces.len() - i,
    {
        assert(all.skip(i as int)[0] == ifaces@[i as int]@);
        assert(all.skip(i as int).drop_first() =~= all.skip(i + 1));
        if text::same_text(ifaces[i].name.as_str(), name) {
            return Some(i);
        }
        i = i + 1;
    }
    assert(all.skip(ifaces.len() as int) =~= Seq::empty());
    None
}

fn push_rows(rows: &mut Vec<RangeRow>, texts: &Vec<String>, kind: RangeKind)
    ensures
        range_views(final(rows)@) == range_views(old(rows)@) + rows_of(text::views(texts@), kind),
{
    let ghost all = text::views(texts@);
    let mut i: usize = 0;
    assert(range_views(rows@) =~= range_views(old(rows)@) + rows_of(all.take(0), kind));
    while i < texts.len()
        invariant
            i <= texts.len(),
            all == text::views(texts@),
            range_views(rows@) == range_views(old(rows)@) + rows_of(all.take(i as int), kind),
        decreases texts.len() - i,
    {
        let ghost before = rows@;
        rows.push(RangeRow::new(texts[i].clone(), kind));
        let ghost row = RangeView { text: all[i as int], kind };
        assert(range_views(rows@) =~= range_views(before).push(row));
        assert(rows_of(all.take(i + 1), kind) =~= rows_of(all.take(i as int), kind).push(row));
        i = i + 1;
    }
    assert(all.take(texts.len() as int) =~= all);
}

fn rows_from(cli: &Cli) -> (r: Vec<RangeRow>)
    ensures
        range_views(r@) == cli_rows(cli@),
        r.len() == cli_rows(cli@).len(),
{
    let mut rows: Vec<RangeRow> = Vec::new();
    assert(range_views(rows@) =~= Seq::empty());
    push_rows(&mut rows, &cli.expected, RangeKind::Expected);
    push_rows(&mut rows, &cli.excluded, RangeKind::Ignored);
    push_rows(&mut rows, &cli.ranges, RangeKind::Target);
    assert(range_views(rows@) =~= cli_rows(cli@));
    assert(range_views(rows@).len() == rows@.len());
    rows
}

impl App {
    fn choose_iface(&mut self, name: &Option<String>)
        ensures
            final(self)@ == (AppView {
                iface_idx: old(self)@.named_iface(text::opt_view(*name)),
                ..old(self)@
            }),
            final(self).iface_idx == old(self).iface_idx || final(self).iface_idx < old(
                self,
            )@.ifaces.len(),
    {
        if let Some(n) = name {
            if let Some(i) = find_iface(&self.ifaces, n.as_str()) {
                self.iface_idx = i;
            }
        }
    }

    /// Applies command line flags as the form's initial state.
    pub fn apply_cli(&mut self, cli: &Cli)
        ensures
            final(self)@ == old(self)@.with_cli(cli@),
            old(self)@.wf() && !(old(self)@.form_focus is Range) ==> final(self)@.wf(),
    {
        self.choose_iface(&cli.iface);
        self.scope = cli.scope;
        self.adv =
        Advanced {
            spa: cli.spa.clone(),
            rate: cli.rate,
            settle: cli.settle,
            passes: cli.passes,
            no_ipv6: cli.no_ipv6,
            leases_file: match &cli.leases_file {
                Some(l) => l.clone(),
                None => self.adv.leases_file.clone(),
            },
            passive_secs: self.adv.passive_secs,
        };
        let rows: Vec<RangeRow> = rows_from(cli);
        if rows.len() > 0 {
            self.ranges = rows;
        }
    }
}

// ---------------------------------------------------------------------
// What holds of every configuration
// ---------------------------------------------------------------------

proof fn lemma_marked_is_listed(rows: Seq<RangeView>, kind: RangeKind, skip: int, i: int)
    requires
        0 <= i < rows.len(),
        i != skip,
        rows[i].kind == kind,
        rows[i].net() is Some,
    ensures
        nets_marked(rows, kind, skip).contains(rows[i].net()->0),
    decreases rows.len(),
{
    let n = rows[i].net()->0;
    let all = nets_marked(rows, kind, skip);
    if i == rows.len() - 1 {
        assert(all[all.len() - 1] == n);
    } else {
        let init = rows.drop_last();
        assert(init[i] == rows[i]);
        lemma_marked_is_listed(init, kind, skip, i);
        let before = nets_marked(init, kind, skip);
        let k = choose|k: int| 0 <= k < before.len() && before[k] == n;
        assert(all[k] == n);
    }
}

/// What a range's role decides: a network is swept and legitimate, a target is swept
/// ahead of every network, and an ignored range is excluded and legitimate.
pub proof fn roles_decide(v: AppView, i: int)
    requires
        0 <= i < v.ranges.len(),
        v.ranges[i].net() is Some,
        v.full_config() is Ok,
    ensures
        ({
            let c = v.full_config()->Ok_0;
            let n = v.ranges[i].net()->0;
            match v.ranges[i].kind {
                RangeKind::Expected => c.ranges.contains(n) && c.expected.contains(n),
                RangeKind::Target => {
                    let t = nets_marked(v.ranges, RangeKind::Target, -1);
                    t.contains(n) && c.ranges.take(t.len() as int) == t
                },
                RangeKind::Ignored => c.excluded.contains(n) && c.expected.contains(n),
            }
        }),
{
    let c = v.full_config()->Ok_0;
    let n = v.ranges[i].net()->0;
    let t = nets_marked(v.ranges, RangeKind::Target, -1);
    let e = nets_marked(v.ranges, RangeKind::Expected, -1);
    let x = nets_marked(v.ranges, RangeKind::Ignored, -1);
    lemma_marked_is_listed(v.ranges, v.ranges[i].kind, -1, i);
    match v.ranges[i].kind {
        RangeKind::Expected => {
            let k = choose|k: int| 0 <= k < e.len() && e[k] == n;
            assert(c.ranges[t.len() + k] == n);
            assert(c.expected[k] == n);
        },
        RangeKind::Target => {
            assert(c.ranges.take(t.len() as int) =~= t);
        },
        RangeKind::Ignored => {
            let k = choose|k: int| 0 <= k < x.len() && x[k] == n;
            assert(c.expected[e.len() + k] == n);
        },
    }
}

/// A target is swept first: every batch for an address that it probes comes before
/// any batch for an address outside the targets, whatever the other ranges and the
/// scope.
pub proof fn a_target_is_swept_first(
    v: AppView,
    i: int,
    hosts: Seq<HostView>,
    passes: nat,
    a: int,
    b: int,
    x: Ipv4Addr,
    y: Ipv4Addr,
)
    requires
        0 <= i < v.ranges.len(),
        v.ranges[i].kind == RangeKind::Target,
        v.ranges[i].net() is Some,
        v.full_config() is Ok,
        ({
            let c = v.full_config()->Ok_0;
            let batches = arp::plan(
                arp::all_blocks(
                    scan::targets(c.scope, c.expected, c.ranges, c.excluded, hosts),
                ),
                c.excluded,
                passes,
            );
            &&& scan::eligible(c.excluded)(v.ranges[i].net()->0)
            &&& 0 <= a < batches.len() && batches[a].contains(x)
            &&& 0 <= b < batches.len() && batches[b].contains(y)
        }),
        arp::probed_in(v.ranges[i].net()->0, x),
        !net::in_any(nets_marked(v.ranges, RangeKind::Target, -1), y),
    ensures
        a < b,
{
    let c = v.full_config()->Ok_0;
    let n = v.ranges[i].net()->0;
    let t = nets_marked(v.ranges, RangeKind::Target, -1);
    lemma_marked_is_listed(v.ranges, RangeKind::Target, -1, i);
    let k = choose|k: int| 0 <= k < t.len() && t[k] == n;
    assert(c.ranges[k] == n);
    if net::in_any(c.ranges.take(k + 1), y) {
        let m = choose|m: int|
            0 <= m < c.ranges.take(k + 1).len() && (#[trigger] c.ranges.take(k + 1)[m]).has(y);
        assert(t[m].has(y));
    }
    scan::what_is_asked_for_goes_first(
        c.scope,
        c.expected,
        c.ranges,
        c.excluded,
        hosts,
        passes,
        k,
        a,
        b,
        x,
        y,
    );
}

/// Where no range is left as a network, the interface's subnet is the baseline; and
/// what is ignored or accepted for the session is legitimate in any case.
pub proof fn there_is_a_baseline(v: AppView, n: Ipv4Net)
    requires
        v.full_config() is Ok,
    ensures
        nets_marked(v.ranges, RangeKind::Expected, -1).len() == 0 && v.chosen_net() == Some(n)
            ==> (v.full_config()->Ok_0).expected.contains(n),
        nets_marked(v.ranges, RangeKind::Ignored, -1).contains(n)
            ==> (v.full_config()->Ok_0).expected.contains(n),
        v.whitelist.contains(n) ==> (v.full_config()->Ok_0).expected.contains(n),
{
    let c = v.full_config()->Ok_0;
    let e = nets_marked(v.ranges, RangeKind::Expected, -1);
    let x = nets_marked(v.ranges, RangeKind::Ignored, -1);
    if e.len() == 0 && v.chosen_net() == Some(n) {
        assert(c.expected[(e.len() + x.len() + v.whitelist.len()) as int] == n);
    }
    if x.contains(n) {
        let k = choose|k: int| 0 <= k < x.len() && x[k] == n;
        assert(c.expected[e.len() + k] == n);
    }
    if v.whitelist.contains(n) {
        let k = choose|k: int| 0 <= k < v.whitelist.len() && v.whitelist[k] == n;
        assert(c.expected[e.len() + x.len() + k] == n);
    }
}

/// The sweep of one range is judged by the other ranges and the session's whitelist.
/// The interface's subnet only joins them where they are empty or where no range of
/// the form, the focused one included, is left as a network.
pub proof fn one_range_is_judged_by_the_others(v: AppView, idx: int)
    requires
        v.single_config(idx) is Ok,
    ensures
        ({
            let c = v.single_config(idx)->Ok_0;
            let others = nets_marked(v.ranges, RangeKind::Expected, idx) + nets_marked(
                v.ranges,
                RangeKind::Ignored,
                idx,
            ) + v.whitelist;
            if others.len() > 0 && nets_marked(v.ranges, RangeKind::Expected, -1).len() > 0 {
                c.expected == others
            } else {
                c.expected == others + cli::maybe_net(v.chosen_net())
            }
        }),
{
    let others = nets_marked(v.ranges, RangeKind::Expected, idx) + nets_marked(
        v.ranges,
        RangeKind::Ignored,
        idx,
    ) + v.whitelist;
    assert(others + Seq::empty() =~= others);
}

/// An address whose device is accepted for the session is reported as outside no
/// more, on whatever device and whatever else is expected.
pub proof fn what_is_accepted_is_not_outside(
    v: AppView,
    ip: Ipv4Addr,
    h: HostView,
    expected: Seq<Ipv4Net>,
)
    requires
        v.selected_address() == Some(ip),
    ensures
        !correlate::foreign(h, expected + v.whitelisting().0.whitelist).contains(ip),
{
    reveal(AppView::whitelisting);
    let n = scan::around(ip);
    let w = v.whitelisting().0.whitelist;
    let whole = Ipv4Net { addr: ip, prefix_len: 24 };
    net::lemma_truncated_keeps_block(whole);
    whole.lemma_bounds();
    assert(n.has(ip));
    assert(w.contains(n)) by {
        if !v.whitelist.contains(n) {
            assert(w[w.len() - 1] == n);
        }
    }
    let k = choose|k: int| 0 <= k < w.len() && w[k] == n;
    assert((expected + w)[expected.len() + k] == n);
    correlate::expected_is_never_outside(h, expected + w, ip);
}

// ---------------------------------------------------------------------
// What holds of every form
// ---------------------------------------------------------------------

/// A row that names a network is read, whatever white space stands around the text and
/// whatever host bits are set; a blank row is fine, and names none.
pub proof fn a_row_is_read(a: Seq<char>, n: Ipv4Net, b: Seq<char>, kind: RangeKind)
    requires
        n.wf(),
        text::blank(a),
        text::blank(b),
    ensures
        (RangeView { text: a + n.text() + b, kind }).fine(),
        (RangeView { text: a + n.text() + b, kind }).net() matches Some(m) && m.prefix_len == n.prefix_len
            && m.addr.bits == n.first(),
        (RangeView { text: a, kind }).fine(),
        Ipv4Net::parsed(Seq::empty()) is None ==> (RangeView { text: a, kind }).net() is None,
{
    let t = n.text();
    crate::addr::the_dotted_form_is_digits_and_periods(n.addr);
    crate::addr::lemma_dec_reads_back(n.prefix_len as nat);
    let d = text::dec(n.prefix_len as nat);
    assert(t[0] == n.addr.text()[0]);
    assert(t.last() == d[d.len() - 1]);
    assert(text::is_digit(d[d.len() - 1]));
    text::trimming_cuts_only_white_space(a, t, b);
    net::network_reads_back(n);
    n.lemma_bounds();
    assert(a =~= a + Seq::empty() + Seq::empty());
    text::trimming_cuts_only_white_space(a, Seq::empty(), Seq::empty());
}

/// A role lists the networks of its own rows in their order, and of no others.
pub proof fn a_role_lists_its_rows(rows: Seq<RangeView>, r: RangeView, kind: RangeKind, skip: int)
    ensures
        r.kind == kind && rows.len() != skip && r.net() is Some ==> nets_marked(
            rows.push(r),
            kind,
            skip,
        ) == nets_marked(rows, kind, skip).push(r.net()->0),
        !(r.kind == kind && rows.len() != skip && r.net() is Some) ==> nets_marked(
            rows.push(r),
            kind,
            skip,
        ) == nets_marked(rows, kind, skip),
        nets_marked(Seq::empty(), kind, skip).len() == 0,
{
    assert(rows.push(r).drop_last() =~= rows);
    assert(rows.push(r).last() == r);
}

/// Is it the network of a row with that role?
pub open spec fn comes_from_a_row(rows: Seq<RangeView>, kind: RangeKind, skip: int, n: Ipv4Net) -> bool {
    exists|i: int|
        0 <= i < rows.len() && i != skip && (#[trigger] rows[i]).kind == kind && rows[i].net() == Some(n)
}

proof fn lemma_listed_is_marked(rows: Seq<RangeView>, kind: RangeKind, skip: int, n: Ipv4Net)
    requires
        nets_marked(rows, kind, skip).contains(n),
    ensures
        comes_from_a_row(rows, kind, skip, n),
    decreases rows.len(),
{
    let all = nets_marked(rows, kind, skip);
    if rows.len() > 0 {
        let init = rows.drop_last();
        let before = nets_marked(init, kind, skip);
        let k = choose|k: int| 0 <= k < all.len() && all[k] == n;
        if k < before.len() {
            assert(before[k] == n);
            lemma_listed_is_marked(init, kind, skip, n);
            let i = choose|i: int|
                0 <= i < init.len() && i != skip && (#[trigger] init[i]).kind == kind && init[i].net()
                    == Some(n);
            assert(rows[i] == init[i]);
        } else {
            assert(rows[rows.len() - 1] == rows.last());
        }
    }
}

/// Nothing is swept that is not a network or a target of the form; nothing is excluded
/// that is not ignored there; and nothing is legitimate but the networks, what is
/// ignored, what was accepted for the session and the interface's own subnet.
pub proof fn nothing_else_is_configured(v: AppView, n: Ipv4Net)
    requires
        v.full_config() is Ok,
    ensures
        ({
            let c = v.full_config()->Ok_0;
            &&& c.ranges.contains(n) ==> comes_from_a_row(v.ranges, RangeKind::Expected, -1, n)
                || comes_from_a_row(v.ranges, RangeKind::Target, -1, n)
            &&& c.excluded.contains(n) <==> comes_from_a_row(v.ranges, RangeKind::Ignored, -1, n)
            &&& c.expected.contains(n) ==> comes_from_a_row(v.ranges, RangeKind::Expected, -1, n)
                || comes_from_a_row(v.ranges, RangeKind::Ignored, -1, n) || v.whitelist.contains(n)
                || v.chosen_net() == Some(n)
        }),
{
    let c = v.full_config()->Ok_0;
    let t = nets_marked(v.ranges, RangeKind::Target, -1);
    let e = nets_marked(v.ranges, RangeKind::Expected, -1);
    let x = nets_marked(v.ranges, RangeKind::Ignored, -1);
    if c.ranges.contains(n) {
        let k = choose|k: int| 0 <= k < c.ranges.len() && c.ranges[k] == n;
        if k < t.len() {
            assert(t[k] == n);
            lemma_listed_is_marked(v.ranges, RangeKind::Target, -1, n);
        } else {
            assert(e[k - t.len()] == n);
            lemma_listed_is_marked(v.ranges, RangeKind::Expected, -1, n);
        }
    }
    if c.excluded.contains(n) {
        lemma_listed_is_marked(v.ranges, RangeKind::Ignored, -1, n);
    }
    if comes_from_a_row(v.ranges, RangeKind::Ignored, -1, n) {
        let i = choose|i: int|
            0 <= i < v.ranges.len() && i != -1 && (#[trigger] v.ranges[i]).kind == RangeKind::Ignored
                && v.ranges[i].net() == Some(n);
        lemma_marked_is_listed(v.ranges, RangeKind::Ignored, -1, i);
    }
    if c.expected.contains(n) {
        let k = choose|k: int| 0 <= k < c.expected.len() && c.expected[k] == n;
        if k < e.len() {
            assert(e[k] == n);
            lemma_listed_is_marked(v.ranges, RangeKind::Expected, -1, n);
        } else if k < e.len() + x.len() {
            assert(x[k - e.len()] == n);
            lemma_listed_is_marked(v.ranges, RangeKind::Ignored, -1, n);
        } else if k < e.len() + x.len() + v.whitelist.len() {
            assert(v.whitelist[k - e.len() - x.len()] == n);
        }
    }
}

/// What is set in the form is what a scan is made with: the interface, the pace, the
/// scope, the time to listen, the sender and the lease file. The form never asks for a
/// silent scan.
pub proof fn the_form_is_taken_over(v: AppView)
    ensures
        v.full_config() is Ok <==> Spa::parsed(v.adv.spa) is Ok,
        v.full_config() matches Err(e) ==> Spa::parsed(v.adv.spa) == Err::<Spa, ErrorView>(e),
        v.full_config() matches Ok(c) ==> {
            &&& v.iface_idx < v.ifaces.len() ==> c.iface == Some(v.ifaces[v.iface_idx as int].name)
            &&& v.iface_idx >= v.ifaces.len() ==> c.iface is None
            &&& c.pace.rate == v.adv.rate
            &&& c.pace.settle_ms == v.adv.settle
            &&& c.pace.passes == v.adv.passes
            &&& c.scope == v.scope
            &&& c.passive_secs == v.adv.passive_secs
            &&& c.no_ipv6 == v.adv.no_ipv6
            &&& Spa::parsed(v.adv.spa) == Ok::<Spa, ErrorView>(c.spa)
            &&& !c.passive_only
            &&& text::trim(v.adv.leases_file).len() == 0 ==> c.leases_file is None
            &&& text::trim(v.adv.leases_file).len() > 0 ==> c.leases_file == Some(
                text::trim(v.adv.leases_file),
            )
        },
{
}

/// The sweep of one range sweeps that range and nothing else, without listening first;
/// it needs a range that is there and names a network. All else is as in the form.
pub proof fn one_range_is_swept_alone(v: AppView, idx: int)
    ensures
        !(0 <= idx < v.ranges.len()) ==> v.single_config(idx) == Err::<ConfigView, ErrorView>(
            ErrorView::NoRange,
        ),
        0 <= idx < v.ranges.len() && v.ranges[idx].net() is None ==> v.single_config(idx) == Err::<
            ConfigView,
            ErrorView,
        >(ErrorView::NoRange),
        v.single_config(idx) matches Ok(c) ==> {
            &&& 0 <= idx < v.ranges.len()
            &&& c.ranges.len() == 1
            &&& v.ranges[idx].net() == Some(c.ranges[0])
            &&& c.scope == Scope::Nothing
            &&& c.passive_secs == 0
            &&& v.full_config() matches Ok(f) && f.pace == c.pace && f.spa == c.spa && f.iface == c.iface
                && f.no_ipv6 == c.no_ipv6 && f.leases_file == c.leases_file && f.passive_only
                == c.passive_only
        },
{
}

/// The interface opens with the first interface and, where that has a subnet, with the
/// subnet as the one network to sweep; only then are devices without a flag hidden.
pub proof fn it_opens_with_its_own_subnet(
    ifaces: Seq<IfaceView>,
    vendors: Map<Seq<char>, Seq<char>>,
    clock: u128,
)
    requires
        ifaces.len() > 0 ==> (ifaces[0].net matches Some(n) ==> n.wf()),
    ensures
        ({
            let v = AppView::opening(ifaces, vendors, clock);
            let own = ifaces.len() > 0 && ifaces[0].net is Some;
            &&& v.wf()
            &&& v.scan == ScanState::Absent
            &&& v.findings.len() == 0
            &&& v.scope == Scope::Auto
            &&& v.only_flagged <==> own
            &&& ifaces.len() > 0 ==> v.chosen_name() == Some(ifaces[0].name)
            &&& own ==> v.ranges.len() == 1 && v.ranges[0].kind == RangeKind::Expected
                && v.ranges[0].net() == Some((ifaces[0].net->0).truncated())
            &&& !own ==> v.ranges.len() == 0
            &&& !v.has_bad_range()
        }),
{
    if ifaces.len() > 0 && ifaces[0].net is Some {
        let n = ifaces[0].net->0;
        a_row_is_read(Seq::empty(), n, Seq::empty(), RangeKind::Expected);
        assert(Seq::empty() + n.text() + Seq::empty() =~= n.text());
        n.lemma_bounds();
        let v = AppView::opening(ifaces, vendors, clock);
        assert(v.ranges[0].net() == Some(n.truncated()));
    }
}

/// A message is shown for four seconds, and its going changes nothing else.
pub proof fn a_message_lasts_four_seconds(v: AppView)
    ensures
        v.toast is None ==> v.ticked() == v,
        v.toast matches Some(t) ==> {
            &&& v.clock - t.1 <= 4_000_000_000 ==> v.ticked() == v
            &&& v.clock - t.1 > 4_000_000_000 ==> v.ticked().toast is None
            &&& (AppView { toast: v.toast, ..v.ticked() }) == v
        },
{
}

/// A full sweep starts where every row is blank or names a network and none is running;
/// otherwise nothing is started.
pub proof fn a_sweep_starts(v: AppView)
    ensures
        ({
            let (w, a) = v.starting();
            let fine = forall|i: int|
                0 <= i < v.ranges.len() ==> text::trim((#[trigger] v.ranges[i]).text).len() == 0
                    || v.ranges[i].net() is Some;
            &&& a is Launch <==> fine && v.scan != ScanState::Running && v.full_config() is Ok
            &&& a matches ActionView::Launch { cfg, .. } ==> v.full_config() == Ok::<ConfigView, ErrorView>(
                cfg,
            )
            &&& !fine ==> a is Nothing && w.scan == v.scan && w.toast is Some
            &&& v.scan == ScanState::Running ==> a is Nothing && w.scan == v.scan
            &&& w.ranges == v.ranges && w.findings == v.findings
        }),
{
    reveal(AppView::starting);
    if v.has_bad_range() {
        let i = choose|i: int| 0 <= i < v.ranges.len() && !(#[trigger] v.ranges[i]).fine();
        assert(!(text::trim(v.ranges[i].text).len() == 0 || v.ranges[i].net() is Some));
    } else {
        assert forall|i: int| 0 <= i < v.ranges.len() implies text::trim((#[trigger] v.ranges[i]).text).len()
            == 0 || v.ranges[i].net() is Some by {
            assert(v.ranges[i].fine());
        }
    }
}

/// A scan that has started runs, shows an empty list with the cursor on top, and says
/// so.
pub proof fn a_started_scan_runs(v: AppView, notice: Seq<char>)
    ensures
        ({
            let w = v.launched(notice);
            &&& w.scan == ScanState::Running
            &&& w.findings.len() == 0
            &&& w.result_idx == 0
            &&& w.pane == Pane::Results
            &&& w.toast == Some((notice, v.clock))
            &&& w.ranges == v.ranges && w.adv == v.adv && w.scope == v.scope && w.iface_idx == v.iface_idx
                && w.whitelist == v.whitelist
        }),
{
}

/// A scan that could not be started is told of: in full where a capability is missing,
/// on the status line otherwise.
pub proof fn a_failure_is_told(v: AppView, msg: Seq<char>)
    ensures
        ({
            let w = v.not_launched(msg);
            &&& text::contains_text(msg, "CAP_NET_RAW"@) ==> w.perm_error == Some(msg) && w.toast == v.toast
            &&& !text::contains_text(msg, "CAP_NET_RAW"@) ==> w.perm_error == v.perm_error && (
            w.toast matches Some(t) && text::contains_text(t.0, msg) && t.1 == v.clock)
            &&& w.scan == v.scan && w.findings == v.findings
        }),
{
    let head = "failed to start: "@;
    text::a_text_stands_in_itself(msg);
    text::what_stands_inside_stands_outside(head, msg, Seq::empty(), msg, 0);
    assert(head + msg + Seq::empty() =~= head + msg);
}

/// Findings drawn anew replace the old ones, and the cursor stays on a line that is
/// there: where it was, or on the last one.
pub proof fn the_cursor_stays_on_the_list(v: AppView, findings: Seq<FindingView>)
    requires
        v.scan != ScanState::Absent,
        findings.len() <= usize::MAX,
    ensures
        ({
            let w = v.refreshed(findings);
            &&& w.findings == findings
            &&& w.last_refresh == v.clock
            &&& w.visible().len() > 0 ==> w.result_idx < w.visible().len()
            &&& v.result_idx < w.visible().len() ==> w.result_idx == v.result_idx
            &&& 0 < w.visible().len() <= v.result_idx ==> w.result_idx == w.visible().len() - 1
            &&& w.filter == v.filter && w.only_flagged == v.only_flagged && w.scan == v.scan
        }),
{
    let t = AppView { findings, last_refresh: v.clock, ..v };
    let w = v.refreshed(findings);
    lemma_same_visible(t, w, findings.len());
    visible_is_in_order(t, findings.len());
}

/// Without a scan there is nothing to draw anew.
pub proof fn without_a_scan_nothing_is_drawn(v: AppView, findings: Seq<FindingView>)
    requires
        v.scan == ScanState::Absent,
    ensures
        v.refreshed(findings).findings == v.findings,
        v.refreshed(findings).result_idx == v.result_idx,
        !v.wants_refresh(),
{
}

proof fn lemma_same_visible(a: AppView, b: AppView, n: nat)
    requires
        a.findings == b.findings,
        a.filter == b.filter,
        a.only_flagged == b.only_flagged,
    ensures
        a.visible_among(n) == b.visible_among(n),
    decreases n,
{
    if n > 0 {
        lemma_same_visible(a, b, (n - 1) as nat);
    }
}

/// A quarter of a second goes by between two drawings of a scan.
pub proof fn a_scan_is_drawn_four_times_a_second(v: AppView)
    requires
        v.scan != ScanState::Absent,
    ensures
        v.wants_refresh() <==> v.clock > v.last_refresh + 250_000_000,
{
}

/// A filter finds a device by any part of its MAC, of one of its addresses, of its
/// vendor or of its host name, capitals or not, and by nothing else; without a filter
/// every device is found.
pub proof fn a_filter_finds_by_any_part(v: AppView, f: FindingView)
    requires
        !v.only_flagged || f.flags.len() > 0,
    ensures
        v.filter is None ==> v.shows(f),
        v.filter matches Some(q) ==> (v.shows(f) <==> {
            let p = text::lowercase(q);
            ||| exists|i: int| text::occurs_at(text::lowercase(f.mac), p, i)
            ||| exists|k: int, i: int|
                0 <= k < f.ipv4.len() && #[trigger] text::occurs_at(f.ipv4[k], p, i)
            ||| (f.vendor matches Some(s) && exists|i: int| text::occurs_at(text::lowercase(s), p, i))
            ||| (f.hostname matches Some(s) && exists|i: int|
                text::occurs_at(text::lowercase(s), p, i))
            ||| f.vendor is None && text::contains_text(text::lowercase(Seq::empty()), p)
            ||| f.hostname is None && text::contains_text(text::lowercase(Seq::empty()), p)
        }),
{
    if v.filter is Some {
        let p = text::lowercase(v.filter->0);
        if any_contains(f.ipv4, p) {
            let k = choose|k: int| 0 <= k < f.ipv4.len() && text::contains_text(#[trigger] f.ipv4[k], p);
            let i = choose|i: int| text::occurs_at(f.ipv4[k], p, i);
            assert(text::occurs_at(f.ipv4[k], p, i));
        }
        if exists|k: int, i: int| 0 <= k < f.ipv4.len() && #[trigger] text::occurs_at(f.ipv4[k], p, i) {
            let (k, i) = choose|k: int, i: int|
                0 <= k < f.ipv4.len() && #[trigger] text::occurs_at(f.ipv4[k], p, i);
            assert(text::contains_text(f.ipv4[k], p));
        }
    }
}

/// Where only flagged devices are asked for, no other is shown.
pub proof fn what_is_not_flagged_is_hidden(v: AppView, f: FindingView)
    requires
        v.only_flagged,
        f.flags.len() == 0,
    ensures
        !v.shows(f),
{
}

/// The first text that is an address is the address of a device.
pub proof fn the_first_address_counts(list: Seq<Seq<char>>, k: int, ip: Ipv4Addr)
    requires
        0 <= k <= list.len(),
        k < list.len() ==> list[k] == ip.text(),
        forall|j: int, x: Ipv4Addr| 0 <= j < k ==> #[trigger] list[j] != #[trigger] x.text(),
    ensures
        first_address(list) == (if k < list.len() {
            Some(ip)
        } else {
            None
        }),
    decreases list.len(),
{
    if list.len() > 0 {
        if k == 0 {
            crate::addr::ipv4_reads_back(ip);
        } else {
            let rest = list.drop_first();
            assert forall|x: Ipv4Addr| list[0] != #[trigger] x.text() by {}
            assert forall|j: int, x: Ipv4Addr| 0 <= j < k - 1 implies #[trigger] rest[j]
                != #[trigger] x.text() by {
                assert(rest[j] == list[j + 1]);
            }
            if k < list.len() {
                assert(rest[k - 1] == list[k]);
            }
            the_first_address_counts(rest, k - 1, ip);
        }
    }
}

/// Accepting a device adds the /24 around its address to what is accepted, once, takes
/// nothing away, and has a scan judged anew; without an address nothing is accepted.
pub proof fn accepting_adds_one_subnet(v: AppView)
    ensures
        ({
            let (w, a) = v.whitelisting();
            match v.selected_address() {
                Some(ip) => {
                    &&& exists|k: int|
                        0 <= k < w.whitelist.len() && (#[trigger] w.whitelist[k]).prefix_len == 24
                            && w.whitelist[k].addr.bits == ip.bits - ip.bits % 256
                    &&& v.whitelist.len() <= w.whitelist.len() <= v.whitelist.len() + 1
                    &&& w.whitelist.take(v.whitelist.len() as int) == v.whitelist
                    &&& a is Reanalyze <==> v.scan != ScanState::Absent
                    &&& w.findings == v.findings && w.ranges == v.ranges && w.scan == v.scan
                },
                None => w.whitelist == v.whitelist && a is Nothing && w.toast is Some,
            }
        }),
{
    reveal(AppView::whitelisting);
    let w = v.whitelisting().0;
    if let Some(ip) = v.selected_address() {
        let n = scan::around(ip);
        scan::the_subnet_around_an_address(ip);
        net::a_longer_prefix_halves(24);
        if v.whitelist.contains(n) {
            let k = choose|k: int| 0 <= k < v.whitelist.len() && v.whitelist[k] == n;
            assert(w.whitelist[k] == n);
        } else {
            assert(w.whitelist[v.whitelist.len() as int] == n);
        }
        assert(w.whitelist.take(v.whitelist.len() as int) =~= v.whitelist);
    }
}

/// What is copied is the MAC of the device under the cursor, and what is probed is its
/// first address, through the interface chosen.
pub proof fn the_device_under_the_cursor_is_meant(v: AppView)
    ensures
        v.selected() matches Some(f) ==> v.copying().1 == (ActionView::Copy { text: f.mac }),
        v.selected() is None ==> v.copying() == (v, ActionView::Nothing) && v.probing().1 is Nothing,
        v.selected() matches Some(f) ==> match first_address(f.ipv4) {
            Some(ip) => v.probing() == (v, ActionView::Probe { ip, iface: v.chosen_name() }),
            None => v.probing().1 is Nothing && v.probing().0.toast is Some,
        },
        v.copying().0.findings == v.findings,
{
    reveal(AppView::copying);
    reveal(AppView::probing);
}

/// What came of a probe or of an export is told, with the address or the names in it.
pub proof fn what_came_of_it_is_told(v: AppView, ip: Ipv4Addr, alive: Option<bool>, paths: Result<Seq<char>, Seq<char>>)
    ensures
        v.probed(ip, alive).toast matches Some(t) && text::contains_text(t.0, ip.text()) && t.1 == v.clock,
        v.exported(paths).toast matches Some(t) && t.1 == v.clock && match paths {
            Ok(p) => text::contains_text(t.0, p),
            Err(e) => text::contains_text(t.0, e),
        },
        v.probed(ip, Some(true)).toast != v.probed(ip, Some(false)).toast,
{
    let t = ip.text();
    text::a_text_stands_in_itself(t);
    let (yes, no, not) = (" answered (alive)"@, " did not answer"@, "could not probe "@);
    reveal_strlit(" answered (alive)");
    reveal_strlit(" did not answer");
    text::what_stands_inside_stands_outside(Seq::empty(), t, yes, t, 0);
    text::what_stands_inside_stands_outside(Seq::empty(), t, no, t, 0);
    text::what_stands_inside_stands_outside(not, t, Seq::empty(), t, 0);
    assert(Seq::empty() + t + yes =~= t + yes);
    assert(Seq::empty() + t + no =~= t + no);
    assert(not + t + Seq::empty() =~= not + t);
    assert((t + yes).len() != (t + no).len());
    match paths {
        Ok(p) => {
            text::a_text_stands_in_itself(p);
            text::what_stands_inside_stands_outside("exported: "@, p, Seq::empty(), p, 0);
            assert("exported: "@ + p + Seq::empty() =~= "exported: "@ + p);
        },
        Err(p) => {
            text::a_text_stands_in_itself(p);
            text::what_stands_inside_stands_outside("export failed: "@, p, Seq::empty(), p, 0);
            assert("export failed: "@ + p + Seq::empty() =~= "export failed: "@ + p);
        },
    }
}

/// A name chooses the first interface that has it.
pub proof fn a_name_chooses_the_first(ifaces: Seq<IfaceView>, name: Seq<char>, k: int)
    requires
        0 <= k <= ifaces.len(),
        k < ifaces.len() ==> ifaces[k].name == name,
        forall|j: int| 0 <= j < k ==> (#[trigger] ifaces[j]).name != name,
    ensures
        position_of(ifaces, name) == (if k < ifaces.len() {
            Some(k)
        } else {
            None
        }),
    decreases ifaces.len(),
{
    if k > 0 {
        assert(ifaces[0].name != name);
        let rest = ifaces.drop_first();
        assert forall|j: int| 0 <= j < k - 1 implies (#[trigger] rest[j]).name != name by {
            assert(rest[j] == ifaces[j + 1]);
        }
        if k < ifaces.len() {
            assert(rest[k - 1] == ifaces[k]);
        }
        a_name_chooses_the_first(rest, name, k - 1);
    }
}

/// The flags of the command line fill the form in: what is expected becomes a network,
/// what is excluded is ignored, and an extra range becomes a target, each in a row of
/// its own that replaces the one filled in before. Where none is given, that one stays.
pub proof fn flags_fill_the_form(v: AppView, c: CliView, i: int)
    ensures
        ({
            let w = v.with_cli(c);
            let (e, x) = (c.expected.len() as int, c.excluded.len() as int);
            let n = e + x + c.ranges.len();
            &&& n > 0 ==> w.ranges.len() == n
            &&& n == 0 ==> w.ranges == v.ranges
            &&& 0 <= i < e ==> w.ranges[i].text == c.expected[i] && w.ranges[i].kind
                == RangeKind::Expected
            &&& 0 <= i < x ==> w.ranges[e + i].text == c.excluded[i] && w.ranges[e + i].kind
                == RangeKind::Ignored
            &&& 0 <= i < c.ranges.len() ==> w.ranges[e + x + i].text == c.ranges[i] && w.ranges[e + x
                + i].kind == RangeKind::Target
            &&& w.scope == c.scope
            &&& w.adv.rate == c.rate
            &&& w.adv.settle == c.settle
            &&& w.adv.passes == c.passes
            &&& w.adv.no_ipv6 == c.no_ipv6
            &&& w.adv.spa == c.spa
            &&& w.adv.passive_secs == v.adv.passive_secs
            &&& c.leases_file matches Some(l) ==> w.adv.leases_file == l
            &&& c.leases_file is None ==> w.adv.leases_file == v.adv.leases_file
            &&& c.iface is None ==> w.iface_idx == v.iface_idx
            &&& w.findings == v.findings && w.scan == v.scan && w.whitelist == v.whitelist
        }),
{
}

} // verus!
