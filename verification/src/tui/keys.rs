//! What each key does.
use crate::cli::Scope;
use crate::text;
use crate::tui::app::{
    self, Action, ActionView, Advanced, AdvancedView, App, AppView, FormFocus, Pane, RangeKind, RangeRow,
    RangeView, ScanState,
};
use vstd::prelude::*;

verus! {

broadcast use vstd::seq::group_seq_axioms;

/// A key, as far as the interface tells keys apart.
#[derive(Debug, Clone, Copy, PartialEq, Eq, Structural)]
pub enum Key {
    Char(char),
    Enter,
    Esc,
    Backspace,
    Tab,
    Up,
    Down,
    Left,
    Right,
    Other,
}

// ---------------------------------------------------------------------
// The fields of the form
// ---------------------------------------------------------------------

impl AppView {
    /// The fields that the cursor moves over, from top to bottom.
    pub open spec fn form_items(self) -> Seq<FormFocus> {
        seq![FormFocus::Interface, FormFocus::Scope] + Seq::new(
            self.ranges.len(),
            |i: int| FormFocus::Range(i as usize),
        ) + seq![FormFocus::AdvancedToggle] + (if self.advanced_open {
            seq![
                FormFocus::AdvSpa,
                FormFocus::AdvRate,
                FormFocus::AdvSettle,
                FormFocus::AdvPasses,
                FormFocus::AdvNoIpv6,
                FormFocus::AdvLeases,
                FormFocus::AdvPassive,
            ]
        } else {
            Seq::empty()
        })
    }

    /// Where the cursor is among the fields; at the top where its field is not
    /// shown.
    pub open spec fn cursor(self) -> int {
        match index_in(self.form_items(), self.form_focus) {
            Some(i) => i,
            None => 0,
        }
    }

    /// With the cursor one field further down, or up, if there is one.
    #[verifier::opaque]
    pub open spec fn moved(self, down: bool) -> AppView {
        let items = self.form_items();
        let c = self.cursor();
        AppView {
            form_focus: if down {
                items[if c + 1 < items.len() {
                    c + 1
                } else {
                    items.len() - 1
                }]
            } else {
                items[if c > 0 {
                    c - 1
                } else {
                    0
                }]
            },
            ..self
        }
    }

    /// With an empty range behind the current one, being edited.
    #[verifier::opaque]
    pub open spec fn with_new_range(self) -> AppView {
        let at = match self.form_focus {
            FormFocus::Range(i) => i + 1,
            _ => self.ranges.len() as int,
        };
        AppView {
            ranges: self.ranges.insert(
                at,
                RangeView { text: Seq::empty(), kind: RangeKind::Expected },
            ),
            form_focus: FormFocus::Range(at as usize),
            editing: Some(Seq::empty()),
            ..self
        }
    }

    /// Without the focused range. The cursor stays, or goes to the last range, or to
    /// the scope where none is left.
    #[verifier::opaque]
    pub open spec fn without_range(self) -> AppView {
        match self.form_focus {
            FormFocus::Range(i) => {
                let n = self.ranges.len() - 1;
                AppView {
                    ranges: self.ranges.remove(i as int),
                    form_focus: if n == 0 {
                        FormFocus::Scope
                    } else if i < n {
                        FormFocus::Range(i)
                    } else {
                        FormFocus::Range((n - 1) as usize)
                    },
                    ..self
                }
            },
            _ => self,
        }
    }

    /// With another role for the focused range.
    pub open spec fn with_kind(self, i: usize, forward: bool) -> AppView {
        if i < self.ranges.len() {
            let r = self.ranges[i as int];
            AppView {
                ranges: self.ranges.update(
                    i as int,
                    RangeView {
                        kind: if forward {
                            r.kind.following()
                        } else {
                            r.kind.preceding()
                        },
                        ..r
                    },
                ),
                ..self
            }
        } else {
            self
        }
    }

    /// Space: cycles a range's role, or toggles an advanced boolean.
    #[verifier::opaque]
    pub open spec fn toggled(self) -> AppView {
        match self.form_focus {
            FormFocus::Range(i) => self.with_kind(i, true),
            FormFocus::AdvNoIpv6 => AppView {
                adv: AdvancedView { no_ipv6: !self.adv.no_ipv6, ..self.adv },
                ..self
            },
            FormFocus::AdvancedToggle => AppView { advanced_open: !self.advanced_open, ..self },
            _ => self,
        }
    }

    /// Enter: activates the focused field (edit text, cycle, open the drawer).
    #[verifier::opaque]
    pub open spec fn activated(self) -> AppView {
        match self.form_focus {
            FormFocus::Interface => self.cycled(true),
            FormFocus::Scope => self.cycled(true),
            FormFocus::AdvancedToggle => AppView { advanced_open: !self.advanced_open, ..self },
            FormFocus::AdvNoIpv6 => AppView {
                adv: AdvancedView { no_ipv6: !self.adv.no_ipv6, ..self.adv },
                ..self
            },
            _ => AppView { editing: Some(self.field_text()), ..self },
        }
    }

    /// The text of the focused field, to be edited.
    pub open spec fn field_text(self) -> Seq<char> {
        match self.form_focus {
            FormFocus::Range(i) => if i < self.ranges.len() {
                self.ranges[i as int].text
            } else {
                Seq::empty()
            },
            FormFocus::AdvSpa => self.adv.spa,
            FormFocus::AdvRate => text::dec(self.adv.rate as nat),
            FormFocus::AdvSettle => text::dec(self.adv.settle as nat),
            FormFocus::AdvPasses => text::dec(self.adv.passes as nat),
            FormFocus::AdvLeases => self.adv.leases_file,
            FormFocus::AdvPassive => text::dec(self.adv.passive_secs as nat),
            _ => Seq::empty(),
        }
    }

    /// With the next or the previous interface. Its subnet is suggested again in row
    /// one, where there is at most one row.
    pub open spec fn with_next_iface(self, forward: bool) -> AppView {
        let n = if self.ifaces.len() == 0 {
            1
        } else {
            self.ifaces.len() as int
        };
        let idx = (if forward {
            if self.iface_idx + 1 < n {
                self.iface_idx + 1
            } else {
                0
            }
        } else {
            if self.iface_idx > 0 {
                self.iface_idx - 1
            } else {
                n - 1
            }
        }) as usize;
        let t = AppView { iface_idx: idx, ..self };
        if idx < self.ifaces.len() && self.ifaces[idx as int].net is Some && self.ranges.len() <= 1 {
            AppView {
                ranges: seq![
                    RangeView {
                        text: (self.ifaces[idx as int].net->0).text(),
                        kind: RangeKind::Expected,
                    },
                ],
                ..t
            }
        } else {
            t
        }
    }

    /// Left/right: cycles the values of enumerated fields.
    #[verifier::opaque]
    pub open spec fn cycled(self, forward: bool) -> AppView {
        match self.form_focus {
            FormFocus::Interface => self.with_next_iface(forward),
            FormFocus::Scope => AppView { scope: next_scope(self.scope, forward), ..self },
            FormFocus::Range(i) => self.with_kind(i, forward),
            FormFocus::AdvSpa => AppView {
                adv: AdvancedView { spa: next_spa(self.adv.spa, forward), ..self.adv },
                ..self
            },
            _ => self,
        }
    }

    /// With the edit buffer taken over into the focused field. A number that cannot
    /// be read leaves the field as it was.
    #[verifier::opaque]
    pub open spec fn committed(self) -> AppView {
        match self.editing {
            None => self,
            Some(buf) => AppView {
                editing: None,
                ranges: with_text(self.ranges, self.form_focus, buf),
                adv: self.adv.with_field(self.form_focus, buf),
                ..self
            },
        }
    }
}

/// The rows with a text in the focused one, if it is one of them.
pub open spec fn with_text(
    rows: Seq<RangeView>,
    focus: FormFocus,
    buf: Seq<char>,
) -> Seq<RangeView> {
    match focus {
        FormFocus::Range(i) => if i < rows.len() {
            rows.update(i as int, RangeView { text: buf, ..rows[i as int] })
        } else {
            rows
        },
        _ => rows,
    }
}

impl AdvancedView {
    /// With a text taken over into the focused field, if it is one of these. A number
    /// that cannot be read leaves the field as it was.
    pub open spec fn with_field(self, focus: FormFocus, buf: Seq<char>) -> AdvancedView {
        match focus {
            FormFocus::AdvSpa => AdvancedView { spa: buf, ..self },
            FormFocus::AdvRate => AdvancedView { rate: number_or(buf, self.rate), ..self },
            FormFocus::AdvSettle => AdvancedView { settle: number_or(buf, self.settle), ..self },
            FormFocus::AdvPasses => AdvancedView { passes: small_or(buf, self.passes), ..self },
            FormFocus::AdvLeases => AdvancedView { leases_file: buf, ..self },
            FormFocus::AdvPassive => AdvancedView {
                passive_secs: number_or(buf, self.passive_secs),
                ..self
            },
            _ => self,
        }
    }
}

/// Where an item first stands in a list.
pub open spec fn index_in(items: Seq<FormFocus>, f: FormFocus) -> Option<int>
    decreases items.len(),
{
    if items.len() == 0 {
        None
    } else if items[0] == f {
        Some(0)
    } else {
        match index_in(items.drop_first(), f) {
            Some(i) => Some(i + 1),
            None => None,
        }
    }
}

/// The scope that follows or precedes in the cycle auto, rfc1918, private16, ranges
/// only.
pub open spec fn next_scope(s: Scope, forward: bool) -> Scope {
    match s {
        Scope::Auto => if forward {
            Scope::Rfc1918
        } else {
            Scope::Nothing
        },
        Scope::Rfc1918 => if forward {
            Scope::Private16
        } else {
            Scope::Auto
        },
        Scope::Private16 => if forward {
            Scope::Nothing
        } else {
            Scope::Rfc1918
        },
        Scope::Nothing => if forward {
            Scope::Auto
        } else {
            Scope::Private16
        },
    }
}

/// The sender that follows or precedes in the cycle probe, local, dest, neighbor.
/// Anything else counts as the first.
pub open spec fn next_spa(s: Seq<char>, forward: bool) -> Seq<char> {
    if s == "local"@ {
        if forward {
            "dest"@
        } else {
            "probe"@
        }
    } else if s == "dest"@ {
        if forward {
            "neighbor"@
        } else {
            "local"@
        }
    } else if s == "neighbor"@ {
        if forward {
            "probe"@
        } else {
            "dest"@
        }
    } else {
        if forward {
            "local"@
        } else {
            "neighbor"@
        }
    }
}

/// The number that a text names, white space around it aside; otherwise the given
/// one.
pub open spec fn number_or(s: Seq<char>, old_value: u64) -> u64 {
    match text::parse_uint(text::trim(s), u64::MAX as nat) {
        Some(n) => n as u64,
        None => old_value,
    }
}

/// The number that a text names, as far as it fits in 32 bits; otherwise the given
/// one.
pub open spec fn small_or(s: Seq<char>, old_value: u32) -> u32 {
    match text::parse_uint(text::trim(s), u32::MAX as nat) {
        Some(n) => n as u32,
        None => old_value,
    }
}

fn read_number(s: &str, old_value: u64) -> (r: u64)
    ensures
        r == number_or(s@, old_value),
{
    let cs: Vec<char> = text::chars_of(s);
    let t: Vec<char> = text::trimmed(cs.as_slice());
    match text::read_uint(t.as_slice(), u64::MAX) {
        Some(n) => n,
        None => old_value,
    }
}

fn read_small(s: &str, old_value: u32) -> (r: u32)
    ensures
        r == small_or(s@, old_value),
{
    let cs: Vec<char> = text::chars_of(s);
    let t: Vec<char> = text::trimmed(cs.as_slice());
    match text::read_uint(t.as_slice(), u32::MAX as u64) {
        Some(n) => n as u32,
        None => old_value,
    }
}

/// The fields that the cursor moves over, from top to bottom.
pub fn form_items(app: &App) -> (r: Vec<FormFocus>)
    ensures
        r@ == app@.form_items(),
        r.len() >= 3,
{
    let mut v: Vec<FormFocus> = Vec::new();
    v.push(FormFocus::Interface);
    v.push(FormFocus::Scope);
    let ghost n = app@.ranges.len();
    let ghost rows = Seq::new(n, |i: int| FormFocus::Range(i as usize));
    let ghost head = seq![FormFocus::Interface, FormFocus::Scope];
    assert(v@ =~= head + rows.take(0));
    let mut i: usize = 0;
    while i < app.ranges.len()
        invariant
            i <= app.ranges.len(),
            n == app.ranges@.len(),
            rows == Seq::new(n, |k: int| FormFocus::Range(k as usize)),
            v@ == head + rows.take(i as int),
        decreases app.ranges.len() - i,
    {
        v.push(FormFocus::Range(i));
        assert(rows.take(i + 1) =~= rows.take(i as int).push(FormFocus::Range(i)));
        i = i + 1;
    }
    assert(rows.take(n as int) =~= rows);
    v.push(FormFocus::AdvancedToggle);
    if app.advanced_open {
        v.push(FormFocus::AdvSpa);
        v.push(FormFocus::AdvRate);
        v.push(FormFocus::AdvSettle);
        v.push(FormFocus::AdvPasses);
        v.push(FormFocus::AdvNoIpv6);
        v.push(FormFocus::AdvLeases);
        v.push(FormFocus::AdvPassive);
    }
    assert(v@ =~= app@.form_items());
    v
}

fn find_item(items: &Vec<FormFocus>, f: FormFocus) -> (r: Option<usize>)
    ensures
        match index_in(items@, f) {
            Some(i) => r matches Some(k) && k == i && k < items.len(),
            None => r is None,
        },
{
    let mut i: usize = 0;
    assert(items@.skip(0) =~= items@);
    while i < items.len()
        invariant
            i <= items.len(),
            match index_in(items@.skip(i as int), f) {
                Some(k) => index_in(items@, f) == Some(k + i),
                None => index_in(items@, f) is None,
            },
        decreases items.len() - i,
    {
        assert(items@.skip(i as int)[0] == items@[i as int]);
        assert(items@.skip(i as int).drop_first() =~= items@.skip(i + 1));
        if items[i] == f {
            return Some(i);
        }
        i = i + 1;
    }
    assert(items@.skip(items.len() as int) =~= Seq::empty());
    None
}

proof fn lemma_items_are_there(v: AppView, i: int)
    requires
        0 <= i < v.form_items().len(),
        v.ranges.len() <= usize::MAX,
    ensures
        v.form_items()[i] matches FormFocus::Range(k) ==> k < v.ranges.len(),
{
    let n = v.ranges.len() as int;
    if 2 <= i < n + 2 {
        assert(v.form_items()[i] == FormFocus::Range((i - 2) as usize));
    }
}

fn move_focus(app: &mut App, down: bool)
    ensures
        final(app)@ == old(app)@.moved(down),
        old(app)@.wf() ==> final(app)@.wf(),
{
    proof {
        reveal(AppView::moved);
    }
    let items: Vec<FormFocus> = form_items(app);
    let cur: usize = match find_item(&items, app.form_focus) {
        Some(i) => i,
        None => 0,
    };
    let to: usize = if down {
        if cur < items.len() - 1 {
            cur + 1
        } else {
            items.len() - 1
        }
    } else {
        if cur > 0 {
            cur - 1
        } else {
            0
        }
    };
    proof {
        assert(app@.ranges.len() == app.ranges@.len());
        lemma_items_are_there(app@, to as int);
    }
    app.form_focus = items[to];
}

fn add_range(app: &mut App)
    requires
        old(app)@.wf(),
    ensures
        final(app)@ == old(app)@.with_new_range(),
        final(app)@.wf(),
{
    proof {
        reveal(AppView::with_new_range);
    }
    let n: usize = app.ranges.len();
    assert(app@.ranges.len() == n);
    let at: usize = match app.form_focus {
        FormFocus::Range(i) => i + 1,
        _ => n,
    };
    let row = RangeRow::new(String::new(), RangeKind::Expected);
    app.ranges.insert(at, row);
    app.form_focus = FormFocus::Range(at);
    app.editing = Some(String::new());
    assert(app@.ranges =~= old(app)@.ranges.insert(
        at as int,
        RangeView { text: Seq::empty(), kind: RangeKind::Expected },
    ));
    assert(app@ =~= old(app)@.with_new_range());
}

fn drop_range(app: &mut App)
    requires
        old(app)@.wf(),
    ensures
        final(app)@ == old(app)@.without_range(),
        final(app)@.wf(),
{
    proof {
        reveal(AppView::without_range);
    }
    assert(app@.ranges.len() == app.ranges@.len());
    if let FormFocus::Range(i) = app.form_focus {
        let _gone = app.ranges.remove(i);
        let n: usize = app.ranges.len();
        app.form_focus =
        if n == 0 {
            FormFocus::Scope
        } else if i < n {
            FormFocus::Range(i)
        } else {
            FormFocus::Range(n - 1)
        };
        assert(app@.ranges =~= old(app)@.ranges.remove(i as int));
    }
}

fn change_kind(app: &mut App, i: usize, forward: bool)
    ensures
        final(app)@ == old(app)@.with_kind(i, forward),
        old(app)@.wf() ==> final(app)@.wf(),
{
    if i < app.ranges.len() {
        let ghost before = app@.ranges;
        assert(before[i as int] == app.ranges@[i as int]@);
        let mut r = app.ranges.remove(i);
        r.kind =
        if forward {
            r.kind.next()
        } else {
            r.kind.prev()
        };
        app.ranges.insert(i, r);
        assert(app@.ranges =~= before.update(i as int, r@));
    }
}

/// Space: cycles a range's role, or toggles an advanced boolean.
pub fn toggle_focused(app: &mut App)
    ensures
        final(app)@ == old(app)@.toggled(),
        old(app)@.wf() ==> final(app)@.wf(),
{
    proof {
        reveal(AppView::toggled);
    }
    match app.form_focus {
        FormFocus::Range(i) => change_kind(app, i, true),
        FormFocus::AdvNoIpv6 => {
            app.adv.no_ipv6 = !app.adv.no_ipv6;
        },
        FormFocus::AdvancedToggle => {
            app.advanced_open = !app.advanced_open;
        },
        _ => {},
    }
}

fn field_text(app: &App) -> (r: String)
    ensures
        r@ == app@.field_text(),
{
    match app.form_focus {
        FormFocus::Range(i) => if i < app.ranges.len() {
            assert(app@.ranges[i as int] == app.ranges@[i as int]@);
            app.ranges[i].text.clone()
        } else {
            String::new()
        },
        FormFocus::AdvSpa => app.adv.spa.clone(),
        FormFocus::AdvRate => text::dec_string(app.adv.rate),
        FormFocus::AdvSettle => text::dec_string(app.adv.settle),
        FormFocus::AdvPasses => text::dec_string(app.adv.passes as u64),
        FormFocus::AdvLeases => app.adv.leases_file.clone(),
        FormFocus::AdvPassive => text::dec_string(app.adv.passive_secs),
        _ => String::new(),
    }
}

/// Enter: activates the focused field (edit text, cycle, open the drawer).
#[verifier::rlimit(40)]
pub fn activate_focused(app: &mut App)
    requires
        old(app)@.wf(),
    ensures
        final(app)@ == old(app)@.activated(),
        final(app)@.wf(),
{
    proof {
        reveal(AppView::activated);
    }
    match app.form_focus {
        FormFocus::Interface => cycle_focused(app, true),
        FormFocus::Scope => cycle_focused(app, true),
        FormFocus::AdvancedToggle => {
            app.advanced_open = !app.advanced_open;
        },
        FormFocus::AdvNoIpv6 => {
            app.adv.no_ipv6 = !app.adv.no_ipv6;
        },
        _ => {
            let s = field_text(app);
            app.editing = Some(s);
        },
    }
}

fn cycle_iface(app: &mut App, forward: bool)
    requires
        old(app)@.wf(),
        old(app)@.form_focus == FormFocus::Interface,
    ensures
        final(app)@ == old(app)@.with_next_iface(forward),
        final(app)@.wf(),
{
    let n: usize = if app.ifaces.len() == 0 {
        1
    } else {
        app.ifaces.len()
    };
    assert(app@.ifaces.len() == app.ifaces@.len());
    assert(app@.ranges.len() == app.ranges@.len());
    let idx: usize = if forward {
        if app.iface_idx < n - 1 {
            app.iface_idx + 1
        } else {
            0
        }
    } else {
        if app.iface_idx > 0 {
            app.iface_idx - 1
        } else {
            n - 1
        }
    };
    app.iface_idx = idx;
    // On an interface change, re-suggest the local subnet in row one.
    if idx < app.ifaces.len() && app.ranges.len() <= 1 {
        assert(app@.ifaces[idx as int] == app.ifaces@[idx as int]@);
        if let Some(net) = app.ifaces[idx].net {
            let mut rows: Vec<RangeRow> = Vec::new();
            rows.push(RangeRow::new(net.to_string(), RangeKind::Expected));
            app.ranges = rows;
            assert(app@.ranges =~= seq![
                RangeView { text: net.text(), kind: RangeKind::Expected },
            ]);
        }
    }
}

fn scope_after(s: Scope, forward: bool) -> (r: Scope)
    ensures
        r == next_scope(s, forward),
{
    match s {
        Scope::Auto => if forward {
            Scope::Rfc1918
        } else {
            Scope::Nothing
        },
        Scope::Rfc1918 => if forward {
            Scope::Private16
        } else {
            Scope::Auto
        },
        Scope::Private16 => if forward {
            Scope::Nothing
        } else {
            Scope::Rfc1918
        },
        Scope::Nothing => if forward {
            Scope::Auto
        } else {
            Scope::Private16
        },
    }
}

fn spa_after(s: &str, forward: bool) -> (r: &'static str)
    ensures
        r@ == next_spa(s@, forward),
{
    if text::same_text(s, "local") {
        if forward {
            "dest"
        } else {
            "probe"
        }
    } else if text::same_text(s, "dest") {
        if forward {
            "neighbor"
        } else {
            "local"
        }
    } else if text::same_text(s, "neighbor") {
        if forward {
            "probe"
        } else {
            "dest"
        }
    } else {
        if forward {
            "local"
        } else {
            "neighbor"
        }
    }
}

/// Left/right: cycles the values of enumerated fields.
pub fn cycle_focused(app: &mut App, forward: bool)
    requires
        old(app)@.wf(),
    ensures
        final(app)@ == old(app)@.cycled(forward),
        final(app)@.wf(),
{
    proof {
        reveal(AppView::cycled);
    }
    match app.form_focus {
        FormFocus::Interface => cycle_iface(app, forward),
        FormFocus::Scope => {
            app.scope = scope_after(app.scope, forward);
        },
        FormFocus::Range(i) => change_kind(app, i, forward),
        FormFocus::AdvSpa => {
            app.adv.spa = spa_after(app.adv.spa.as_str(), forward).to_owned();
        },
        _ => {},
    }
}

fn take_text(rows: &mut Vec<RangeRow>, focus: FormFocus, buf: &str)
    ensures
        app::range_views(final(rows)@) == with_text(app::range_views(old(rows)@), focus, buf@),
        final(rows)@.len() == old(rows)@.len(),
{
    if let FormFocus::Range(i) = focus {
        if i < rows.len() {
            let ghost before = app::range_views(rows@);
            assert(before[i as int] == rows@[i as int]@);
            let mut r = rows.remove(i);
            r.text = buf.to_owned();
            rows.insert(i, r);
            assert(app::range_views(rows@) =~= before.update(i as int, r@));
        }
    }
}

fn take_field(adv: &mut Advanced, focus: FormFocus, buf: &str)
    ensures
        final(adv)@ == old(adv)@.with_field(focus, buf@),
{
    match focus {
        FormFocus::AdvSpa => {
            adv.spa = buf.to_owned();
        },
        FormFocus::AdvRate => {
            adv.rate = read_number(buf, adv.rate);
        },
        FormFocus::AdvSettle => {
            adv.settle = read_number(buf, adv.settle);
        },
        FormFocus::AdvPasses => {
            adv.passes = read_small(buf, adv.passes);
        },
        FormFocus::AdvLeases => {
            adv.leases_file = buf.to_owned();
        },
        FormFocus::AdvPassive => {
            adv.passive_secs = read_number(buf, adv.passive_secs);
        },
        _ => {},
    }
}

/// Takes the edit buffer over into the focused field.
#[verifier::rlimit(40)]
pub fn commit_edit(app: &mut App)
    ensures
        final(app)@ == old(app)@.committed(),
        old(app)@.wf() ==> final(app)@.wf(),
{
    proof {
        reveal(AppView::committed);
    }
    let buf: String = match &app.editing {
        Some(b) => b.clone(),
        None => {
            return;
        },
    };
    app.editing = None;
    let focus = app.form_focus;
    take_text(&mut app.ranges, focus, buf.as_str());
    take_field(&mut app.adv, focus, buf.as_str());
}

// ---------------------------------------------------------------------
// Keys
// ---------------------------------------------------------------------

impl AppView {
    /// A key in the form. The form is locked while a scan runs.
    #[verifier::opaque]
    pub open spec fn form_key(self, k: Key) -> (AppView, ActionView) {
        if self.scan == ScanState::Running {
            (self, ActionView::Nothing)
        } else if k == Key::Down || k == Key::Char('j') {
            (self.moved(true), ActionView::Nothing)
        } else if k == Key::Up || k == Key::Char('k') {
            (self.moved(false), ActionView::Nothing)
        } else if k == Key::Char('a') {
            (self.with_new_range(), ActionView::Nothing)
        } else if k == Key::Char('d') {
            (self.without_range(), ActionView::Nothing)
        } else if k == Key::Char('s') {
            match self.form_focus {
                FormFocus::Range(i) => self.starting_single(i as int),
                _ => (
                    self.saying("put the cursor on a range to sweep just that one"@),
                    ActionView::Nothing,
                ),
            }
        } else if k == Key::Char(' ') {
            (self.toggled(), ActionView::Nothing)
        } else if k == Key::Enter {
            (self.activated(), ActionView::Nothing)
        } else if k == Key::Left || k == Key::Char('h') {
            (self.cycled(false), ActionView::Nothing)
        } else if k == Key::Right || k == Key::Char('l') {
            (self.cycled(true), ActionView::Nothing)
        } else {
            (self, ActionView::Nothing)
        }
    }

    /// With the cursor one visible finding further down, if there is one.
    pub open spec fn result_down(self) -> AppView {
        let n = self.visible().len();
        if n == 0 {
            self
        } else {
            AppView {
                result_idx: (if self.result_idx + 1 < n {
                    self.result_idx + 1
                } else {
                    n - 1
                }) as usize,
                ..self
            }
        }
    }

    /// With the cursor one visible finding further up, if there is one.
    pub open spec fn result_up(self) -> AppView {
        AppView {
            result_idx: (if self.result_idx > 0 {
                self.result_idx - 1
            } else {
                0
            }) as usize,
            ..self
        }
    }

    /// A key among the results.
    #[verifier::opaque]
    pub open spec fn results_key(self, k: Key) -> (AppView, ActionView) {
        if k == Key::Enter {
            self.starting()
        } else if k == Key::Down || k == Key::Char('j') {
            (self.result_down(), ActionView::Nothing)
        } else if k == Key::Up || k == Key::Char('k') {
            (self.result_up(), ActionView::Nothing)
        } else if k == Key::Char('/') {
            (
                AppView {
                    filtering: true,
                    filter: Some(crate::report::or_empty(self.filter)),
                    ..self
                },
                ActionView::Nothing,
            )
        } else if k == Key::Char('f') {
            (
                AppView { only_flagged: !self.only_flagged, result_idx: 0, ..self },
                ActionView::Nothing,
            )
        } else if k == Key::Char('w') {
            self.whitelisting()
        } else if k == Key::Char('y') {
            self.copying()
        } else if k == Key::Char('p') {
            self.probing()
        } else if k == Key::Char('e') {
            (self, ActionView::Export)
        } else {
            (self, ActionView::Nothing)
        }
    }

    /// A key while a field is being edited.
    #[verifier::opaque]
    pub open spec fn edit_key(self, buf: Seq<char>, k: Key) -> AppView {
        match k {
            Key::Enter => self.committed(),
            Key::Esc => AppView { editing: None, ..self },
            Key::Backspace => AppView {
                editing: Some(
                    if buf.len() == 0 {
                        buf
                    } else {
                        buf.drop_last()
                    },
                ),
                ..self
            },
            Key::Char(c) => AppView { editing: Some(buf.push(c)), ..self },
            _ => self,
        }
    }

    /// A key while the filter is being typed. Deleting its last character puts the
    /// filter away.
    #[verifier::opaque]
    pub open spec fn filter_key(self, k: Key) -> AppView {
        match k {
            Key::Enter => AppView { filtering: false, ..self },
            Key::Esc => AppView { filtering: false, ..self },
            Key::Backspace => match self.filter {
                Some(s) => if s.len() <= 1 {
                    AppView { filter: None, filtering: false, ..self }
                } else {
                    AppView { filter: Some(s.drop_last()), ..self }
                },
                None => self,
            },
            Key::Char(c) => AppView {
                filter: Some(crate::report::or_empty(self.filter).push(c)),
                ..self
            },
            _ => self,
        }
    }

    /// A key. Ctrl-C always quits; overlays swallow everything first; then come the
    /// field being edited and the filter being typed, the keys that work everywhere,
    /// and those of the pane.
    pub open spec fn key(self, k: Key, ctrl: bool) -> (AppView, ActionView) {
        if ctrl && k == Key::Char('c') {
            (AppView { should_quit: true, ..self }, ActionView::Nothing)
        } else if self.perm_error is Some {
            (AppView { should_quit: true, ..self }, ActionView::Nothing)
        } else if self.help_open {
            (AppView { help_open: false, ..self }, ActionView::Nothing)
        } else if let Some(buf) = self.editing {
            (self.edit_key(buf, k), ActionView::Nothing)
        } else if self.filtering {
            (self.filter_key(k), ActionView::Nothing)
        } else if k == Key::Char('q') {
            (AppView { should_quit: true, ..self }, ActionView::Nothing)
        } else if k == Key::Char('?') {
            (AppView { help_open: true, ..self }, ActionView::Nothing)
        } else if k == Key::Char('r') {
            self.starting()
        } else if k == Key::Tab {
            (
                AppView {
                    pane: match self.pane {
                        Pane::Form => Pane::Results,
                        Pane::Results => Pane::Form,
                    },
                    ..self
                },
                ActionView::Nothing,
            )
        } else if k == Key::Esc {
            if self.scan == ScanState::Running {
                self.cancelling()
            } else {
                (self, ActionView::Nothing)
            }
        } else {
            match self.pane {
                Pane::Form => self.form_key(k),
                Pane::Results => self.results_key(k),
            }
        }
    }
}

/// A key in the form.
#[verifier::rlimit(40)]
pub fn handle_form_key(app: &mut App, k: Key) -> (r: Action)
    requires
        old(app)@.wf(),
    ensures
        (final(app)@, r@) == old(app)@.form_key(k),
        final(app)@.wf(),
{
    proof {
        reveal(AppView::form_key);
    }
    // The form is locked while a scan runs.
    if app.is_running() {
        return Action::Nothing;
    }
    match k {
        Key::Down | Key::Char('j') => move_focus(app, true),
        Key::Up | Key::Char('k') => move_focus(app, false),
        // Add a range after the current one and start editing it.
        Key::Char('a') => add_range(app),
        Key::Char('d') => drop_range(app),
        // Sweep only the focused range, now: the hypothesis loop.
        Key::Char('s') => {
            if let FormFocus::Range(i) = app.form_focus {
                return app.scan_single(i);
            }
            app.toast("put the cursor on a range to sweep just that one".to_owned());
        },
        Key::Char(' ') => toggle_focused(app),
        Key::Enter => activate_focused(app),
        Key::Left | Key::Char('h') => cycle_focused(app, false),
        Key::Right | Key::Char('l') => cycle_focused(app, true),
        _ => {},
    }
    Action::Nothing
}

/// A key among the results.
#[verifier::rlimit(40)]
pub fn handle_results_key(app: &mut App, k: Key) -> (r: Action)
    requires
        old(app)@.wf(),
    ensures
        (final(app)@, r@) == old(app)@.results_key(k),
        final(app)@.wf(),
{
    proof {
        reveal(AppView::results_key);
    }
    match k {
        Key::Enter => {
            return app.start_scan();
        },
        Key::Down | Key::Char('j') => {
            let n: usize = app.visible_indices().len();
            if n > 0 {
                app.result_idx =
                if app.result_idx < n - 1 {
                    app.result_idx + 1
                } else {
                    n - 1
                };
            }
        },
        Key::Up | Key::Char('k') => {
            app.result_idx =
            if app.result_idx > 0 {
                app.result_idx - 1
            } else {
                0
            };
        },
        Key::Char('/') => {
            app.filtering = true;
            if app.filter.is_none() {
                app.filter = Some(String::new());
            }
            assert(app@.filter->0 =~= crate::report::or_empty(old(app)@.filter));
        },
        Key::Char('f') => {
            app.only_flagged = !app.only_flagged;
            app.result_idx = 0;
        },
        Key::Char('w') => {
            return app.whitelist_selected();
        },
        Key::Char('y') => {
            return app.copy_mac_selected();
        },
        Key::Char('p') => {
            return app.probe_selected();
        },
        Key::Char('e') => {
            return Action::Export;
        },
        _ => {},
    }
    Action::Nothing
}

fn handle_edit_key(app: &mut App, k: Key)
    requires
        old(app)@.editing is Some,
    ensures
        final(app)@ == old(app)@.edit_key(old(app)@.editing->0, k),
        old(app)@.wf() ==> final(app)@.wf(),
{
    proof {
        reveal(AppView::edit_key);
    }
    match k {
        Key::Enter => commit_edit(app),
        Key::Esc => {
            app.editing = None;
        },
        Key::Backspace => {
            let mut buf: String = match &app.editing {
                Some(b) => b.clone(),
                None => String::new(),
            };
            let _last = buf.pop();
            app.editing = Some(buf);
        },
        Key::Char(c) => {
            let mut buf: String = match &app.editing {
                Some(b) => b.clone(),
                None => String::new(),
            };
            buf.push(c);
            app.editing = Some(buf);
        },
        _ => {},
    }
}

fn handle_filter_key(app: &mut App, k: Key)
    ensures
        final(app)@ == old(app)@.filter_key(k),
        old(app)@.wf() ==> final(app)@.wf(),
{
    proof {
        reveal(AppView::filter_key);
    }
    match k {
        Key::Enter | Key::Esc => {
            app.filtering = false;
        },
        Key::Backspace => {
            let typed: Option<String> = text::clone_opt(&app.filter);
            if let Some(s) = typed {
                let mut t = s;
                let _last = t.pop();
                if t.as_str().is_empty() {
                    app.filter = None;
                    app.filtering = false;
                } else {
                    app.filter = Some(t);
                }
            }
        },
        Key::Char(c) => {
            let mut s: String = match &app.filter {
                Some(x) => x.clone(),
                None => String::new(),
            };
            assert(s@ =~= crate::report::or_empty(app@.filter));
            s.push(c);
            app.filter = Some(s);
        },
        _ => {},
    }
}

/// A key, with or without Ctrl: what it changes and what it asks for.
#[verifier::rlimit(40)]
pub fn handle_key(app: &mut App, k: Key, ctrl: bool) -> (r: Action)
    requires
        old(app)@.wf(),
    ensures
        (final(app)@, r@) == old(app)@.key(k, ctrl),
        final(app)@.wf(),
{
    // Ctrl-C always quits.
    if ctrl && k == Key::Char('c') {
        app.should_quit = true;
        return Action::Nothing;
    }
    // Overlays swallow everything first.
    if app.perm_error.is_some() {
        app.should_quit = true;
        return Action::Nothing;
    }
    if app.help_open {
        app.help_open = false;
        return Action::Nothing;
    }
    // Text field editing mode.
    if app.editing.is_some() {
        handle_edit_key(app, k);
        return Action::Nothing;
    }
    // Filter typing mode.
    if app.filtering {
        handle_filter_key(app, k);
        return Action::Nothing;
    }
    match k {
        Key::Char('q') => {
            app.should_quit = true;
        },
        Key::Char('?') => {
            app.help_open = true;
        },
        Key::Char('r') => {
            return app.start_scan();
        },
        Key::Tab => {
            app.pane =
            match app.pane {
                Pane::Form => Pane::Results,
                Pane::Results => Pane::Form,
            };
        },
        Key::Esc => {
            if app.is_running() {
                return app.cancel_scan();
            }
        },
        _ => {
            return match app.pane {
                Pane::Form => handle_form_key(app, k),
                Pane::Results => handle_results_key(app, k),
            };
        },
    }
    Action::Nothing
}

// ---------------------------------------------------------------------
// What holds of every key
// ---------------------------------------------------------------------

/// Nothing runs by itself: a sweep is only ever launched by `r`, by Enter among the
/// results, or by `s` in the form, and never while one is running.
pub proof fn only_a_run_key_launches(v: AppView, k: Key, ctrl: bool)
    requires
        v.key(k, ctrl).1 is Launch,
    ensures
        k == Key::Char('r') || (k == Key::Enter && v.pane == Pane::Results) || (k == Key::Char('s')
            && v.pane == Pane::Form),
        v.scan != ScanState::Running,
{
    reveal(AppView::form_key);
    reveal(AppView::results_key);
    reveal(AppView::starting);
    reveal(AppView::starting_single);
    reveal(AppView::whitelisting);
    reveal(AppView::copying);
    reveal(AppView::probing);
    reveal(AppView::cancelling);
}

/// While a sweep runs no key in the form changes anything.
pub proof fn the_form_is_locked_while_running(v: AppView, k: Key)
    requires
        v.scan == ScanState::Running,
    ensures
        v.form_key(k) == (v, ActionView::Nothing),
{
    reveal(AppView::form_key);
}

/// Cancelling keeps what was already found, and everything else but the message.
pub proof fn cancelling_keeps_the_results(v: AppView)
    ensures
        v.cancelling().0 == (AppView { toast: v.cancelling().0.toast, ..v }),
        v.scan != ScanState::Absent ==> v.cancelling().1 is Stop,
{
    reveal(AppView::cancelling);
}

/// Ctrl-C always quits, whatever is on the screen.
pub proof fn ctrl_c_always_quits(v: AppView)
    ensures
        v.key(Key::Char('c'), true) == (
            AppView { should_quit: true, ..v },
            ActionView::Nothing,
        ),
{
}

/// Three times the next role is the same role, and left undoes right.
pub proof fn roles_go_round(v: AppView, i: usize)
    requires
        i < v.ranges.len(),
    ensures
        v.with_kind(i, true).with_kind(i, true).with_kind(i, true) == v,
        v.with_kind(i, true).with_kind(i, false) == v,
{
    assert(v.with_kind(i, true).with_kind(i, true).with_kind(i, true) =~= v);
    assert(v.with_kind(i, true).with_kind(i, false) =~= v);
}

/// Left undoes right on the scope.
pub proof fn scopes_go_round(s: Scope)
    ensures
        next_scope(next_scope(s, true), false) == s,
        next_scope(next_scope(next_scope(next_scope(s, true), true), true), true) == s,
{
}

/// A range that is added and removed again leaves the others as they were.
pub proof fn removing_undoes_adding(v: AppView)
    requires
        v.wf(),
        v.ranges.len() < usize::MAX,
    ensures
        v.with_new_range().without_range().ranges == v.ranges,
{
    reveal(AppView::with_new_range);
    reveal(AppView::without_range);
    assert(v.with_new_range().without_range().ranges =~= v.ranges);
}

/// The range the cursor is on when `s` is pressed is the only one swept: no scope, no
/// listening, nothing else.
pub proof fn one_range_and_nothing_else(v: AppView, idx: int)
    requires
        v.single_config(idx) is Ok,
    ensures
        (v.single_config(idx)->Ok_0).ranges == seq![v.ranges[idx].net()->0],
        (v.single_config(idx)->Ok_0).scope == Scope::Nothing,
        (v.single_config(idx)->Ok_0).passive_secs == 0,
{
}

proof fn lemma_index_in(items: Seq<FormFocus>, i: int)
    requires
        0 <= i < items.len(),
        forall|j: int| 0 <= j < i ==> #[trigger] items[j] != items[i],
    ensures
        index_in(items, items[i]) == Some(i),
    decreases items.len(),
{
    if i > 0 {
        assert(items[0] != items[i]);
        let rest = items.drop_first();
        assert forall|j: int| 0 <= j < i - 1 implies #[trigger] rest[j] != rest[i - 1] by {
            assert(rest[j] == items[j + 1]);
        }
        assert(rest[i - 1] == items[i]);
        lemma_index_in(rest, i - 1);
    }
}

proof fn lemma_cursor(v: AppView, i: int)
    requires
        v.ranges.len() <= usize::MAX,
        0 <= i < v.form_items().len(),
        v.form_focus == v.form_items()[i],
    ensures
        v.cursor() == i,
{
    let items = v.form_items();
    let n = v.ranges.len() as int;
    assert forall|j: int| 0 <= j < i implies #[trigger] items[j] != items[i] by {
        if 2 <= j < 2 + n {
            assert(items[j] == FormFocus::Range((j - 2) as usize));
        }
        if 2 <= i < 2 + n {
            assert(items[i] == FormFocus::Range((i - 2) as usize));
        }
    }
    lemma_index_in(items, i);
}

/// Down and up go over the interface, the scope, the ranges one after the other, the
/// drawer and, where that is open, its seven fields, and stop at either end. Nothing but
/// the cursor moves.
pub proof fn the_cursor_goes_over_every_field(v: AppView)
    requires
        v.wf(),
        v.ranges.len() <= usize::MAX,
    ensures
        ({
            let n = v.ranges.len() as int;
            let down = v.moved(true).form_focus;
            let up = v.moved(false).form_focus;
            let first = if n > 0 {
                FormFocus::Range(0)
            } else {
                FormFocus::AdvancedToggle
            };
            let last = if n > 0 {
                FormFocus::Range((n - 1) as usize)
            } else {
                FormFocus::Scope
            };
            &&& v.form_focus == FormFocus::Interface ==> down == FormFocus::Scope && up
                == FormFocus::Interface
            &&& v.form_focus == FormFocus::Scope ==> down == first && up == FormFocus::Interface
            &&& v.form_focus matches FormFocus::Range(i) ==> down == (if i + 1 < n {
                FormFocus::Range((i + 1) as usize)
            } else {
                FormFocus::AdvancedToggle
            }) && up == (if i > 0 {
                FormFocus::Range((i - 1) as usize)
            } else {
                FormFocus::Scope
            })
            &&& v.form_focus == FormFocus::AdvancedToggle ==> up == last && down == (if v.advanced_open {
                FormFocus::AdvSpa
            } else {
                FormFocus::AdvancedToggle
            })
            &&& v.moved(true) == (AppView { form_focus: down, ..v })
            &&& v.moved(false) == (AppView { form_focus: up, ..v })
        }),
{
    reveal(AppView::moved);
    let items = v.form_items();
    let n = v.ranges.len() as int;
    assert(items[0] == FormFocus::Interface && items[1] == FormFocus::Scope);
    assert(items[n + 2] == FormFocus::AdvancedToggle);
    assert(forall|i: int| 0 <= i < n ==> #[trigger] items[i + 2] == FormFocus::Range(i as usize));
    match v.form_focus {
        FormFocus::Interface => lemma_cursor(v, 0),
        FormFocus::Scope => {
            lemma_cursor(v, 1);
            if n > 0 {
                assert(items[0int + 2] == FormFocus::Range(0));
            }
        },
        FormFocus::Range(i) => {
            assert(items[i as int + 2] == FormFocus::Range(i));
            lemma_cursor(v, i as int + 2);
            if i + 1 < n {
                assert(items[(i + 1) + 2] == FormFocus::Range((i + 1) as usize));
            }
            if i > 0 {
                assert(items[(i - 1) + 2] == FormFocus::Range((i - 1) as usize));
            }
        },
        FormFocus::AdvancedToggle => {
            lemma_cursor(v, n + 2);
            if n > 0 {
                assert(items[(n - 1) + 2] == FormFocus::Range((n - 1) as usize));
            }
        },
        _ => {},
    }
}

/// In the open drawer down and up go over its seven fields in order.
pub proof fn the_cursor_goes_over_the_drawer(v: AppView)
    requires
        v.wf(),
        v.ranges.len() <= usize::MAX,
        v.advanced_open,
    ensures
        ({
            let down = v.moved(true).form_focus;
            let up = v.moved(false).form_focus;
            &&& v.form_focus == FormFocus::AdvSpa ==> down == FormFocus::AdvRate && up
                == FormFocus::AdvancedToggle
            &&& v.form_focus == FormFocus::AdvRate ==> down == FormFocus::AdvSettle && up
                == FormFocus::AdvSpa
            &&& v.form_focus == FormFocus::AdvSettle ==> down == FormFocus::AdvPasses && up
                == FormFocus::AdvRate
            &&& v.form_focus == FormFocus::AdvPasses ==> down == FormFocus::AdvNoIpv6 && up
                == FormFocus::AdvSettle
            &&& v.form_focus == FormFocus::AdvNoIpv6 ==> down == FormFocus::AdvLeases && up
                == FormFocus::AdvPasses
            &&& v.form_focus == FormFocus::AdvLeases ==> down == FormFocus::AdvPassive && up
                == FormFocus::AdvNoIpv6
            &&& v.form_focus == FormFocus::AdvPassive ==> down == FormFocus::AdvPassive && up
                == FormFocus::AdvLeases
        }),
{
    reveal(AppView::moved);
    let items = v.form_items();
    let n = v.ranges.len() as int;
    assert(items.len() == n + 10);
    assert(items[n + 2] == FormFocus::AdvancedToggle);
    assert(items[n + 3] == FormFocus::AdvSpa);
    assert(items[n + 4] == FormFocus::AdvRate);
    assert(items[n + 5] == FormFocus::AdvSettle);
    assert(items[n + 6] == FormFocus::AdvPasses);
    assert(items[n + 7] == FormFocus::AdvNoIpv6);
    assert(items[n + 8] == FormFocus::AdvLeases);
    assert(items[n + 9] == FormFocus::AdvPassive);
    match v.form_focus {
        FormFocus::AdvSpa => lemma_cursor(v, n + 3),
        FormFocus::AdvRate => lemma_cursor(v, n + 4),
        FormFocus::AdvSettle => lemma_cursor(v, n + 5),
        FormFocus::AdvPasses => lemma_cursor(v, n + 6),
        FormFocus::AdvNoIpv6 => lemma_cursor(v, n + 7),
        FormFocus::AdvLeases => lemma_cursor(v, n + 8),
        FormFocus::AdvPassive => lemma_cursor(v, n + 9),
        _ => {},
    }
}

/// A new range is empty, counts as a network, stands behind the one the cursor was on or
/// at the end, and is being edited; the others stay as they were, in their order.
pub proof fn a_new_range_is_being_edited(v: AppView)
    requires
        v.wf(),
        v.ranges.len() < usize::MAX,
    ensures
        ({
            let w = v.with_new_range();
            w.form_focus matches FormFocus::Range(at) && {
                &&& w.ranges.len() == v.ranges.len() + 1
                &&& w.ranges[at as int].text.len() == 0
                &&& w.ranges[at as int].kind == RangeKind::Expected
                &&& w.editing matches Some(t) && t.len() == 0
                &&& v.form_focus matches FormFocus::Range(i) ==> at == i + 1
                &&& !(v.form_focus is Range) ==> at == v.ranges.len()
                &&& forall|k: int| 0 <= k < at ==> #[trigger] w.ranges[k] == v.ranges[k]
                &&& forall|k: int| at <= k < v.ranges.len() ==> w.ranges[k + 1] == #[trigger] v.ranges[k]
                &&& w.scope == v.scope && w.adv == v.adv && w.findings == v.findings
            }
        }),
{
    reveal(AppView::with_new_range);
}

/// Removing takes away the range under the cursor and no other, and leaves the cursor on
/// a range where one is left.
pub proof fn removing_takes_one_range(v: AppView)
    requires
        v.wf(),
    ensures
        ({
            let w = v.without_range();
            &&& w.wf()
            &&& v.form_focus matches FormFocus::Range(i) ==> {
                &&& w.ranges.len() == v.ranges.len() - 1
                &&& forall|k: int| 0 <= k < i ==> #[trigger] w.ranges[k] == v.ranges[k]
                &&& forall|k: int| i < k < v.ranges.len() ==> w.ranges[k - 1] == #[trigger] v.ranges[k]
                &&& w.ranges.len() > 0 ==> w.form_focus is Range
                &&& w.ranges.len() == 0 ==> w.form_focus == FormFocus::Scope
            }
            &&& !(v.form_focus is Range) ==> w == v
        }),
{
    reveal(AppView::without_range);
}

/// Space gives a range its next role, turns IPv6 on or off, or opens or closes the
/// drawer, whichever the cursor is on; twice is as before but for a range. Anywhere else
/// it does nothing.
pub proof fn space_turns_over(v: AppView)
    requires
        v.wf(),
    ensures
        ({
            let w = v.toggled();
            &&& v.form_focus matches FormFocus::Range(i) ==> {
                &&& w.ranges.len() == v.ranges.len()
                &&& w.ranges[i as int].text == v.ranges[i as int].text
                &&& v.ranges[i as int].kind == RangeKind::Expected ==> w.ranges[i as int].kind
                    == RangeKind::Target
                &&& v.ranges[i as int].kind == RangeKind::Target ==> w.ranges[i as int].kind
                    == RangeKind::Ignored
                &&& v.ranges[i as int].kind == RangeKind::Ignored ==> w.ranges[i as int].kind
                    == RangeKind::Expected
                &&& forall|k: int| 0 <= k < v.ranges.len() && k != i ==> #[trigger] w.ranges[k] == v.ranges[k]
            }
            &&& v.form_focus == FormFocus::AdvNoIpv6 ==> w.adv.no_ipv6 == !v.adv.no_ipv6 && w.toggled() == v
            &&& v.form_focus == FormFocus::AdvancedToggle ==> w.advanced_open == !v.advanced_open
                && w.toggled() == v
            &&& !(v.form_focus is Range) && v.form_focus != FormFocus::AdvNoIpv6 && v.form_focus
                != FormFocus::AdvancedToggle ==> w == v
        }),
{
    reveal(AppView::toggled);
    if v.form_focus == FormFocus::AdvNoIpv6 || v.form_focus == FormFocus::AdvancedToggle {
        assert(v.toggled().toggled() =~= v);
    }
}

/// Right goes to the next interface and left goes back, round and round; the subnet of
/// the new one is suggested where there is at most one range, and otherwise the ranges
/// stay.
pub proof fn interfaces_go_round(v: AppView)
    requires
        v.wf(),
        v.ifaces.len() <= usize::MAX,
    ensures
        v.with_next_iface(true).with_next_iface(false).iface_idx == v.iface_idx,
        v.with_next_iface(true).wf() || v.form_focus is Range,
        v.ifaces.len() > 0 ==> v.with_next_iface(true).iface_idx == (v.iface_idx + 1) % v.ifaces.len() as int,
        v.ranges.len() > 1 ==> v.with_next_iface(true).ranges == v.ranges,
        ({
            let w = v.with_next_iface(true);
            v.ranges.len() <= 1 && w.iface_idx < v.ifaces.len() ==> match v.ifaces[w.iface_idx as int].net {
                Some(n) => w.ranges.len() == 1 && w.ranges[0].text == n.text() && w.ranges[0].kind
                    == RangeKind::Expected,
                None => w.ranges == v.ranges,
            }
        }),
{
    if v.ifaces.len() > 0 {
        let n = v.ifaces.len() as int;
        let i = v.iface_idx as int;
        if i + 1 < n {
            assert((i + 1) % n == i + 1) by (nonlinear_arith)
                requires
                    0 <= i + 1 < n,
            ;
        } else {
            assert(n % n == 0) by (nonlinear_arith)
                requires
                    n > 0,
            ;
        }
    }
}

/// Left and right change the field under the cursor and no other.
pub proof fn cycling_changes_one_field(v: AppView, forward: bool)
    ensures
        ({
            let w = v.cycled(forward);
            &&& v.form_focus == FormFocus::Scope ==> w == (AppView { scope: w.scope, ..v }) && w.scope
                != v.scope
            &&& v.form_focus is Range ==> w == (AppView { ranges: w.ranges, ..v })
            &&& v.form_focus == FormFocus::AdvSpa ==> w.adv == (AdvancedView { spa: w.adv.spa, ..v.adv })
                && w.ranges == v.ranges
            &&& v.form_focus == FormFocus::Interface ==> w.adv == v.adv && w.scope == v.scope
                && w.form_focus == v.form_focus
            &&& w.findings == v.findings && w.scan == v.scan && w.editing == v.editing
        }),
{
    reveal(AppView::cycled);
}

/// Left undoes right on the four senders, each of which can be read, and four times the
/// next one is the same.
pub proof fn senders_go_round(s: Seq<char>)
    requires
        s == "probe"@ || s == "local"@ || s == "dest"@ || s == "neighbor"@,
    ensures
        next_spa(next_spa(s, true), false) == s,
        next_spa(next_spa(s, true), true) != s,
        next_spa(next_spa(next_spa(next_spa(s, true), true), true), true) == s,
        next_spa("probe"@, true) == "local"@,
        next_spa("local"@, true) == "dest"@,
        next_spa("dest"@, true) == "neighbor"@,
        next_spa("neighbor"@, true) == "probe"@,
{
    reveal_strlit("probe");
    reveal_strlit("local");
    reveal_strlit("dest");
    reveal_strlit("neighbor");
    assert("probe"@[0] == 'p' && "local"@[0] == 'l' && "dest"@[0] == 'd' && "neighbor"@[0] == 'n');
}

/// A number that was written is read, whatever white space stands around it; where no
/// number can be read, or it is too large, the old one stays.
pub proof fn numbers_are_read(a: Seq<char>, n: nat, b: Seq<char>, x: u64, y: u32)
    requires
        text::blank(a),
        text::blank(b),
    ensures
        n <= u64::MAX ==> number_or(a + text::dec(n) + b, x) == n,
        n > u64::MAX ==> number_or(a + text::dec(n) + b, x) == x,
        n <= u32::MAX ==> small_or(a + text::dec(n) + b, y) == n,
        n > u32::MAX ==> small_or(a + text::dec(n) + b, y) == y,
        number_or(a, x) == x,
        small_or(a, y) == y,
{
    let d = text::dec(n);
    crate::addr::lemma_dec_reads_back(n);
    crate::addr::a_number_reads_back(n, u64::MAX as nat);
    crate::addr::a_number_reads_back(n, u32::MAX as nat);
    assert(text::is_digit(d[0]) && text::is_digit(d[d.len() - 1]));
    text::trimming_cuts_only_white_space(a, d, b);
    assert(a =~= a + Seq::empty() + Seq::empty());
    text::trimming_cuts_only_white_space(a, Seq::empty(), Seq::empty());
}

/// What was typed goes into the field under the cursor and into no other: a text as it
/// is, a number where it can be read.
pub proof fn what_is_typed_goes_into_the_field(v: AppView, buf: Seq<char>)
    requires
        v.wf(),
        v.editing == Some(buf),
    ensures
        ({
            let w = v.committed();
            &&& w.editing is None
            &&& v.form_focus matches FormFocus::Range(i) ==> w.ranges[i as int].text == buf
                && w.ranges[i as int].kind == v.ranges[i as int].kind && w.adv == v.adv && (forall|k: int|
                0 <= k < v.ranges.len() && k != i ==> #[trigger] w.ranges[k] == v.ranges[k])
            &&& w.ranges.len() == v.ranges.len()
            &&& !(v.form_focus is Range) ==> w.ranges == v.ranges
            &&& v.form_focus == FormFocus::AdvSpa ==> w.adv == (AdvancedView { spa: buf, ..v.adv })
            &&& v.form_focus == FormFocus::AdvLeases ==> w.adv == (AdvancedView { leases_file: buf, ..v.adv })
            &&& v.form_focus == FormFocus::AdvRate ==> w.adv == (AdvancedView {
                rate: number_or(buf, v.adv.rate),
                ..v.adv
            })
            &&& v.form_focus == FormFocus::AdvSettle ==> w.adv == (AdvancedView {
                settle: number_or(buf, v.adv.settle),
                ..v.adv
            })
            &&& v.form_focus == FormFocus::AdvPassive ==> w.adv == (AdvancedView {
                passive_secs: number_or(buf, v.adv.passive_secs),
                ..v.adv
            })
            &&& v.form_focus == FormFocus::AdvPasses ==> w.adv == (AdvancedView {
                passes: small_or(buf, v.adv.passes),
                ..v.adv
            })
            &&& w.scope == v.scope && w.form_focus == v.form_focus && w.findings == v.findings && w.scan
                == v.scan
        }),
{
    reveal(AppView::committed);
}

/// Opening a field of text or of a number and closing it again changes nothing: what is
/// offered to be edited is what the field holds.
pub proof fn an_untouched_field_stays(v: AppView)
    requires
        v.wf(),
        v.editing is None,
        v.form_focus is Range || v.form_focus == FormFocus::AdvSpa || v.form_focus == FormFocus::AdvRate
            || v.form_focus == FormFocus::AdvSettle || v.form_focus == FormFocus::AdvPasses || v.form_focus
            == FormFocus::AdvLeases || v.form_focus == FormFocus::AdvPassive,
    ensures
        v.activated().editing is Some,
        v.activated().committed() == v,
{
    reveal(AppView::activated);
    reveal(AppView::committed);
    let e = Seq::<char>::empty();
    let (r, s) = (text::dec(v.adv.rate as nat), text::dec(v.adv.settle as nat));
    let (p, q) = (text::dec(v.adv.passes as nat), text::dec(v.adv.passive_secs as nat));
    numbers_are_read(e, v.adv.rate as nat, e, v.adv.rate, v.adv.passes);
    numbers_are_read(e, v.adv.settle as nat, e, v.adv.settle, v.adv.passes);
    numbers_are_read(e, v.adv.passes as nat, e, v.adv.rate, v.adv.passes);
    numbers_are_read(e, v.adv.passive_secs as nat, e, v.adv.passive_secs, v.adv.passes);
    assert(e + r + e =~= r && e + s + e =~= s && e + p + e =~= p && e + q + e =~= q);
    assert(v.activated().committed() =~= v);
}

/// While a field is edited, a character is added at the end and backspace takes it away
/// again; Escape gives the text up and leaves the field as it was.
pub proof fn typing_can_be_undone(v: AppView, buf: Seq<char>, c: char)
    ensures
        v.edit_key(buf, Key::Char(c)).editing == Some(buf.push(c)),
        v.edit_key(buf.push(c), Key::Backspace).editing == Some(buf),
        v.edit_key(Seq::empty(), Key::Backspace).editing == Some(Seq::<char>::empty()),
        v.edit_key(buf, Key::Esc) == (AppView { editing: None, ..v }),
        v.edit_key(buf, Key::Enter) == v.committed(),
        v.edit_key(buf, Key::Char(c)).ranges == v.ranges,
        v.edit_key(buf, Key::Char(c)).adv == v.adv,
        v.edit_key(buf, Key::Up) == v,
        v.edit_key(buf, Key::Down) == v,
        v.edit_key(buf, Key::Tab) == v,
{
    reveal(AppView::edit_key);
    assert(buf.push(c).drop_last() =~= buf);
}

/// While the filter is typed, a character is added at the end and backspace takes it
/// away again, putting the filter away with its last one; Enter and Escape keep it.
pub proof fn filtering_can_be_undone(v: AppView, c: char)
    ensures
        v.filter matches Some(s) ==> v.filter_key(Key::Char(c)).filter == Some(s.push(c)),
        v.filter is None ==> v.filter_key(Key::Char(c)).filter == Some(seq![c]),
        v.filter_key(Key::Char(c)).filter_key(Key::Backspace).filter == (match v.filter {
            Some(s) => if s.len() == 0 {
                None
            } else {
                Some(s)
            },
            None => None,
        }),
        v.filter_key(Key::Enter) == (AppView { filtering: false, ..v }),
        v.filter_key(Key::Esc) == (AppView { filtering: false, ..v }),
        v.filter_key(Key::Char(c)).findings == v.findings,
{
    reveal(AppView::filter_key);
    if let Some(s) = v.filter {
        assert(s.push(c).drop_last() =~= s);
    } else {
        assert(Seq::<char>::empty().push(c) =~= seq![c]);
    }
}

/// Down and up move the cursor over what is visible and never off it; up undoes down
/// unless the cursor was on the last line.
pub proof fn the_list_has_two_ends(v: AppView)
    requires
        v.findings.len() <= usize::MAX,
        v.result_idx < v.visible().len(),
    ensures
        v.result_down().result_idx == (if v.result_idx + 1 < v.visible().len() {
            v.result_idx + 1
        } else {
            v.result_idx as int
        }),
        v.result_up().result_idx == (if v.result_idx > 0 {
            v.result_idx - 1
        } else {
            0
        }),
        v.result_idx + 1 < v.visible().len() ==> v.result_down().result_up() == v,
        v.result_down() == (AppView { result_idx: v.result_down().result_idx, ..v }),
{
    app::visible_is_in_order(v, v.findings.len());
    if v.result_idx + 1 < v.visible().len() {
        assert(v.result_down().result_up() =~= v);
    }
}

/// What each key does among the results, where nothing lies on top and nothing is being
/// typed: run, accept, copy, probe, export, filter, hide what is not flagged.
pub proof fn keys_among_the_results(v: AppView)
    requires
        v.pane == Pane::Results,
        v.perm_error is None,
        !v.help_open,
        v.editing is None,
        !v.filtering,
    ensures
        v.key(Key::Enter, false) == v.starting(),
        v.key(Key::Char('r'), false) == v.starting(),
        v.key(Key::Char('w'), false) == v.whitelisting(),
        v.key(Key::Char('y'), false) == v.copying(),
        v.key(Key::Char('p'), false) == v.probing(),
        v.key(Key::Char('e'), false) == (v, ActionView::Export),
        v.key(Key::Char('j'), false) == v.key(Key::Down, false),
        v.key(Key::Char('k'), false) == v.key(Key::Up, false),
        v.key(Key::Down, false) == (v.result_down(), ActionView::Nothing),
        v.key(Key::Up, false) == (v.result_up(), ActionView::Nothing),
        v.key(Key::Char('f'), false).0.only_flagged == !v.only_flagged,
        v.key(Key::Char('f'), false).0.result_idx == 0,
        v.key(Key::Char('/'), false).0.filtering,
        v.filter is Some ==> v.key(Key::Char('/'), false).0.filter == v.filter,
        v.key(Key::Tab, false).0 == (AppView { pane: Pane::Form, ..v }),
        v.key(Key::Char('q'), false).0.should_quit,
        v.key(Key::Char('?'), false).0.help_open,
        v.key(Key::Other, false) == (v, ActionView::Nothing),
        v.scan == ScanState::Running ==> v.key(Key::Esc, false) == v.cancelling(),
        v.scan != ScanState::Running ==> v.key(Key::Esc, false) == (v, ActionView::Nothing),
{
    reveal(AppView::results_key);
}

/// What each key does in the form, where nothing lies on top, nothing is being typed and
/// no sweep is running: move, add, remove, turn over, open, cycle, sweep one range.
pub proof fn keys_in_the_form(v: AppView)
    requires
        v.pane == Pane::Form,
        v.perm_error is None,
        !v.help_open,
        v.editing is None,
        !v.filtering,
        v.scan != ScanState::Running,
    ensures
        v.key(Key::Down, false) == (v.moved(true), ActionView::Nothing),
        v.key(Key::Up, false) == (v.moved(false), ActionView::Nothing),
        v.key(Key::Char('j'), false) == v.key(Key::Down, false),
        v.key(Key::Char('k'), false) == v.key(Key::Up, false),
        v.key(Key::Char('a'), false) == (v.with_new_range(), ActionView::Nothing),
        v.key(Key::Char('d'), false) == (v.without_range(), ActionView::Nothing),
        v.key(Key::Char(' '), false) == (v.toggled(), ActionView::Nothing),
        v.key(Key::Enter, false) == (v.activated(), ActionView::Nothing),
        v.key(Key::Right, false) == (v.cycled(true), ActionView::Nothing),
        v.key(Key::Left, false) == (v.cycled(false), ActionView::Nothing),
        v.key(Key::Char('l'), false) == v.key(Key::Right, false),
        v.key(Key::Char('h'), false) == v.key(Key::Left, false),
        v.form_focus matches FormFocus::Range(i) ==> v.key(Key::Char('s'), false) == v.starting_single(
            i as int,
        ),
        !(v.form_focus is Range) ==> v.key(Key::Char('s'), false).1 is Nothing,
        v.key(Key::Char('r'), false) == v.starting(),
        v.key(Key::Tab, false).0 == (AppView { pane: Pane::Results, ..v }),
{
    reveal(AppView::form_key);
}

/// What lies on top takes every key: an error that cannot be mended ends the program,
/// and the help goes away; a field or a filter that is being typed takes every key but
/// those.
pub proof fn what_lies_on_top_takes_the_key(v: AppView, k: Key)
    ensures
        v.perm_error is Some ==> v.key(k, false) == (
            AppView { should_quit: true, ..v },
            ActionView::Nothing,
        ),
        v.perm_error is None && v.help_open ==> v.key(k, false) == (
            AppView { help_open: false, ..v },
            ActionView::Nothing,
        ),
        v.perm_error is None && !v.help_open ==> (v.editing matches Some(buf) ==> v.key(k, false) == (
            v.edit_key(buf, k),
            ActionView::Nothing,
        )),
        v.perm_error is None && !v.help_open && v.editing is None && v.filtering ==> v.key(k, false) == (
            v.filter_key(k),
            ActionView::Nothing,
        ),
{
}

} // verus!
