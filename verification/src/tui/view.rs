//! What the screen shows: lines of text and how they stand out.
use crate::cli::Scope;
use crate::correlate::{Finding, FindingView, Severity};
use crate::report;
use crate::scan::Phase;
use crate::text;
use crate::tui::app::{App, AppView, FormFocus, Pane, RangeKind, ScanState};
use crate::tui::theme::{self, Tone};
use vstd::prelude::*;

verus! {

broadcast use vstd::seq::group_seq_axioms;

// ---------------------------------------------------------------------
// Spans and lines
// ---------------------------------------------------------------------

/// A piece of text that stands out in one way.
#[derive(Debug)]
pub struct Span {
    pub text: String,
    pub tone: Tone,
}

/// A [`Span`] with its text as characters.
#[verifier::ext_equal]
pub struct SpanView {
    pub text: Seq<char>,
    pub tone: Tone,
}

impl View for Span {
    type V = SpanView;

    open spec fn view(&self) -> SpanView {
        SpanView { text: self.text@, tone: self.tone }
    }
}

/// A piece of text.
pub open spec fn piece(text: Seq<char>, tone: Tone) -> SpanView {
    SpanView { text, tone }
}

/// What the pieces of a line say.
pub open spec fn line_view(v: Seq<Span>) -> Seq<SpanView> {
    Seq::new(v.len(), |i: int| v[i]@)
}

/// What lines say.
pub open spec fn line_views(v: Seq<Vec<Span>>) -> Seq<Seq<SpanView>> {
    Seq::new(v.len(), |i: int| line_view(v[i]@))
}

fn push_span(out: &mut Vec<Span>, s: &str, tone: Tone)
    ensures
        line_view(final(out)@) == line_view(old(out)@).push(piece(s@, tone)),
{
    out.push(Span { text: s.to_owned(), tone });
    assert(line_view(out@) =~= line_view(old(out)@).push(piece(s@, tone)));
}

fn push_line(out: &mut Vec<Vec<Span>>, line: Vec<Span>)
    ensures
        line_views(final(out)@) == line_views(old(out)@).push(line_view(line@)),
{
    out.push(line);
    assert(line_views(out@) =~= line_views(old(out)@).push(line_view(line@)));
}

fn blank() -> (r: Vec<Span>)
    ensures
        line_view(r@) == Seq::<SpanView>::empty(),
{
    let r: Vec<Span> = Vec::new();
    assert(line_view(r@) =~= Seq::empty());
    r
}

fn one(s: &str, tone: Tone) -> (r: Vec<Span>)
    ensures
        line_view(r@) == seq![piece(s@, tone)],
{
    let mut r = blank();
    push_span(&mut r, s, tone);
    assert(line_view(r@) =~= seq![piece(s@, tone)]);
    r
}

fn two(a: &str, ta: Tone, b: &str, tb: Tone) -> (r: Vec<Span>)
    ensures
        line_view(r@) == seq![piece(a@, ta), piece(b@, tb)],
{
    let mut r = one(a, ta);
    push_span(&mut r, b, tb);
    assert(line_view(r@) =~= seq![piece(a@, ta), piece(b@, tb)]);
    r
}

/// Cuts a text to at most `max` characters, marking the cut with an ellipsis.
pub fn trunc(s: &str, max: usize) -> (r: String)
    ensures
        r@ == text::shortened(s@, max as nat),
{
    text::shorten(s, max)
}

/// The name of a scope in the form.
pub open spec fn scope_name(s: Scope) -> Seq<char> {
    match s {
        Scope::Nothing => "ranges only"@,
        Scope::Auto => "auto"@,
        Scope::Private16 => "192.168/16"@,
        Scope::Rfc1918 => "rfc1918"@,
    }
}

/// The name of a scope in the form.
pub fn scope_label(s: Scope) -> (r: String)
    ensures
        r@ == scope_name(s),
{
    match s {
        Scope::Nothing => "ranges only".to_owned(),
        Scope::Auto => "auto".to_owned(),
        Scope::Private16 => "192.168/16".to_owned(),
        Scope::Rfc1918 => "rfc1918".to_owned(),
    }
}

/// The frame of a pane stands out while the pane has the focus.
pub fn border(app: &App, pane: Pane) -> (r: Tone)
    ensures
        r == (if app.pane == pane {
            Tone::Accent
        } else {
            Tone::Dim
        }),
{
    if app.pane == pane {
        Tone::Accent
    } else {
        Tone::Dim
    }
}

// ---------------------------------------------------------------------
// The form
// ---------------------------------------------------------------------

impl AppView {
    /// A pointer in front of the field that has the focus.
    pub open spec fn marker_at(self, f: FormFocus) -> SpanView {
        if self.pane == Pane::Form && self.form_focus == f {
            piece("› "@, Tone::Accent)
        } else {
            piece("  "@, Tone::Plain)
        }
    }

    /// The text of a field: the edit buffer with a cursor behind it while the field
    /// is being edited.
    pub open spec fn shown_text(self, f: FormFocus, s: Seq<char>) -> Seq<char> {
        if self.editing is Some && self.form_focus == f {
            self.editing->0 + "_"@
        } else {
            s
        }
    }

    /// The row of a range.
    pub open spec fn range_line(self, i: int) -> Seq<SpanView> {
        let r = self.ranges[i];
        let f = FormFocus::Range(i as usize);
        let s = self.shown_text(f, r.text);
        seq![
            self.marker_at(f),
            piece("["@ + r.kind.mark() + "] "@, Tone::Accent),
            piece(
                if s.len() == 0 {
                    "<empty>"@
                } else {
                    s
                },
                if !r.fine() {
                    Tone::Severe(Severity::Critical)
                } else {
                    match r.kind {
                        RangeKind::Target => Tone::Accent,
                        RangeKind::Ignored => Tone::Dim,
                        RangeKind::Expected => Tone::Plain,
                    }
                },
            ),
        ]
    }

    /// The row of an advanced field.
    pub open spec fn adv_row(self, f: FormFocus, name: Seq<char>, value: Seq<char>) -> Seq<
        SpanView,
    > {
        seq![
            self.marker_at(f),
            piece("  "@ + text::pad_right(name, 9) + " "@, Tone::Dim),
            piece(self.shown_text(f, value), Tone::Plain),
        ]
    }

    /// The rows of the advanced fields, while the drawer is open.
    pub open spec fn drawer(self) -> Seq<Seq<SpanView>> {
        if self.advanced_open {
            seq![
                self.adv_row(FormFocus::AdvSpa, "spa"@, self.adv.spa),
                self.adv_row(FormFocus::AdvRate, "rate"@, text::dec(self.adv.rate as nat)),
                self.adv_row(FormFocus::AdvSettle, "settle"@, text::dec(self.adv.settle as nat)),
                self.adv_row(FormFocus::AdvPasses, "passes"@, text::dec(self.adv.passes as nat)),
                self.adv_row(
                    FormFocus::AdvNoIpv6,
                    "no-ipv6"@,
                    if self.adv.no_ipv6 {
                        "yes"@
                    } else {
                        "no"@
                    },
                ),
                self.adv_row(
                    FormFocus::AdvLeases,
                    "leases"@,
                    if self.adv.leases_file.len() == 0 {
                        "—"@
                    } else {
                        self.adv.leases_file
                    },
                ),
                self.adv_row(
                    FormFocus::AdvPassive,
                    "passive-s"@,
                    text::dec(self.adv.passive_secs as nat),
                ),
            ]
        } else {
            Seq::empty()
        }
    }

    /// The lines above the ranges.
    pub open spec fn form_head(self) -> Seq<Seq<SpanView>> {
        seq![
            seq![
                self.marker_at(FormFocus::Interface),
                piece("Interface: "@, Tone::Dim),
                piece(
                    match self.chosen_name() {
                        Some(n) => n,
                        None => "—"@,
                    },
                    Tone::Plain,
                ),
            ],
            seq![
                self.marker_at(FormFocus::Scope),
                piece("Scope:     "@, Tone::Dim),
                piece(scope_name(self.scope), Tone::Plain),
            ],
            Seq::empty(),
            seq![piece("  Ranges (s sweeps the focused):"@, Tone::Dim)],
            seq![piece("  [ ]network [>]target [!]ignore"@, Tone::Dim)],
        ]
    }

    /// The line that opens and closes the drawer.
    pub open spec fn drawer_line(self) -> Seq<SpanView> {
        seq![
            self.marker_at(FormFocus::AdvancedToggle),
            piece(
                (if self.advanced_open {
                    "▾"@
                } else {
                    "▸"@
                }) + " Advanced"@,
                Tone::Dim,
            ),
        ]
    }

    /// The form, line by line.
    pub open spec fn form_screen(self) -> Seq<Seq<SpanView>> {
        self.form_head() + Seq::new(self.ranges.len(), |i: int| self.range_line(i)) + seq![
            Seq::empty(),
            self.drawer_line(),
        ] + self.drawer()
    }
}

/// A pointer in front of the field that has the focus.
fn focus_marker(app: &App, f: FormFocus) -> (r: Vec<Span>)
    ensures
        line_view(r@) == seq![app@.marker_at(f)],
{
    if app.pane == Pane::Form && app.form_focus == f {
        one("› ", Tone::Accent)
    } else {
        one("  ", Tone::Plain)
    }
}

fn field(app: &App, f: FormFocus, s: &str) -> (r: String)
    ensures
        r@ == app@.shown_text(f, s@),
{
    match &app.editing {
        Some(b) => if app.form_focus == f {
            let mut t = b.clone();
            t.append("_");
            t
        } else {
            s.to_owned()
        },
        None => s.to_owned(),
    }
}

fn range_row(app: &App, i: usize) -> (r: Vec<Span>)
    requires
        i < app.ranges.len(),
    ensures
        line_view(r@) == app@.range_line(i as int),
{
    let f = FormFocus::Range(i);
    let row = &app.ranges[i];
    assert(app@.ranges[i as int] == row@);
    let s = field(app, f, row.text.as_str());
    let tone = if !row.valid() {
        Tone::Severe(Severity::Critical)
    } else {
        match row.kind {
            RangeKind::Target => Tone::Accent,
            RangeKind::Ignored => Tone::Dim,
            RangeKind::Expected => Tone::Plain,
        }
    };
    let mut line = focus_marker(app, f);
    let mut mark = String::new();
    mark.append("[");
    mark.append(row.kind.marker());
    mark.append("] ");
    push_span(&mut line, mark.as_str(), Tone::Accent);
    if s.as_str().is_empty() {
        push_span(&mut line, "<empty>", tone);
    } else {
        push_span(&mut line, s.as_str(), tone);
    }
    assert(line_view(line@) =~= app@.range_line(i as int));
    line
}

fn adv_line(app: &App, lines: &mut Vec<Vec<Span>>, f: FormFocus, name: &str, value: &str)
    ensures
        line_views(final(lines)@) == line_views(old(lines)@).push(app@.adv_row(f, name@, value@)),
{
    let mut line = focus_marker(app, f);
    let mut label = String::new();
    label.append("  ");
    text::push_padded(&mut label, name, 9);
    label.append(" ");
    push_span(&mut line, label.as_str(), Tone::Dim);
    push_span(&mut line, field(app, f, value).as_str(), Tone::Plain);
    assert(line_view(line@) =~= app@.adv_row(f, name@, value@));
    push_line(lines, line);
}

fn push_head(app: &App, lines: &mut Vec<Vec<Span>>)
    requires
        old(lines)@.len() == 0,
    ensures
        line_views(final(lines)@) == app@.form_head(),
{
    let name: String = match app.iface_name() {
        Some(n) => n,
        None => "—".to_owned(),
    };
    let mut a = focus_marker(app, FormFocus::Interface);
    push_span(&mut a, "Interface: ", Tone::Dim);
    push_span(&mut a, name.as_str(), Tone::Plain);
    assert(line_view(a@) =~= app@.form_head()[0]);
    push_line(lines, a);
    let mut b = focus_marker(app, FormFocus::Scope);
    push_span(&mut b, "Scope:     ", Tone::Dim);
    push_span(&mut b, scope_label(app.scope).as_str(), Tone::Plain);
    assert(line_view(b@) =~= app@.form_head()[1]);
    push_line(lines, b);
    push_line(lines, blank());
    push_line(lines, one("  Ranges (s sweeps the focused):", Tone::Dim));
    push_line(lines, one("  [ ]network [>]target [!]ignore", Tone::Dim));
    assert(line_views(lines@) =~= app@.form_head());
}

fn push_drawer(app: &App, lines: &mut Vec<Vec<Span>>)
    ensures
        line_views(final(lines)@) == line_views(old(lines)@) + app@.drawer(),
{
    if app.advanced_open {
        adv_line(app, lines, FormFocus::AdvSpa, "spa", app.adv.spa.as_str());
        adv_line(app, lines, FormFocus::AdvRate, "rate", text::dec_string(app.adv.rate).as_str());
        adv_line(
            app,
            lines,
            FormFocus::AdvSettle,
            "settle",
            text::dec_string(app.adv.settle).as_str(),
        );
        adv_line(
            app,
            lines,
            FormFocus::AdvPasses,
            "passes",
            text::dec_string(app.adv.passes as u64).as_str(),
        );
        adv_line(
            app,
            lines,
            FormFocus::AdvNoIpv6,
            "no-ipv6",
            if app.adv.no_ipv6 {
                "yes"
            } else {
                "no"
            },
        );
        adv_line(
            app,
            lines,
            FormFocus::AdvLeases,
            "leases",
            if app.adv.leases_file.as_str().is_empty() {
                "—"
            } else {
                app.adv.leases_file.as_str()
            },
        );
        adv_line(
            app,
            lines,
            FormFocus::AdvPassive,
            "passive-s",
            text::dec_string(app.adv.passive_secs).as_str(),
        );
    }
    assert(line_views(lines@) =~= line_views(old(lines)@) + app@.drawer());
}

/// Draws the form.
pub fn render_form(app: &App) -> (r: Vec<Vec<Span>>)
    ensures
        line_views(r@) == app@.form_screen(),
{
    let mut lines: Vec<Vec<Span>> = Vec::new();
    push_head(app, &mut lines);
    let ghost n = app@.ranges.len();
    let ghost rows = Seq::new(n, |i: int| app@.range_line(i));
    let mut i: usize = 0;
    assert(line_views(lines@) =~= app@.form_head() + rows.take(0));
    while i < app.ranges.len()
        invariant
            i <= app.ranges.len(),
            n == app.ranges@.len(),
            rows == Seq::new(n, |k: int| app@.range_line(k)),
            line_views(lines@) == app@.form_head() + rows.take(i as int),
        decreases app.ranges.len() - i,
    {
        push_line(&mut lines, range_row(app, i));
        assert(rows.take(i + 1) =~= rows.take(i as int).push(app@.range_line(i as int)));
        i = i + 1;
    }
    assert(rows.take(n as int) =~= rows);
    push_line(&mut lines, blank());
    let mut d = focus_marker(app, FormFocus::AdvancedToggle);
    let mut arrow = String::new();
    arrow.append(
        if app.advanced_open {
            "▾"
        } else {
            "▸"
        },
    );
    arrow.append(" Advanced");
    push_span(&mut d, arrow.as_str(), Tone::Dim);
    assert(line_view(d@) =~= app@.drawer_line());
    push_line(&mut lines, d);
    push_drawer(app, &mut lines);
    assert(line_views(lines@) =~= app@.form_screen());
    lines
}

// ---------------------------------------------------------------------
// The table of hosts
// ---------------------------------------------------------------------

/// One line of five columns.
pub open spec fn host_columns(
    a: Seq<char>,
    b: Seq<char>,
    c: Seq<char>,
    d: Seq<char>,
    e: Seq<char>,
) -> Seq<char> {
    text::pad_right(a, 3) + text::pad_right(b, 19) + text::pad_right(c, 17) + text::pad_right(d, 24)
        + e
}

/// The line of a host.
pub open spec fn host_line(f: FindingView, selected: bool) -> SpanView {
    piece(
        host_columns(
            theme::glyph(f.severity),
            text::shortened(f.mac, 18),
            text::shortened(
                if f.ipv4.len() > 0 {
                    f.ipv4[0]
                } else {
                    "—"@
                },
                16,
            ),
            text::shortened(report::vendor_text(f, "(local/VM)"@, "(?)"@), 23),
            text::join(report::codes(f.flags), " "@),
        ),
        if selected {
            Tone::Selected(f.severity)
        } else {
            Tone::Severe(f.severity)
        },
    )
}

impl AppView {
    /// The title of the table.
    pub open spec fn hosts_title(self) -> Seq<char> {
        " hosts ("@ + text::dec(self.visible().len()) + (if self.only_flagged {
            ", flagged only"@
        } else {
            ", all"@
        }) + ") "@
    }

    /// The first visible finding that fits, so that the one under the cursor does.
    pub open spec fn first_row(self, height: nat) -> int {
        let back = if height == 0 {
            0
        } else {
            height - 1
        };
        if self.result_idx > back {
            self.result_idx - back
        } else {
            0
        }
    }

    /// How many visible findings fit.
    pub open spec fn row_count(self, height: nat) -> nat {
        let left = self.visible().len() - self.first_row(height);
        if left <= 0 {
            0
        } else if height < left {
            height
        } else {
            left as nat
        }
    }

    /// The lines of the hosts that fit.
    pub open spec fn host_rows(self, height: nat) -> Seq<Seq<SpanView>> {
        Seq::new(
            self.row_count(height),
            |i: int|
                {
                    let row = self.first_row(height) + i;
                    seq![
                        host_line(
                            self.findings[self.visible()[row] as int],
                            row == self.result_idx,
                        ),
                    ]
                },
        )
    }

    /// The table, line by line, in a pane of that many lines: the heading takes one.
    pub open spec fn hosts_screen(self, lines: nat) -> Seq<Seq<SpanView>> {
        let height = if lines == 0 {
            0
        } else {
            (lines - 1) as nat
        };
        seq![
            seq![
                piece(
                    host_columns(Seq::empty(), "MAC"@, "IPv4"@, "VENDOR"@, "FLAGS"@),
                    Tone::Bold,
                ),
            ],
        ] + self.host_rows(height) + (if self.visible().len() == 0 {
            seq![seq![piece("  (nothing yet — press r/Enter to sweep)"@, Tone::Dim)]]
        } else {
            Seq::empty()
        })
    }
}

fn write_host_columns(a: &str, b: &str, c: &str, d: &str, e: &str) -> (r: String)
    ensures
        r@ == host_columns(a@, b@, c@, d@, e@),
{
    let mut s = String::new();
    text::push_padded(&mut s, a, 3);
    text::push_padded(&mut s, b, 19);
    text::push_padded(&mut s, c, 17);
    text::push_padded(&mut s, d, 24);
    s.append(e);
    s
}

fn host_row(f: &Finding, selected: bool) -> (r: Vec<Span>)
    ensures
        line_view(r@) == seq![host_line(f@, selected)],
{
    assert(f@.ipv4.len() == f.ipv4@.len());
    let ip: &str = if f.ipv4.len() > 0 {
        assert(f@.ipv4[0] == f.ipv4@[0]@);
        f.ipv4[0].as_str()
    } else {
        "—"
    };
    let vendor = report::vendor_or(f, "(local/VM)", "(?)");
    let content = write_host_columns(
        theme::severity_glyph(f.severity),
        trunc(f.mac.as_str(), 18).as_str(),
        trunc(ip, 16).as_str(),
        trunc(vendor.as_str(), 23).as_str(),
        report::join_codes(&f.flags).as_str(),
    );
    let tone = if selected {
        Tone::Selected(f.severity)
    } else {
        Tone::Severe(f.severity)
    };
    one(content.as_str(), tone)
}

/// Writes the title of the table.
pub fn table_title(app: &App) -> (r: String)
    ensures
        r@ == app@.hosts_title(),
{
    let mut s = String::new();
    s.append(" hosts (");
    text::push_dec(&mut s, app.visible_indices().len() as u64);
    s.append(
        if app.only_flagged {
            ", flagged only"
        } else {
            ", all"
        },
    );
    s.append(") ");
    s
}

/// Draws the table of hosts, in a pane of that many lines.
pub fn render_table(app: &App, inner_height: u16) -> (r: Vec<Vec<Span>>)
    ensures
        line_views(r@) == app@.hosts_screen(inner_height as nat),
{
    let vis: Vec<usize> = app.visible_indices();
    let mut lines: Vec<Vec<Span>> = Vec::new();
    proof {
        reveal_strlit("");
        assert(""@ =~= Seq::empty());
    }
    let head = write_host_columns("", "MAC", "IPv4", "VENDOR", "FLAGS");
    push_line(&mut lines, one(head.as_str(), Tone::Bold));
    let ghost top = line_views(lines@);
    let height: usize = if inner_height == 0 {
        0
    } else {
        (inner_height - 1) as usize
    };
    let back: usize = if height == 0 {
        0
    } else {
        height - 1
    };
    let start: usize = if app.result_idx > back {
        app.result_idx - back
    } else {
        0
    };
    let count: usize = if start >= vis.len() {
        0
    } else if height < vis.len() - start {
        height
    } else {
        vis.len() - start
    };
    let ghost rows = app@.host_rows(height as nat);
    let mut i: usize = 0;
    assert(line_views(lines@) =~= top + rows.take(0));
    while i < count
        invariant
            i <= count,
            vis@ == app@.visible(),
            forall|k: int| 0 <= k < vis@.len() ==> (#[trigger] vis@[k]) < app.findings@.len(),
            start == app@.first_row(height as nat),
            count == app@.row_count(height as nat),
            count > 0 ==> start + count <= vis@.len(),
            rows == app@.host_rows(height as nat),
            line_views(lines@) == top + rows.take(i as int),
        decreases count - i,
    {
        let row: usize = start + i;
        assert(vis@[row as int] < app.findings@.len());
        let f: &Finding = &app.findings[vis[row]];
        assert(app@.findings[vis@[row as int] as int] == f@);
        push_line(&mut lines, host_row(f, row == app.result_idx));
        assert(rows.take(i + 1) =~= rows.take(i as int).push(
            seq![host_line(f@, row == app.result_idx)],
        ));
        i = i + 1;
    }
    assert(rows.take(count as int) =~= rows);
    if vis.len() == 0 {
        push_line(&mut lines, one("  (nothing yet — press r/Enter to sweep)", Tone::Dim));
    }
    assert(line_views(lines@) =~= app@.hosts_screen(inner_height as nat));
    lines
}

// ---------------------------------------------------------------------
// The selected host
// ---------------------------------------------------------------------

/// A line, if there is reason for it.
pub open spec fn span_line_if(b: bool, s: Seq<SpanView>) -> Seq<Seq<SpanView>> {
    if b {
        seq![s]
    } else {
        Seq::empty()
    }
}

/// The first line about a host.
pub open spec fn detail_head(f: FindingView) -> Seq<SpanView> {
    seq![
        piece(f.mac, Tone::Accent),
        piece("  "@, Tone::Plain),
        piece(
            match f.vendor {
                Some(v) => v,
                None => "(vendor ?)"@,
            },
            Tone::Plain,
        ),
    ] + (match f.hostname {
        Some(h) => seq![piece("  «"@ + h + "»"@, Tone::Dim)],
        None => Seq::empty(),
    })
}

/// What the flags of a host mean, a line each.
pub open spec fn detail_flags(f: FindingView) -> Seq<Seq<SpanView>> {
    Seq::new(
        f.flags.len(),
        |i: int|
            seq![
                piece(f.flags[i].name() + " "@, Tone::Severe(f.flags[i].weight())),
                piece(f.flags[i].meaning(), Tone::Dim),
            ],
    )
}

/// The lines about a host.
pub open spec fn detail_of(f: FindingView) -> Seq<Seq<SpanView>> {
    seq![
        detail_head(f),
        seq![piece("IPv4: "@, Tone::Dim), piece(report::ips_text(f, ", "@), Tone::Plain)],
    ] + span_line_if(
        f.ipv6.len() > 0,
        seq![piece("IPv6: "@, Tone::Dim), piece(text::join(f.ipv6, ", "@), Tone::Plain)],
    ) + span_line_if(
        f.lease is Some,
        seq![piece("lease: "@, Tone::Dim), piece(report::or_empty(f.lease), Tone::Plain)],
    ) + detail_flags(f) + span_line_if(
        f.sources.len() > 0,
        seq![piece("seen via: "@ + text::join(f.sources, ", "@), Tone::Dim)],
    )
}

fn detail_lines(x: &Finding) -> (r: Vec<Vec<Span>>)
    ensures
        line_views(r@) == detail_of(x@),
{
    let ghost f = x@;
    let mut lines: Vec<Vec<Span>> = Vec::new();
    let mut head = two(x.mac.as_str(), Tone::Accent, "  ", Tone::Plain);
    match &x.vendor {
        Some(v) => push_span(&mut head, v.as_str(), Tone::Plain),
        None => push_span(&mut head, "(vendor ?)", Tone::Plain),
    }
    if let Some(h) = &x.hostname {
        let mut s = String::new();
        s.append("  «");
        s.append(h.as_str());
        s.append("»");
        push_span(&mut head, s.as_str(), Tone::Dim);
    }
    assert(line_view(head@) =~= detail_head(f));
    push_line(&mut lines, head);
    push_line(
        &mut lines,
        two("IPv4: ", Tone::Dim, report::ips_or_dash(x, ", ").as_str(), Tone::Plain),
    );
    let ghost l1 = line_views(lines@);
    assert(l1 =~= seq![
        detail_head(f),
        seq![piece("IPv4: "@, Tone::Dim), piece(report::ips_text(f, ", "@), Tone::Plain)],
    ]);
    assert(f.ipv6.len() == x.ipv6@.len());
    if x.ipv6.len() > 0 {
        push_line(
            &mut lines,
            two("IPv6: ", Tone::Dim, text::join_strings(&x.ipv6, ", ").as_str(), Tone::Plain),
        );
    }
    let ghost l2 = l1 + span_line_if(
        f.ipv6.len() > 0,
        seq![piece("IPv6: "@, Tone::Dim), piece(text::join(f.ipv6, ", "@), Tone::Plain)],
    );
    assert(line_views(lines@) =~= l2);
    if x.lease.is_some() {
        push_line(&mut lines, two("lease: ", Tone::Dim, report::opt_str(&x.lease), Tone::Plain));
    }
    let ghost l3 = l2 + span_line_if(
        f.lease is Some,
        seq![piece("lease: "@, Tone::Dim), piece(report::or_empty(f.lease), Tone::Plain)],
    );
    assert(line_views(lines@) =~= l3);
    let ghost marks = detail_flags(f);
    let mut i: usize = 0;
    assert(line_views(lines@) =~= l3 + marks.take(0));
    while i < x.flags.len()
        invariant
            i <= x.flags.len(),
            f == x@,
            marks == detail_flags(f),
            line_views(lines@) == l3 + marks.take(i as int),
        decreases x.flags.len() - i,
    {
        assert(f.flags[i as int] == x.flags@[i as int]@);
        let mut code = String::new();
        code.append(x.flags[i].code());
        code.append(" ");
        push_line(
            &mut lines,
            two(
                code.as_str(),
                Tone::Severe(x.flags[i].severity()),
                x.flags[i].explain().as_str(),
                Tone::Dim,
            ),
        );
        assert(marks.take(i + 1) =~= marks.take(i as int).push(marks[i as int]));
        i = i + 1;
    }
    assert(marks.take(x.flags.len() as int) =~= marks);
    assert(f.sources.len() == x.sources@.len());
    if x.sources.len() > 0 {
        let mut s = String::new();
        s.append("seen via: ");
        s.append(text::join_strings(&x.sources, ", ").as_str());
        push_line(&mut lines, one(s.as_str(), Tone::Dim));
    }
    assert(line_views(lines@) =~= detail_of(f));
    lines
}

impl AppView {
    /// The lines below the table: the selected host in detail.
    pub open spec fn detail_screen(self) -> Seq<Seq<SpanView>> {
        match self.selected() {
            Some(f) => detail_of(f),
            None => seq![seq![piece("no host selected"@, Tone::Dim)]],
        }
    }
}

/// Draws the selected host in detail.
pub fn render_detail(app: &App) -> (r: Vec<Vec<Span>>)
    ensures
        line_views(r@) == app@.detail_screen(),
{
    match app.selected_finding() {
        Some(x) => detail_lines(x),
        None => {
            let mut lines: Vec<Vec<Span>> = Vec::new();
            push_line(&mut lines, one("no host selected", Tone::Dim));
            assert(line_views(lines@) =~= app@.detail_screen());
            lines
        },
    }
}

// ---------------------------------------------------------------------
// The status line
// ---------------------------------------------------------------------

/// The keys, in one line.
pub open spec fn key_hints() -> Seq<char> {
    "r/Enter run · s sweep range · Tab pane · a add · d del · Space mark · w/y/p host · / filter · f flagged · e export · ? help · q quit"@
}

/// What is said of a scan's progress; `percent` is how much of the sweep has been
/// sent.
pub open spec fn progress_text(phase: Phase, sent: u64, total: u64, percent: Seq<char>) -> Seq<char> {
    match phase {
        Phase::Sweep => " "@ + phase.name() + " "@ + percent + "% ("@ + text::dec(sent as nat) + "/"@
            + text::dec(total as nat) + ")"@,
        Phase::Done => " done"@,
        _ => " "@ + phase.name() + "..."@,
    }
}

impl AppView {
    /// The filter, while there is one.
    pub open spec fn status_filter(self) -> Seq<SpanView> {
        if self.filtering || self.filter is Some {
            seq![
                piece(" filter: "@ + report::or_empty(self.filter), Tone::Accent),
                piece("   "@, Tone::Plain),
            ]
        } else {
            Seq::empty()
        }
    }

    /// The progress of the scan, while there is one.
    pub open spec fn status_scan(self, progress: Seq<char>) -> Seq<SpanView> {
        if self.scan == ScanState::Absent {
            Seq::empty()
        } else {
            seq![
                piece(
                    progress,
                    if self.scan == ScanState::Running {
                        Tone::Accent
                    } else {
                        Tone::Dim
                    },
                ),
                piece("   "@, Tone::Plain),
            ]
        }
    }

    /// The status line: the filter, the scan's progress, and a message or the keys.
    pub open spec fn status_screen(self, progress: Seq<char>) -> Seq<SpanView> {
        self.status_filter() + self.status_scan(progress) + seq![
            match self.toast {
                Some((msg, _)) => piece("• "@ + msg, Tone::Accent),
                None => piece(key_hints(), Tone::Dim),
            },
        ]
    }
}

/// Writes what is said of a scan's progress.
pub fn progress_label(phase: Phase, sent: u64, total: u64, percent: &str) -> (r: String)
    ensures
        r@ == progress_text(phase, sent, total, percent@),
{
    let mut s = String::new();
    match phase {
        Phase::Sweep => {
            s.append(" ");
            s.append(phase.label());
            s.append(" ");
            s.append(percent);
            s.append("% (");
            text::push_dec(&mut s, sent);
            s.append("/");
            text::push_dec(&mut s, total);
            s.append(")");
        },
        Phase::Done => {
            s.append(" done");
        },
        _ => {
            s.append(" ");
            s.append(phase.label());
            s.append("...");
        },
    }
    s
}

/// Draws the status line, given what is said of the scan's progress.
pub fn render_status(app: &App, progress: &str) -> (r: Vec<Span>)
    ensures
        line_view(r@) == app@.status_screen(progress@),
{
    let mut spans = blank();
    if app.filtering || app.filter.is_some() {
        let mut s = String::new();
        s.append(" filter: ");
        s.append(report::opt_str(&app.filter));
        push_span(&mut spans, s.as_str(), Tone::Accent);
        push_span(&mut spans, "   ", Tone::Plain);
    }
    assert(line_view(spans@) =~= app@.status_filter());
    if app.scan != ScanState::Absent {
        let tone = if app.is_running() {
            Tone::Accent
        } else {
            Tone::Dim
        };
        push_span(&mut spans, progress, tone);
        push_span(&mut spans, "   ", Tone::Plain);
    }
    assert(line_view(spans@) =~= app@.status_filter() + app@.status_scan(progress@));
    match &app.toast {
        Some((msg, _)) => {
            let mut s = String::new();
            s.append("• ");
            s.append(msg.as_str());
            push_span(&mut spans, s.as_str(), Tone::Accent);
        },
        None => push_span(
            &mut spans,
            "r/Enter run · s sweep range · Tab pane · a add · d del · Space mark · w/y/p host · / filter · f flagged · e export · ? help · q quit",
            Tone::Dim,
        ),
    }
    assert(line_view(spans@) =~= app@.status_screen(progress@));
    spans
}

// ---------------------------------------------------------------------
// The overlays
// ---------------------------------------------------------------------

/// The help, line by line.
pub open spec fn help_screen() -> Seq<Seq<SpanView>> {
    seq![
        seq![piece("Global"@, Tone::Accent)],
        seq![piece("  r / Enter   run the sweep"@, Tone::Plain)],
        seq![piece("  Tab         switch focus form <-> results"@, Tone::Plain)],
        seq![piece("  Esc         cancel the running sweep"@, Tone::Plain)],
        seq![piece("  ? / q       help / quit"@, Tone::Plain)],
        seq![piece("Form"@, Tone::Accent)],
        seq![piece("  j/k ↑/↓     move between fields"@, Tone::Plain)],
        seq![piece("  h/l ←/→     cycle interface/scope/spa/range"@, Tone::Plain)],
        seq![piece("  Enter       edit or activate the focused field"@, Tone::Plain)],
        seq![piece("  a / d       add / remove a range"@, Tone::Plain)],
        seq![
            piece(
                "  Space       cycle [ ] network -> [>] target -> [!] ignore"@,
                Tone::Plain,
            ),
        ],
        seq![piece("  s           sweep only the focused range, now"@, Tone::Plain)],
        seq![piece("Results"@, Tone::Accent)],
        seq![piece("  j/k         move between hosts"@, Tone::Plain)],
        seq![piece("  / f         filter by text / flagged only"@, Tone::Plain)],
        seq![piece("  w y p       whitelist / copy MAC / probe"@, Tone::Plain)],
        seq![piece("  e           export JSON+CSV"@, Tone::Plain)],
        Seq::empty(),
        seq![piece("  (any key closes)"@, Tone::Dim)],
    ]
}

/// Draws the help.
pub fn render_help() -> (r: Vec<Vec<Span>>)
    ensures
        line_views(r@) == help_screen(),
{
    let mut v: Vec<Vec<Span>> = Vec::new();
    push_line(&mut v, one("Global", Tone::Accent));
    push_line(&mut v, one("  r / Enter   run the sweep", Tone::Plain));
    push_line(&mut v, one("  Tab         switch focus form <-> results", Tone::Plain));
    push_line(&mut v, one("  Esc         cancel the running sweep", Tone::Plain));
    push_line(&mut v, one("  ? / q       help / quit", Tone::Plain));
    push_line(&mut v, one("Form", Tone::Accent));
    push_line(&mut v, one("  j/k ↑/↓     move between fields", Tone::Plain));
    push_line(&mut v, one("  h/l ←/→     cycle interface/scope/spa/range", Tone::Plain));
    push_line(&mut v, one("  Enter       edit or activate the focused field", Tone::Plain));
    push_line(&mut v, one("  a / d       add / remove a range", Tone::Plain));
    push_line(
        &mut v,
        one("  Space       cycle [ ] network -> [>] target -> [!] ignore", Tone::Plain),
    );
    push_line(&mut v, one("  s           sweep only the focused range, now", Tone::Plain));
    push_line(&mut v, one("Results", Tone::Accent));
    push_line(&mut v, one("  j/k         move between hosts", Tone::Plain));
    push_line(&mut v, one("  / f         filter by text / flagged only", Tone::Plain));
    push_line(&mut v, one("  w y p       whitelist / copy MAC / probe", Tone::Plain));
    push_line(&mut v, one("  e           export JSON+CSV", Tone::Plain));
    push_line(&mut v, blank());
    push_line(&mut v, one("  (any key closes)", Tone::Dim));
    assert(line_views(v@) =~= help_screen());
    v
}

/// A rectangle on the screen.
#[derive(Debug, Clone, Copy, PartialEq, Eq, Structural)]
pub struct Area {
    pub x: u16,
    pub y: u16,
    pub width: u16,
    pub height: u16,
}

/// The smaller of two numbers.
pub open spec fn smaller(a: u16, b: u16) -> u16 {
    if a < b {
        a
    } else {
        b
    }
}

/// The rectangle of that size in the middle of another, cut down to fit into it.
pub fn centered(area: Area, w: u16, h: u16) -> (r: Area)
    requires
        area.x + area.width <= u16::MAX,
        area.y + area.height <= u16::MAX,
    ensures
        r.width == smaller(w, area.width),
        r.height == smaller(h, area.height),
        r.x == area.x + (area.width - r.width) / 2,
        r.y == area.y + (area.height - r.height) / 2,
        area.x <= r.x && r.x + r.width <= area.x + area.width,
        area.y <= r.y && r.y + r.height <= area.y + area.height,
{
    let width: u16 = if w < area.width {
        w
    } else {
        area.width
    };
    let height: u16 = if h < area.height {
        h
    } else {
        area.height
    };
    Area {
        x: area.x + (area.width - width) / 2,
        y: area.y + (area.height - height) / 2,
        width,
        height,
    }
}

// ---------------------------------------------------------------------
// What holds of every screen
// ---------------------------------------------------------------------

/// The host under the cursor is always on the screen, however small the pane, as
/// long as a line is left for it.
pub proof fn the_cursor_stays_on_screen(v: AppView, height: nat)
    requires
        height > 0,
        v.result_idx < v.visible().len(),
    ensures
        v.first_row(height) <= v.result_idx < v.first_row(height) + v.row_count(height),
        v.host_rows(height)[v.result_idx - v.first_row(height)] == seq![
            host_line(v.findings[v.visible()[v.result_idx as int] as int], true),
        ],
{
    let i = v.result_idx - v.first_row(height);
    assert(v.host_rows(height)[i] =~= seq![
        host_line(v.findings[v.visible()[v.result_idx as int] as int], true),
    ]);
}

/// The form has a line for every range, in order: its role between brackets, then its
/// text, or what is being typed with a cursor behind it, or a note that it is empty; in
/// red where it names no network, and with a pointer in front where the focus is.
#[verifier::spinoff_prover]
#[verifier::rlimit(30)]
pub proof fn the_form_shows_every_range(v: AppView, i: int)
    requires
        0 <= i < v.ranges.len() <= usize::MAX,
    ensures
        ({
            let lines = v.form_screen();
            let line = lines[5 + i];
            let here = v.form_focus == FormFocus::Range(i as usize);
            let r = v.ranges[i];
            &&& lines.len() == v.ranges.len() + 7 + (if v.advanced_open {
                7int
            } else {
                0
            })
            &&& line.len() == 3
            &&& line[0].text == (if here && v.pane == Pane::Form {
                "› "@
            } else {
                "  "@
            })
            &&& line[1].text == seq![
                '[',
                match r.kind {
                    RangeKind::Expected => ' ',
                    RangeKind::Target => '>',
                    RangeKind::Ignored => '!',
                },
                ']',
                ' ',
            ]
            &&& v.editing matches Some(buf) ==> (here ==> line[2].text == buf.push('_'))
            &&& !(here && v.editing is Some) && r.text.len() > 0 ==> line[2].text == r.text
            &&& !(here && v.editing is Some) && r.text.len() == 0 ==> line[2].text == "<empty>"@
            &&& line[2].tone == Tone::Severe(Severity::Critical) <==> text::trim(r.text).len() > 0 && r.net() is None
        }),
{
    reveal_strlit("[");
    reveal_strlit("] ");
    reveal_strlit(" ");
    reveal_strlit(">");
    reveal_strlit("!");
    reveal_strlit("_");
    let lines = v.form_screen();
    let r = v.ranges[i];
    assert(lines[5 + i] == v.range_line(i));
    let m = "["@ + r.kind.mark() + "] "@;
    match r.kind {
        RangeKind::Expected => assert(m =~= seq!['[', ' ', ']', ' ']),
        RangeKind::Target => assert(m =~= seq!['[', '>', ']', ' ']),
        RangeKind::Ignored => assert(m =~= seq!['[', '!', ']', ' ']),
    }
    if v.editing is Some {
        assert(v.editing->0 + "_"@ =~= (v.editing->0).push('_'));
    }
}

/// The form names the interface chosen and the scope above the ranges, and says below
/// them whether the drawer is open.
pub proof fn the_form_shows_interface_and_scope(v: AppView)
    ensures
        ({
            let lines = v.form_screen();
            let n = v.ranges.len() as int;
            &&& v.iface_idx < v.ifaces.len() ==> lines[0].last().text == v.ifaces[v.iface_idx as int].name
            &&& v.iface_idx >= v.ifaces.len() ==> lines[0].last().text == seq!['—']
            &&& lines[1].last().text == scope_name(v.scope)
            &&& lines[n + 6].last().text[0] == (if v.advanced_open {
                '▾'
            } else {
                '▸'
            })
            &&& (lines[0][0].text == "› "@) <==> v.pane == Pane::Form && v.form_focus
                == FormFocus::Interface
            &&& (lines[1][0].text == "› "@) <==> v.pane == Pane::Form && v.form_focus
                == FormFocus::Scope
            &&& (lines[n + 6][0].text == "› "@) <==> v.pane == Pane::Form && v.form_focus
                == FormFocus::AdvancedToggle
        }),
{
    reveal_strlit("—");
    reveal_strlit("▾");
    reveal_strlit("▸");
    reveal_strlit("› ");
    reveal_strlit("  ");
    let n = v.ranges.len() as int;
    assert("—"@ =~= seq!['—']);
    assert("› "@[0] == '›' && "  "@[0] == ' ');
    assert(v.form_screen()[n + 6] == v.drawer_line());
}

/// Different scopes have different names.
pub proof fn scopes_are_told_apart(a: Scope, b: Scope)
    requires
        a != b,
    ensures
        scope_name(a) != scope_name(b),
{
    reveal_strlit("ranges only");
    reveal_strlit("auto");
    reveal_strlit("192.168/16");
    reveal_strlit("rfc1918");
    assert("ranges only"@.len() == 11 && "auto"@.len() == 4 && "192.168/16"@.len() == 10 && "rfc1918"@.len()
        == 7);
}

/// The open drawer shows the value of every advanced field, or what is being typed there
/// with a cursor behind it.
#[verifier::spinoff_prover]
#[verifier::rlimit(30)]
pub proof fn the_drawer_shows_every_field(v: AppView)
    requires
        v.advanced_open,
    ensures
        ({
            let n = v.ranges.len() as int;
            let lines = v.form_screen();
            let idle = |f: FormFocus| v.editing is None || v.form_focus != f;
            &&& idle(FormFocus::AdvSpa) ==> lines[n + 7].last().text == v.adv.spa
            &&& idle(FormFocus::AdvRate) ==> lines[n + 8].last().text == text::dec(v.adv.rate as nat)
            &&& idle(FormFocus::AdvSettle) ==> lines[n + 9].last().text == text::dec(v.adv.settle as nat)
            &&& idle(FormFocus::AdvPasses) ==> lines[n + 10].last().text == text::dec(v.adv.passes as nat)
            &&& idle(FormFocus::AdvNoIpv6) ==> lines[n + 11].last().text == (if v.adv.no_ipv6 {
                "yes"@
            } else {
                "no"@
            })
            &&& idle(FormFocus::AdvLeases) && v.adv.leases_file.len() > 0 ==> lines[n + 12].last().text
                == v.adv.leases_file
            &&& idle(FormFocus::AdvPassive) ==> lines[n + 13].last().text == text::dec(
                v.adv.passive_secs as nat,
            )
            &&& v.editing matches Some(buf) ==> {
                &&& v.form_focus == FormFocus::AdvSpa ==> lines[n + 7].last().text == buf.push('_')
                &&& v.form_focus == FormFocus::AdvRate ==> lines[n + 8].last().text == buf.push('_')
                &&& v.form_focus == FormFocus::AdvSettle ==> lines[n + 9].last().text == buf.push('_')
                &&& v.form_focus == FormFocus::AdvPasses ==> lines[n + 10].last().text == buf.push('_')
                &&& v.form_focus == FormFocus::AdvLeases ==> lines[n + 12].last().text == buf.push('_')
                &&& v.form_focus == FormFocus::AdvPassive ==> lines[n + 13].last().text == buf.push('_')
            }
        }),
{
    reveal_strlit("_");
    let n = v.ranges.len() as int;
    let d = v.drawer();
    let lines = v.form_screen();
    assert(forall|k: int| 0 <= k < 7 ==> lines[n + 7 + k] == #[trigger] d[k]);
    assert(lines[n + 7] == d[0] && lines[n + 8] == d[1] && lines[n + 9] == d[2] && lines[n + 10] == d[3]
        && lines[n + 11] == d[4] && lines[n + 12] == d[5] && lines[n + 13] == d[6]);
    if v.editing is Some {
        assert(v.editing->0 + "_"@ =~= (v.editing->0).push('_'));
    }
}

/// The line of a host shows how bad it is, its MAC, its first address, its vendor and
/// the name of every flag, each in its column as far as it fits.
#[verifier::spinoff_prover]
#[verifier::rlimit(30)]
pub proof fn a_line_shows_the_host(f: FindingView, selected: bool)
    requires
        f.mac.len() <= 18,
    ensures
        ({
            let t = host_line(f, selected).text;
            &&& t[0] == (match f.severity {
                Severity::Critical => '●',
                Severity::High => '▲',
                Severity::Info => '·',
            })
            &&& text::occurs_at(t, f.mac, 3)
            &&& f.ipv4.len() > 0 && f.ipv4[0].len() <= 16 ==> text::occurs_at(t, f.ipv4[0], 22)
            &&& f.ipv4.len() == 0 ==> t[22] == '—'
            &&& f.vendor matches Some(v) ==> (v.len() <= 23 ==> text::occurs_at(t, v, 39))
            &&& forall|k: int|
                0 <= k < f.flags.len() ==> text::contains_text(t, (#[trigger] f.flags[k]).name())
            &&& host_line(f, true).tone == Tone::Selected(f.severity)
            &&& host_line(f, false).tone == Tone::Severe(f.severity)
            &&& host_line(f, true).text == host_line(f, false).text
        }),
{
    reveal_strlit("●");
    reveal_strlit("▲");
    reveal_strlit("·");
    reveal_strlit("—");
    let t = host_line(f, selected).text;
    let g = theme::glyph(f.severity);
    let ip = if f.ipv4.len() > 0 {
        f.ipv4[0]
    } else {
        "—"@
    };
    let vendor = report::vendor_text(f, "(local/VM)"@, "(?)"@);
    let (a, b, c) = (text::shortened(f.mac, 18), text::shortened(ip, 16), text::shortened(vendor, 23));
    let names = text::join(report::codes(f.flags), " "@);
    text::cutting_keeps_the_start(f.mac, 18);
    text::cutting_keeps_the_start(ip, 16);
    text::cutting_keeps_the_start(vendor, 23);
    assert(g.len() == 1);
    lemma_host_columns(g, a, b, c, names);
    let front = t.take(63);
    assert(t =~= front + names + Seq::empty()) by {
        assert(t.subrange(63, 63 + names.len() as int) =~= t.skip(63));
        assert(t =~= front + t.skip(63));
    }
    assert(t.subrange(0, 1)[0] == t[0]);
    if f.ipv4.len() == 0 {
        assert(b == ip);
        assert(t.subrange(22, 23)[0] == t[22]);
    }
    assert forall|k: int| 0 <= k < f.flags.len() implies text::contains_text(
        t,
        (#[trigger] f.flags[k]).name(),
    ) by {
        let name = f.flags[k].name();
        assert(report::codes(f.flags)[k] == name);
        text::joined_texts_are_all_there(report::codes(f.flags), " "@, k);
        text::what_stands_inside_stands_outside(
            front,
            names,
            Seq::empty(),
            name,
            text::start_of(report::codes(f.flags), " "@, k),
        );
    }
}

proof fn lemma_host_columns(a: Seq<char>, b: Seq<char>, c: Seq<char>, d: Seq<char>, e: Seq<char>)
    requires
        a.len() <= 3,
        b.len() <= 19,
        c.len() <= 17,
        d.len() <= 24,
    ensures
        ({
            let t = host_columns(a, b, c, d, e);
            &&& t.len() == 63 + e.len()
            &&& text::occurs_at(t, a, 0)
            &&& text::occurs_at(t, b, 3)
            &&& text::occurs_at(t, c, 22)
            &&& text::occurs_at(t, d, 39)
            &&& text::occurs_at(t, e, 63)
        }),
{
    let t = host_columns(a, b, c, d, e);
    assert(t.subrange(0, a.len() as int) =~= a);
    assert(t.subrange(3, 3 + b.len() as int) =~= b);
    assert(t.subrange(22, 22 + c.len() as int) =~= c);
    assert(t.subrange(39, 39 + d.len() as int) =~= d);
    assert(t.subrange(63, 63 + e.len() as int) =~= e);
}

/// The table shows visible hosts one after the other, without a gap, and all of them
/// where they fit; only the one under the cursor stands out.
pub proof fn the_table_shows_the_visible_hosts(v: AppView, height: nat, i: int)
    requires
        0 <= i < v.host_rows(height).len(),
    ensures
        ({
            let row = v.first_row(height) + i;
            &&& 0 <= row < v.visible().len()
            &&& v.hosts_screen(height + 1)[1 + i] == seq![
                host_line(v.findings[v.visible()[row] as int], row == v.result_idx),
            ]
            &&& v.host_rows(height).len() <= height
            &&& v.result_idx < v.visible().len() <= height ==> v.first_row(height) == 0
                && v.host_rows(height).len() == v.visible().len()
        }),
{
    let row = v.first_row(height) + i;
    assert(v.hosts_screen(height + 1)[1 + i] == v.host_rows(height)[i]);
    assert(v.host_rows(height)[i] =~= seq![
        host_line(v.findings[v.visible()[row] as int], row == v.result_idx),
    ]);
}

/// Where no host is visible the table says so, and its title tells how many are.
pub proof fn an_empty_table_says_so(v: AppView, lines: nat)
    ensures
        v.visible().len() == 0 ==> v.hosts_screen(lines).len() == 2,
        v.visible().len() > 0 ==> v.hosts_screen(lines).len() == 1 + v.host_rows(
            if lines == 0 {
                0
            } else {
                (lines - 1) as nat
            },
        ).len(),
        text::contains_text(v.hosts_title(), text::dec(v.visible().len())),
{
    let n = text::dec(v.visible().len());
    let tail = if v.only_flagged {
        ", flagged only"@
    } else {
        ", all"@
    };
    text::a_text_stands_in_itself(n);
    text::what_stands_inside_stands_outside(" hosts ("@, n, tail + ") "@, n, 0);
    assert(" hosts ("@ + n + (tail + ") "@) =~= v.hosts_title());
}

/// The lines about the selected host show its MAC, its vendor and its name, all of its
/// addresses of either kind, its lease, what every flag means and where it was seen.
#[verifier::spinoff_prover]
#[verifier::rlimit(30)]
pub proof fn the_detail_is_complete(v: AppView, f: FindingView)
    requires
        v.selected() == Some(f),
    ensures
        ({
            let lines = v.detail_screen();
            let six = if f.ipv6.len() > 0 {
                1int
            } else {
                0
            };
            let lease = if f.lease is Some {
                1int
            } else {
                0
            };
            let n = f.flags.len() as int;
            &&& lines.len() == 2 + six + lease + n + (if f.sources.len() > 0 {
                1int
            } else {
                0
            })
            &&& lines[0][0].text == f.mac
            &&& f.vendor matches Some(t) ==> lines[0][2].text == t
            &&& f.hostname matches Some(t) ==> lines[0].len() == 4 && text::contains_text(
                lines[0][3].text,
                t,
            )
            &&& f.hostname is None ==> lines[0].len() == 3
            &&& forall|k: int|
                0 <= k < f.ipv4.len() ==> text::contains_text(lines[1][1].text, #[trigger] f.ipv4[k])
            &&& forall|k: int|
                0 <= k < f.ipv6.len() ==> text::contains_text(lines[2][1].text, #[trigger] f.ipv6[k])
            &&& f.lease matches Some(t) ==> lines[2 + six][1].text == t
            &&& forall|k: int|
                0 <= k < n ==> text::starts_with(
                    lines[2 + six + lease + k][0].text,
                    (#[trigger] f.flags[k]).name(),
                ) && lines[2 + six + lease + k][1].text == f.flags[k].meaning()
                    && lines[2 + six + lease + k][0].tone == Tone::Severe(f.flags[k].weight())
            &&& forall|k: int|
                0 <= k < f.sources.len() ==> text::contains_text(
                    lines[2 + six + lease + n][0].text,
                    #[trigger] f.sources[k],
                )
        }),
{
    let lines = v.detail_screen();
    let six = if f.ipv6.len() > 0 {
        1int
    } else {
        0
    };
    let lease = if f.lease is Some {
        1int
    } else {
        0
    };
    let n = f.flags.len() as int;
    if f.hostname is Some {
        let h = f.hostname->0;
        text::a_text_stands_in_itself(h);
        text::what_stands_inside_stands_outside("  «"@, h, "»"@, h, 0);
    }
    let sep = ", "@;
    if f.ipv4.len() > 0 {
        text::joined_texts_contain_each(f.ipv4, sep);
    }
    text::joined_texts_contain_each(f.ipv6, sep);
    assert forall|k: int| 0 <= k < n implies text::starts_with(
        lines[2 + six + lease + k][0].text,
        (#[trigger] f.flags[k]).name(),
    ) && lines[2 + six + lease + k][1].text == f.flags[k].meaning()
        && lines[2 + six + lease + k][0].tone == Tone::Severe(f.flags[k].weight()) by {
        assert(lines[2 + six + lease + k] == detail_flags(f)[k]);
        let name = f.flags[k].name();
        assert((name + " "@).take(name.len() as int) =~= name);
    }
    if f.sources.len() > 0 {
        let all = text::join(f.sources, sep);
        assert(lines[2 + six + lease + n][0].text == "seen via: "@ + all);
        assert("seen via: "@ + all =~= "seen via: "@ + all + Seq::empty());
        assert forall|k: int| 0 <= k < f.sources.len() implies text::contains_text(
            lines[2 + six + lease + n][0].text,
            #[trigger] f.sources[k],
        ) by {
            text::joined_texts_are_all_there(f.sources, sep, k);
            text::what_stands_inside_stands_outside(
                "seen via: "@,
                all,
                Seq::empty(),
                f.sources[k],
                text::start_of(f.sources, sep, k),
            );
        }
    }
}

/// The status line ends with the message, where there is one, or with the keys; in front
/// of that stand the filter, where there is one, and the progress of the scan.
pub proof fn the_status_line_tells(v: AppView, progress: Seq<char>)
    ensures
        ({
            let line = v.status_screen(progress);
            let f = if v.filtering || v.filter is Some {
                2int
            } else {
                0
            };
            let s = if v.scan != ScanState::Absent {
                2int
            } else {
                0
            };
            &&& line.len() == f + s + 1
            &&& v.toast matches Some(t) ==> text::contains_text(line.last().text, t.0)
            &&& v.toast is None ==> line.last().text == key_hints()
            &&& v.filter matches Some(q) ==> text::contains_text(line[0].text, q)
            &&& v.scan != ScanState::Absent ==> line[f].text == progress
        }),
{
    let line = v.status_screen(progress);
    if let Some(t) = v.toast {
        text::a_text_stands_in_itself(t.0);
        text::what_stands_inside_stands_outside("• "@, t.0, Seq::empty(), t.0, 0);
        assert("• "@ + t.0 + Seq::empty() =~= "• "@ + t.0);
    }
    if let Some(q) = v.filter {
        text::a_text_stands_in_itself(q);
        text::what_stands_inside_stands_outside(" filter: "@, q, Seq::empty(), q, 0);
        assert(" filter: "@ + q + Seq::empty() =~= " filter: "@ + q);
        assert(line[0] == v.status_filter()[0]);
    }
}

/// While sweeping, the progress tells how much was sent, of how much, and the share of
/// it; otherwise it tells the phase.
#[verifier::spinoff_prover]
#[verifier::rlimit(30)]
pub proof fn progress_is_told(phase: Phase, sent: u64, total: u64, percent: Seq<char>)
    ensures
        ({
            let t = progress_text(phase, sent, total, percent);
            &&& phase == Phase::Sweep ==> text::contains_text(t, percent) && text::contains_text(
                t,
                text::dec(sent as nat) + seq!['/'] + text::dec(total as nat),
            )
            &&& phase != Phase::Done ==> text::contains_text(t, phase.name())
        }),
{
    let t = progress_text(phase, sent, total, percent);
    let name = phase.name();
    let none = Seq::<char>::empty();
    text::a_text_stands_in_itself(name);
    if phase == Phase::Sweep {
        reveal_strlit("/");
        assert("/"@ =~= seq!['/']);
        let (a, b) = (text::dec(sent as nat), text::dec(total as nat));
        let pair = a + seq!['/'] + b;
        text::a_text_stands_in_itself(percent);
        text::a_text_stands_in_itself(pair);
        let head = " "@ + name + " "@;
        text::what_stands_inside_stands_outside(" "@, name, " "@ + percent + "% ("@ + pair + ")"@, name, 0);
        assert(" "@ + name + (" "@ + percent + "% ("@ + pair + ")"@) =~= t);
        text::what_stands_inside_stands_outside(head, percent, "% ("@ + pair + ")"@, percent, 0);
        assert(head + percent + ("% ("@ + pair + ")"@) =~= t);
        text::what_stands_inside_stands_outside(head + percent + "% ("@, pair, ")"@, pair, 0);
        assert(head + percent + "% ("@ + pair + ")"@ =~= t);
    } else if phase != Phase::Done {
        text::what_stands_inside_stands_outside(" "@, name, "..."@, name, 0);
    }
}

} // verus!
