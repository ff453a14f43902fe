//! Findings as text: the table and the comma-separated list.
use crate::correlate::{self, Finding, FindingView, Flag, FlagView, Severity};
use crate::ordered;
use crate::text;
use vstd::prelude::*;

verus! {

broadcast use vstd::seq::group_seq_axioms;

// ---------------------------------------------------------------------
// Colour
// ---------------------------------------------------------------------

/// Terminal colours, on or off.
#[derive(Debug, Clone, Copy, PartialEq, Eq, Structural)]
pub struct Style {
    pub on: bool,
}

/// The terminal code that a severity is shown in.
pub open spec fn code_of(s: Severity) -> Seq<char> {
    match s {
        Severity::Critical => "1;31"@,
        Severity::High => "1;33"@,
        Severity::Info => "2"@,
    }
}

impl Style {
    /// A text between the sequence that sets a code and the one that resets it;
    /// without colours, the text as it is.
    pub open spec fn painted(self, code: Seq<char>, s: Seq<char>) -> Seq<char> {
        if self.on {
            "\x1b["@ + code + "m"@ + s + "\x1b[0m"@
        } else {
            s
        }
    }

    /// Colours a text.
    pub fn paint(&self, code: &str, s: &str) -> (r: String)
        ensures
            r@ == self.painted(code@, s@),
    {
        if self.on {
            let mut out = String::new();
            out.append("\x1b[");
            out.append(code);
            out.append("m");
            out.append(s);
            out.append("\x1b[0m");
            out
        } else {
            s.to_owned()
        }
    }

    /// Colours a text by severity: bold red, bold yellow, or dim.
    pub fn sev(&self, s: Severity, txt: &str) -> (r: String)
        ensures
            r@ == self.painted(code_of(s), txt@),
    {
        match s {
            Severity::Critical => self.paint("1;31", txt),
            Severity::High => self.paint("1;33", txt),
            Severity::Info => self.paint("2", txt),
        }
    }

    /// Dims a text.
    pub fn dim(&self, s: &str) -> (r: String)
        ensures
            r@ == self.painted("2"@, s@),
    {
        self.paint("2", s)
    }

    /// Makes a text bold.
    pub fn bold(&self, s: &str) -> (r: String)
        ensures
            r@ == self.painted("1"@, s@),
    {
        self.paint("1", s)
    }
}

// ---------------------------------------------------------------------
// Pieces
// ---------------------------------------------------------------------

/// Seconds up to two minutes, minutes up to two hours, hours above.
pub open spec fn secs_text(s: u32) -> Seq<char> {
    if s <= 119 {
        text::dec(s as nat) + "s"@
    } else if s <= 7199 {
        text::dec((s / 60) as nat) + "min"@
    } else {
        text::dec((s / 3600) as nat) + "h"@
    }
}

/// Writes seconds up to two minutes, minutes up to two hours, hours above.
pub fn fmt_secs(s: u32) -> (r: String)
    ensures
        r@ == secs_text(s),
{
    let mut out = String::new();
    if s <= 119 {
        text::push_dec(&mut out, s as u64);
        out.append("s");
    } else if s <= 7199 {
        text::push_dec(&mut out, (s / 60) as u64);
        out.append("min");
    } else {
        text::push_dec(&mut out, (s / 3600) as u64);
        out.append("h");
    }
    out
}

/// Cuts a text to at most `max` characters, marking the cut with an ellipsis.
pub fn truncate(s: &str, max: usize) -> (r: String)
    ensures
        r@ == text::shortened(s@, max as nat),
{
    text::shorten(s, max)
}

/// Writes one field of a comma-separated line.
pub fn q(s: &str) -> (r: String)
    ensures
        r@ == text::csv_field(s@),
{
    text::csv_quote(s)
}

/// The names of flags.
pub open spec fn codes(flags: Seq<FlagView>) -> Seq<Seq<char>> {
    Seq::new(flags.len(), |i: int| flags[i].name())
}

/// The names of flags, a space in between.
pub fn join_codes(flags: &Vec<Flag>) -> (r: String)
    ensures
        r@ == text::join(codes(correlate::flag_views(flags@)), " "@),
{
    let ghost all = correlate::flag_views(flags@);
    let mut names: Vec<String> = Vec::new();
    let mut i: usize = 0;
    assert(text::views(names@) =~= codes(all.take(0)));
    while i < flags.len()
        invariant
            i <= flags.len(),
            all == correlate::flag_views(flags@),
            text::views(names@) == codes(all.take(i as int)),
        decreases flags.len() - i,
    {
        let ghost before = names@;
        names.push(flags[i].code().to_owned());
        assert(text::views(names@) =~= text::views(before).push(flags@[i as int]@.name()));
        assert(codes(all.take(i + 1)) =~= codes(all.take(i as int)).push(flags@[i as int]@.name()));
        i = i + 1;
    }
    assert(all.take(flags.len() as int) =~= all);
    text::join_strings(&names, " ")
}

/// A text, or nothing where there is none.
pub open spec fn or_empty(s: Option<Seq<char>>) -> Seq<char> {
    match s {
        Some(x) => x,
        None => Seq::empty(),
    }
}

/// A text, or nothing where there is none.
pub fn opt_str(s: &Option<String>) -> (r: &str)
    ensures
        r@ == or_empty(text::opt_view(*s)),
{
    match s {
        Some(x) => x.as_str(),
        None => {
            let e = "";
            proof {
                reveal_strlit("");
                assert(e@ =~= Seq::empty());
            }
            e
        },
    }
}

// ---------------------------------------------------------------------
// The table
// ---------------------------------------------------------------------

/// Is a finding shown: flagged, or everything asked for?
pub open spec fn shown_when(show_all: bool) -> spec_fn(FindingView) -> bool {
    |f: FindingView| show_all || f.flags.len() > 0
}

/// The width of the address column: that of the longest list of addresses, in
/// bytes, but at least 4 and at most 40.
pub open spec fn widest(fs: Seq<FindingView>) -> nat
    decreases fs.len(),
{
    if fs.len() == 0 {
        4
    } else {
        let w = widest(fs.drop_last());
        let n = vstd::utf8::encode_utf8(text::join(fs.last().ipv4, ","@)).len();
        if n > w {
            n
        } else {
            w
        }
    }
}

/// The width of the address column.
pub open spec fn ip_width(fs: Seq<FindingView>) -> nat {
    if widest(fs) < 40 {
        widest(fs)
    } else {
        40
    }
}

/// The width of the MAC column.
pub const W_MAC: usize = 17;

/// The width of the vendor column.
pub const W_VENDOR: usize = 28;

/// One line of four columns.
pub open spec fn columns(
    a: Seq<char>,
    b: Seq<char>,
    c: Seq<char>,
    d: Seq<char>,
    w: nat,
) -> Seq<char> {
    text::pad_right(a, W_MAC as nat) + "  "@ + text::pad_right(b, w) + "  "@ + text::pad_right(
        c,
        W_VENDOR as nat,
    ) + "  "@ + d
}

/// A dim line that hangs below a device.
pub open spec fn hanging(st: Style, s: Seq<char>) -> Seq<char> {
    st.painted("2"@, text::repeated(' ', W_MAC as nat) + "  └─ "@ + s)
}

/// The addresses of a device, or a dash.
pub open spec fn ips_text(f: FindingView, sep: Seq<char>) -> Seq<char> {
    if f.ipv4.len() == 0 {
        "—"@
    } else {
        text::join(f.ipv4, sep)
    }
}

/// The vendor of a device, or what can be said without one.
pub open spec fn vendor_text(f: FindingView, local: Seq<char>, unknown: Seq<char>) -> Seq<char> {
    match f.vendor {
        Some(v) => v,
        None => if f.locally_administered {
            local
        } else {
            unknown
        },
    }
}

/// What is said of the lease of a device.
pub open spec fn lease_text(f: FindingView) -> Seq<char> {
    "DHCP lease: "@ + or_empty(f.lease) + (match f.lease_secs {
        Some(s) => " for "@ + secs_text(s),
        None => Seq::empty(),
    }) + (match f.lease_server {
        Some(s) => " from server "@ + s,
        None => Seq::empty(),
    })
}

/// A line, if there is reason for it.
pub open spec fn line_if(b: bool, s: Seq<char>) -> Seq<Seq<char>> {
    if b {
        seq![s]
    } else {
        Seq::empty()
    }
}

/// What the flags of a device mean, a line each.
pub open spec fn flag_lines(st: Style, flags: Seq<FlagView>) -> Seq<Seq<char>> {
    Seq::new(flags.len(), |i: int| hanging(st, flags[i].meaning()))
}

/// The lines about one device.
pub open spec fn finding_lines(st: Style, f: FindingView, w: nat) -> Seq<Seq<char>> {
    seq![
        columns(
            f.mac,
            text::shortened(ips_text(f, ","@), w),
            text::shortened(vendor_text(f, "(local/VM MAC)"@, "(unknown)"@), W_VENDOR as nat),
            st.painted(code_of(f.severity), text::join(codes(f.flags), " "@)),
            w,
        ),
    ] + flag_lines(st, f.flags) + line_if(f.lease is Some, hanging(st, lease_text(f))) + line_if(
        f.hostname is Some,
        hanging(st, "DHCP hostname: "@ + or_empty(f.hostname)),
    ) + line_if(
        f.sources.len() > 0,
        hanging(st, "seen via: "@ + text::join(f.sources, ", "@)),
    )
}

/// The lines about all devices.
pub open spec fn all_lines(st: Style, fs: Seq<FindingView>, w: nat) -> Seq<Seq<char>>
    decreases fs.len(),
{
    if fs.len() == 0 {
        Seq::empty()
    } else {
        all_lines(st, fs.drop_last(), w) + finding_lines(st, fs.last(), w)
    }
}

/// How many of the findings are that bad.
pub open spec fn how_many(fs: Seq<FindingView>, s: Severity) -> nat
    decreases fs.len(),
{
    if fs.len() == 0 {
        0
    } else {
        how_many(fs.drop_last(), s) + (if fs.last().severity == s {
            1nat
        } else {
            0
        })
    }
}

/// The last line of the table.
pub open spec fn summary(total: nat, shown: Seq<FindingView>) -> Seq<char> {
    text::dec(total) + " host(s) inventoried · "@ + text::dec(how_many(shown, Severity::Critical))
        + " critical · "@ + text::dec(how_many(shown, Severity::High)) + " high"@
}

/// What is said where there is nothing to show.
pub open spec fn all_quiet(total: nat) -> Seq<char> {
    "\nNo host looks anomalous. "@ + text::dec(total)
        + " device(s) inventoried — use -a to see them all."@
}

/// The table, line by line.
pub open spec fn table_lines(st: Style, fs: Seq<FindingView>, show_all: bool) -> Seq<Seq<char>> {
    let shown = fs.filter(shown_when(show_all));
    let w = ip_width(shown);
    if shown.len() == 0 {
        seq![all_quiet(fs.len())]
    } else {
        seq![
            Seq::empty(),
            st.painted("1"@, columns("MAC"@, "IPv4"@, "VENDOR"@, "FLAGS"@, w)),
            st.painted("2"@, text::repeated('-', W_MAC as nat + w + W_VENDOR as nat + 24)),
        ] + all_lines(st, shown, w) + seq![Seq::empty(), summary(fs.len(), shown)]
    }
}

fn push_line(out: &mut Vec<String>, s: String)
    ensures
        text::views(final(out)@) == text::views(old(out)@).push(s@),
{
    out.push(s);
    assert(text::views(out@) =~= text::views(old(out)@).push(s@));
}

fn write_columns(a: &str, b: &str, c: &str, d: &str, w: usize) -> (r: String)
    ensures
        r@ == columns(a@, b@, c@, d@, w as nat),
{
    let mut s = String::new();
    text::push_padded(&mut s, a, W_MAC);
    s.append("  ");
    text::push_padded(&mut s, b, w);
    s.append("  ");
    text::push_padded(&mut s, c, W_VENDOR);
    s.append("  ");
    s.append(d);
    s
}

fn write_hanging(st: &Style, txt: &str) -> (r: String)
    ensures
        r@ == hanging(*st, txt@),
{
    let mut s = String::new();
    text::push_repeated(&mut s, ' ', W_MAC);
    s.append("  └─ ");
    s.append(txt);
    st.dim(s.as_str())
}

/// The addresses of a device, or a dash.
pub fn ips_or_dash(f: &Finding, sep: &str) -> (r: String)
    ensures
        r@ == ips_text(f@, sep@),
{
    assert(f@.ipv4.len() == f.ipv4@.len());
    if f.ipv4.len() == 0 {
        "—".to_owned()
    } else {
        text::join_strings(&f.ipv4, sep)
    }
}

/// The vendor of a device, or what can be said without one.
pub fn vendor_or(f: &Finding, local: &str, unknown: &str) -> (r: String)
    ensures
        r@ == vendor_text(f@, local@, unknown@),
{
    match &f.vendor {
        Some(v) => v.clone(),
        None => if f.locally_administered {
            local.to_owned()
        } else {
            unknown.to_owned()
        },
    }
}

fn write_lease(f: &Finding) -> (r: String)
    ensures
        r@ == lease_text(f@),
{
    let mut s = String::new();
    s.append("DHCP lease: ");
    s.append(opt_str(&f.lease));
    if let Some(secs) = f.lease_secs {
        s.append(" for ");
        s.append(fmt_secs(secs).as_str());
    }
    if let Some(srv) = &f.lease_server {
        s.append(" from server ");
        s.append(srv.as_str());
    }
    assert(s@ =~= lease_text(f@));
    s
}

fn push_finding(out: &mut Vec<String>, st: &Style, f: &Finding, w: usize)
    ensures
        text::views(final(out)@) == text::views(old(out)@) + finding_lines(*st, f@, w as nat),
{
    let ghost start = text::views(out@);
    let ghost v = f@;
    let ips = truncate(ips_or_dash(f, ",").as_str(), w);
    let vendor = truncate(vendor_or(f, "(local/VM MAC)", "(unknown)").as_str(), W_VENDOR);
    let marks = st.sev(f.severity, join_codes(&f.flags).as_str());
    push_line(
        out,
        write_columns(f.mac.as_str(), ips.as_str(), vendor.as_str(), marks.as_str(), w),
    );
    let ghost head = text::views(out@);
    let ghost all = v.flags;
    let mut i: usize = 0;
    assert(text::views(out@) =~= head + flag_lines(*st, all.take(0)));
    while i < f.flags.len()
        invariant
            i <= f.flags.len(),
            all == correlate::flag_views(f.flags@),
            text::views(out@) == head + flag_lines(*st, all.take(i as int)),
        decreases f.flags.len() - i,
    {
        push_line(out, write_hanging(st, f.flags[i].explain().as_str()));
        assert(flag_lines(*st, all.take(i + 1)) =~= flag_lines(*st, all.take(i as int)).push(
            hanging(*st, all[i as int].meaning()),
        ));
        i = i + 1;
    }
    assert(all.take(f.flags.len() as int) =~= all);
    let ghost f1 = text::views(out@);
    if f.lease.is_some() {
        push_line(out, write_hanging(st, write_lease(f).as_str()));
    }
    assert(text::views(out@) =~= f1 + line_if(v.lease is Some, hanging(*st, lease_text(v))));
    let ghost f2 = text::views(out@);
    if let Some(h) = &f.hostname {
        let mut s = String::new();
        s.append("DHCP hostname: ");
        s.append(h.as_str());
        push_line(out, write_hanging(st, s.as_str()));
    }
    assert(text::views(out@) =~= f2 + line_if(
        v.hostname is Some,
        hanging(*st, "DHCP hostname: "@ + or_empty(v.hostname)),
    ));
    let ghost f3 = text::views(out@);
    assert(v.sources.len() == f.sources@.len());
    if f.sources.len() > 0 {
        let mut s = String::new();
        s.append("seen via: ");
        s.append(text::join_strings(&f.sources, ", ").as_str());
        push_line(out, write_hanging(st, s.as_str()));
    }
    assert(text::views(out@) =~= f3 + line_if(
        v.sources.len() > 0,
        hanging(*st, "seen via: "@ + text::join(v.sources, ", "@)),
    ));
    assert(text::views(out@) =~= start + finding_lines(*st, v, w as nat));
}

fn pick_shown(findings: &Vec<Finding>, show_all: bool) -> (r: Vec<usize>)
    ensures
        forall|k: int| 0 <= k < r@.len() ==> (#[trigger] r@[k]) < findings@.len(),
        Seq::new(r@.len(), |k: int| findings@[r@[k] as int]@) == correlate::finding_views(
            findings@,
        ).filter(shown_when(show_all)),
{
    let ghost all = correlate::finding_views(findings@);
    let ghost p = shown_when(show_all);
    let mut out: Vec<usize> = Vec::new();
    let mut i: usize = 0;
    proof {
        assert(all.take(0) =~= Seq::empty());
        ordered::lemma_filter_none(all.take(0), p);
        assert(Seq::new(out@.len(), |k: int| findings@[out@[k] as int]@) =~= Seq::empty());
    }
    while i < findings.len()
        invariant
            i <= findings.len(),
            all == correlate::finding_views(findings@),
            p == shown_when(show_all),
            forall|k: int| 0 <= k < out@.len() ==> (#[trigger] out@[k]) < findings@.len(),
            Seq::new(out@.len(), |k: int| findings@[out@[k] as int]@) == all.take(i as int).filter(
                p,
            ),
        decreases findings.len() - i,
    {
        let ghost before = out@;
        proof {
            ordered::lemma_filter_step(all, i as int, p);
            assert(all[i as int] == findings@[i as int]@);
            assert(all[i as int].flags.len() == findings@[i as int].flags@.len());
        }
        if show_all || findings[i].flags.len() > 0 {
            out.push(i);
            assert(Seq::new(out@.len(), |k: int| findings@[out@[k] as int]@) =~= Seq::new(
                before.len(),
                |k: int| findings@[before[k] as int]@,
            ).push(findings@[i as int]@));
        }
        i = i + 1;
    }
    assert(all.take(findings.len() as int) =~= all);
    out
}

fn column_width(findings: &Vec<Finding>, shown: &Vec<usize>) -> (r: usize)
    requires
        forall|k: int| 0 <= k < shown@.len() ==> (#[trigger] shown@[k]) < findings@.len(),
    ensures
        r == ip_width(Seq::new(shown@.len(), |k: int| findings@[shown@[k] as int]@)),
        r <= 40,
{
    let ghost all = Seq::new(shown@.len(), |k: int| findings@[shown@[k] as int]@);
    let mut w: usize = 4;
    let mut i: usize = 0;
    assert(all.take(0) =~= Seq::empty());
    while i < shown.len()
        invariant
            i <= shown.len(),
            all == Seq::new(shown@.len(), |k: int| findings@[shown@[k] as int]@),
            forall|k: int| 0 <= k < shown@.len() ==> (#[trigger] shown@[k]) < findings@.len(),
            w == widest(all.take(i as int)),
        decreases shown.len() - i,
    {
        assert(all.take(i + 1).drop_last() =~= all.take(i as int));
        assert(all.take(i + 1).last() == findings@[shown@[i as int] as int]@);
        let s = text::join_strings(&findings[shown[i]].ipv4, ",");
        let n: usize = s.as_str().as_bytes().len();
        if n > w {
            w = n;
        }
        i = i + 1;
    }
    assert(all.take(shown.len() as int) =~= all);
    if w < 40 {
        w
    } else {
        40
    }
}

fn count_severity(findings: &Vec<Finding>, shown: &Vec<usize>, sev: Severity) -> (r: usize)
    requires
        forall|k: int| 0 <= k < shown@.len() ==> (#[trigger] shown@[k]) < findings@.len(),
    ensures
        r == how_many(Seq::new(shown@.len(), |k: int| findings@[shown@[k] as int]@), sev),
{
    let ghost all = Seq::new(shown@.len(), |k: int| findings@[shown@[k] as int]@);
    let mut n: usize = 0;
    let mut i: usize = 0;
    assert(all.take(0) =~= Seq::empty());
    while i < shown.len()
        invariant
            n <= i <= shown.len(),
            all == Seq::new(shown@.len(), |k: int| findings@[shown@[k] as int]@),
            forall|k: int| 0 <= k < shown@.len() ==> (#[trigger] shown@[k]) < findings@.len(),
            n == how_many(all.take(i as int), sev),
        decreases shown.len() - i,
    {
        assert(all.take(i + 1).drop_last() =~= all.take(i as int));
        assert(all.take(i + 1).last() == findings@[shown@[i as int] as int]@);
        if findings[shown[i]].severity == sev {
            n = n + 1;
        }
        i = i + 1;
    }
    assert(all.take(shown.len() as int) =~= all);
    n
}

/// Writes the table, one string per line.
pub fn table(findings: &Vec<Finding>, show_all: bool, st: Style) -> (r: Vec<String>)
    ensures
        text::views(r@) == table_lines(st, correlate::finding_views(findings@), show_all),
{
    let ghost fs = correlate::finding_views(findings@);
    let shown: Vec<usize> = pick_shown(findings, show_all);
    let ghost sv = Seq::new(shown@.len(), |k: int| findings@[shown@[k] as int]@);
    assert(sv == fs.filter(shown_when(show_all)));
    let mut out: Vec<String> = Vec::new();
    assert(text::views(out@) =~= Seq::empty());
    if shown.len() == 0 {
        let mut s = String::new();
        s.append("\nNo host looks anomalous. ");
        text::push_dec(&mut s, findings.len() as u64);
        s.append(" device(s) inventoried — use -a to see them all.");
        push_line(&mut out, s);
        assert(text::views(out@) =~= seq![all_quiet(fs.len())]);
        return out;
    }
    let w: usize = column_width(findings, &shown);
    push_line(&mut out, String::new());
    let head = write_columns("MAC", "IPv4", "VENDOR", "FLAGS", w);
    push_line(&mut out, st.bold(head.as_str()));
    let mut dashes = String::new();
    text::push_repeated(&mut dashes, '-', W_MAC + w + W_VENDOR + 24);
    push_line(&mut out, st.dim(dashes.as_str()));
    let ghost top = text::views(out@);
    let mut i: usize = 0;
    assert(sv.take(0) =~= Seq::empty());
    assert(top =~= top + all_lines(st, sv.take(0), w as nat));
    while i < shown.len()
        invariant
            i <= shown.len(),
            sv == Seq::new(shown@.len(), |k: int| findings@[shown@[k] as int]@),
            forall|k: int| 0 <= k < shown@.len() ==> (#[trigger] shown@[k]) < findings@.len(),
            text::views(out@) == top + all_lines(st, sv.take(i as int), w as nat),
        decreases shown.len() - i,
    {
        assert(sv.take(i + 1).drop_last() =~= sv.take(i as int));
        assert(sv.take(i + 1).last() == findings@[shown@[i as int] as int]@);
        push_finding(&mut out, &st, &findings[shown[i]], w);
        i = i + 1;
    }
    assert(sv.take(shown.len() as int) =~= sv);
    let crit: usize = count_severity(findings, &shown, Severity::Critical);
    let high: usize = count_severity(findings, &shown, Severity::High);
    push_line(&mut out, String::new());
    let mut s = String::new();
    text::push_dec(&mut s, findings.len() as u64);
    s.append(" host(s) inventoried · ");
    text::push_dec(&mut s, crit as u64);
    s.append(" critical · ");
    text::push_dec(&mut s, high as u64);
    s.append(" high");
    push_line(&mut out, s);
    assert(text::views(out@) =~= table_lines(st, fs, show_all));
    out
}

// ---------------------------------------------------------------------
// Comma-separated
// ---------------------------------------------------------------------

/// One line of the comma-separated list.
pub open spec fn csv_line(f: FindingView) -> Seq<char> {
    f.mac + ","@ + text::csv_field(text::join(f.ipv4, " "@)) + ","@ + text::csv_field(
        text::join(f.ipv6, " "@),
    ) + ","@ + text::csv_field(or_empty(f.vendor)) + ","@ + text::csv_field(or_empty(f.hostname))
        + ","@ + or_empty(f.lease) + ","@ + f.severity.name() + ","@ + text::csv_field(
        text::join(codes(f.flags), " "@),
    ) + ","@ + text::csv_field(text::join(f.sources, " "@))
}

/// The comma-separated list, line by line.
pub open spec fn csv_lines(fs: Seq<FindingView>) -> Seq<Seq<char>> {
    seq!["mac,ipv4,ipv6,vendor,hostname,dhcp_lease,severity,flags,seen_via"@] + Seq::new(
        fs.len(),
        |i: int| csv_line(fs[i]),
    )
}

fn write_csv_line(f: &Finding) -> (r: String)
    ensures
        r@ == csv_line(f@),
{
    let mut s = String::new();
    s.append(f.mac.as_str());
    s.append(",");
    s.append(q(text::join_strings(&f.ipv4, " ").as_str()).as_str());
    s.append(",");
    s.append(q(text::join_strings(&f.ipv6, " ").as_str()).as_str());
    s.append(",");
    s.append(q(opt_str(&f.vendor)).as_str());
    s.append(",");
    s.append(q(opt_str(&f.hostname)).as_str());
    s.append(",");
    s.append(opt_str(&f.lease));
    s.append(",");
    s.append(f.severity.label());
    s.append(",");
    s.append(q(join_codes(&f.flags).as_str()).as_str());
    s.append(",");
    s.append(q(text::join_strings(&f.sources, " ").as_str()).as_str());
    s
}

/// Writes the comma-separated list, one string per line.
pub fn csv(findings: &Vec<Finding>) -> (r: Vec<String>)
    ensures
        text::views(r@) == csv_lines(correlate::finding_views(findings@)),
{
    let ghost fs = correlate::finding_views(findings@);
    let mut out: Vec<String> = Vec::new();
    out.push("mac,ipv4,ipv6,vendor,hostname,dhcp_lease,severity,flags,seen_via".to_owned());
    assert(text::views(out@) =~= csv_lines(fs.take(0)));
    let mut i: usize = 0;
    while i < findings.len()
        invariant
            i <= findings.len(),
            fs == correlate::finding_views(findings@),
            text::views(out@) == csv_lines(fs.take(i as int)),
        decreases findings.len() - i,
    {
        push_line(&mut out, write_csv_line(&findings[i]));
        assert(csv_lines(fs.take(i + 1)) =~= csv_lines(fs.take(i as int)).push(
            csv_line(fs[i as int]),
        ));
        i = i + 1;
    }
    assert(fs.take(findings.len() as int) =~= fs);
    out
}

// ---------------------------------------------------------------------
// Which report
// ---------------------------------------------------------------------

/// How the findings of one pass are reported.
#[derive(Debug, Clone, Copy, PartialEq, Eq, Structural)]
pub enum Output {
    /// A table of what is new, or a line where nothing is.
    Fresh,
    /// JSON.
    Json,
    /// Comma-separated.
    Csv,
    /// A table.
    Table,
}

/// How the findings of one pass are reported: watching comes before JSON, and JSON
/// before comma-separated.
pub fn output_for(watch: bool, json: bool, csv: bool) -> (r: Output)
    ensures
        r == (if watch {
            Output::Fresh
        } else if json {
            Output::Json
        } else if csv {
            Output::Csv
        } else {
            Output::Table
        }),
{
    if watch {
        Output::Fresh
    } else if json {
        Output::Json
    } else if csv {
        Output::Csv
    } else {
        Output::Table
    }
}

/// Is there to be another pass? Only while watching, and until the user stops.
pub fn another_pass(watch: bool, stop: bool) -> (r: bool)
    ensures
        r == (watch && !stop),
{
    watch && !stop
}

// ---------------------------------------------------------------------
// What holds of every report
// ---------------------------------------------------------------------

/// The address cell of a device shows all of its addresses, each whole and in order,
/// the separator between neighbours and nothing else; a dash where there is none.
pub proof fn a_cell_shows_every_address(f: FindingView, sep: Seq<char>, k: int)
    ensures
        f.ipv4.len() == 0 ==> ips_text(f, sep) == seq!['—'],
        f.ipv4.len() > 0 ==> ips_text(f, sep).len() + sep.len() == text::start_of(
            f.ipv4,
            sep,
            f.ipv4.len() as int,
        ),
        0 <= k < f.ipv4.len() ==> text::occurs_at(
            ips_text(f, sep),
            f.ipv4[k],
            text::start_of(f.ipv4, sep, k),
        ),
        0 < k < f.ipv4.len() ==> text::occurs_at(
            ips_text(f, sep),
            sep,
            text::start_of(f.ipv4, sep, k) - sep.len(),
        ),
{
    reveal_strlit("—");
    assert("—"@ =~= seq!['—']);
    text::joined_texts_have_room(f.ipv4, sep);
    if 0 <= k < f.ipv4.len() {
        text::joined_texts_are_all_there(f.ipv4, sep, k);
    }
}

/// The pieces of a line of four columns, each behind the columns in front of it.
proof fn lemma_columns(a: Seq<char>, b: Seq<char>, c: Seq<char>, d: Seq<char>, w: nat)
    requires
        a.len() <= 17,
        b.len() <= w,
        c.len() <= 28,
    ensures
        columns(a, b, c, d, w).len() == 17 + 2 + w + 2 + 28 + 2 + d.len(),
        text::occurs_at(columns(a, b, c, d, w), a, 0),
        text::occurs_at(columns(a, b, c, d, w), b, 19),
        text::occurs_at(columns(a, b, c, d, w), c, 21 + w as int),
        text::occurs_at(columns(a, b, c, d, w), d, 51 + w as int),
{
    reveal_strlit("  ");
    let t = columns(a, b, c, d, w);
    assert(t.len() == 17 + 2 + w + 2 + 28 + 2 + d.len());
    assert(t.subrange(0, a.len() as int) =~= a);
    assert(t.subrange(19, 19 + b.len() as int) =~= b);
    assert(t.subrange(21 + w as int, 21 + w as int + c.len()) =~= c);
    assert(t.subrange(51 + w as int, 51 + w as int + d.len()) =~= d);
}

/// The first line about a device shows its MAC in front, behind that every one of its
/// addresses where the list fits the column, a comma between neighbours.
#[verifier::spinoff_prover]
#[verifier::rlimit(30)]
pub proof fn a_row_shows_every_address(st: Style, f: FindingView, w: nat, k: int)
    requires
        f.mac.len() <= 17,
        w > 0,
        0 <= k < f.ipv4.len(),
        ips_text(f, seq![',']).len() <= w,
    ensures
        ({
            let row = finding_lines(st, f, w)[0];
            let at = 19 + text::start_of(f.ipv4, seq![','], k);
            &&& text::occurs_at(row, f.mac, 0)
            &&& text::occurs_at(row, f.ipv4[k], at)
            &&& k > 0 ==> row[at - 1] == ','
            &&& k == 0 ==> row[at - 1] == ' '
        }),
{
    reveal_strlit(",");
    reveal_strlit("  ");
    assert(","@ =~= seq![',']);
    let sep = seq![','];
    let cell = ips_text(f, sep);
    let row = finding_lines(st, f, w)[0];
    let at = text::start_of(f.ipv4, sep, k);
    lemma_row(st, f, w);
    text::cutting_keeps_the_start(cell, w);
    assert(text::occurs_at(row, cell, 19));
    let front = row.take(19);
    let back = row.skip(19 + cell.len() as int);
    assert(row =~= front + cell + back) by {
        assert(row.subrange(19, 19 + cell.len() as int) =~= cell);
        assert forall|i: int| 19 <= i < 19 + cell.len() implies row[i] == #[trigger] cell[i - 19] by {
            assert(row.subrange(19, 19 + cell.len() as int)[i - 19] == row[i]);
        }
    }
    a_cell_shows_every_address(f, sep, k);
    text::what_stands_inside_stands_outside(front, cell, back, f.ipv4[k], at);
    if k > 0 {
        assert(cell.subrange(at - 1, at)[0] == cell[at - 1]);
        assert(row[18 + at] == cell[at - 1]);
    } else {
        assert(row[18] == ' ');
    }
}

/// What the first line about a device is made of.
proof fn lemma_row(st: Style, f: FindingView, w: nat)
    requires
        f.mac.len() <= 17,
        w > 0,
    ensures
        ({
            let row = finding_lines(st, f, w)[0];
            let b = text::shortened(ips_text(f, ","@), w);
            let c = text::shortened(vendor_text(f, "(local/VM MAC)"@, "(unknown)"@), 28);
            let d = st.painted(code_of(f.severity), text::join(codes(f.flags), " "@));
            &&& row == columns(f.mac, b, c, d, w)
            &&& row.len() == 51 + w + d.len()
            &&& row[18] == ' '
            &&& text::occurs_at(row, f.mac, 0)
            &&& text::occurs_at(row, b, 19)
            &&& text::occurs_at(row, c, 21 + w as int)
            &&& text::occurs_at(row, d, 51 + w as int)
        }),
{
    reveal_strlit("  ");
    let cell = ips_text(f, ","@);
    let v = vendor_text(f, "(local/VM MAC)"@, "(unknown)"@);
    let d = st.painted(code_of(f.severity), text::join(codes(f.flags), " "@));
    text::cutting_keeps_the_start(cell, w);
    text::cutting_keeps_the_start(v, 28);
    lemma_columns(f.mac, text::shortened(cell, w), text::shortened(v, 28), d, w);
}

/// Behind the addresses the first line about a device shows its vendor where the name
/// fits, what can be said without one where there is none, and then every flag.
#[verifier::spinoff_prover]
#[verifier::rlimit(30)]
pub proof fn a_row_shows_vendor_and_flags(st: Style, f: FindingView, w: nat)
    requires
        f.mac.len() <= 17,
        w > 0,
    ensures
        ({
            let row = finding_lines(st, f, w)[0];
            &&& f.vendor matches Some(v) ==> (v.len() <= 28 ==> text::occurs_at(row, v, 21 + w as int))
            &&& f.vendor is None && f.locally_administered ==> text::occurs_at(
                row,
                "(local/VM MAC)"@,
                21 + w as int,
            )
            &&& f.vendor is None && !f.locally_administered ==> text::occurs_at(
                row,
                "(unknown)"@,
                21 + w as int,
            )
            &&& forall|k: int|
                0 <= k < f.flags.len() ==> text::contains_text(row, (#[trigger] f.flags[k]).name())
        }),
{
    reveal_strlit("(local/VM MAC)");
    reveal_strlit("(unknown)");
    let row = finding_lines(st, f, w)[0];
    let v = vendor_text(f, "(local/VM MAC)"@, "(unknown)"@);
    let names = text::join(codes(f.flags), " "@);
    let d = st.painted(code_of(f.severity), names);
    lemma_row(st, f, w);
    text::cutting_keeps_the_start(v, 28);
    text::joined_texts_contain_each(codes(f.flags), " "@);
    let front = row.take(51 + w as int);
    assert(row =~= front + d + Seq::empty()) by {
        assert(row.subrange(51 + w as int, 51 + w as int + d.len()) =~= row.skip(51 + w as int));
        assert(row =~= front + row.skip(51 + w as int));
    }
    assert forall|k: int| 0 <= k < f.flags.len() implies text::contains_text(
        row,
        (#[trigger] f.flags[k]).name(),
    ) by {
        let name = f.flags[k].name();
        assert(codes(f.flags)[k] == name);
        let i = choose|i: int| text::occurs_at(names, name, i);
        lemma_painted(st, code_of(f.severity), names, name, i);
        let j = choose|j: int| text::occurs_at(d, name, j);
        text::what_stands_inside_stands_outside(front, d, Seq::empty(), name, j);
    }
}

/// Colours take nothing away.
proof fn lemma_painted(st: Style, code: Seq<char>, s: Seq<char>, pat: Seq<char>, i: int)
    requires
        text::occurs_at(s, pat, i),
    ensures
        text::contains_text(st.painted(code, s), pat),
{
    if st.on {
        text::what_stands_inside_stands_outside(
            "\x1b["@ + code + "m"@,
            s,
            "\x1b[0m"@,
            pat,
            i,
        );
    }
}

/// Colours take nothing away and, where they are off, add nothing.
pub proof fn colours_change_no_text(st: Style, code: Seq<char>, s: Seq<char>)
    ensures
        text::contains_text(st.painted(code, s), s),
        !st.on ==> st.painted(code, s) == s,
        st.on ==> st.painted(code, s).len() == s.len() + code.len() + 7 && text::starts_with(
            st.painted(code, s),
            seq!['\x1b', '['] + code,
        ),
{
    text::a_text_stands_in_itself(s);
    lemma_painted(st, code, s, s, 0);
    if st.on {
        reveal_strlit("\x1b[");
        reveal_strlit("m");
        reveal_strlit("\x1b[0m");
        assert(st.painted(code, s).take(code.len() as int + 2) =~= seq!['\x1b', '['] + code);
    }
}

proof fn lemma_hanging(st: Style, s: Seq<char>)
    ensures
        forall|pat: Seq<char>, i: int| #[trigger]
            text::occurs_at(s, pat, i) ==> text::contains_text(hanging(st, s), pat),
        text::contains_text(hanging(st, s), s),
{
    let front = text::repeated(' ', 17) + "  └─ "@;
    let all = front + s;
    assert(all =~= front + s + Seq::empty());
    assert forall|pat: Seq<char>, i: int| #[trigger] text::occurs_at(s, pat, i) implies text::contains_text(
        hanging(st, s),
        pat,
    ) by {
        text::what_stands_inside_stands_outside(front, s, Seq::empty(), pat, i);
        lemma_painted(st, "2"@, all, pat, front.len() + i);
    }
    text::a_text_stands_in_itself(s);
}

/// Below the first line about a device stand a line for every flag, in order, with what
/// it means; then one with the lease, one with the host name and one with where it was
/// seen, each exactly where there is one.
#[verifier::spinoff_prover]
#[verifier::rlimit(30)]
pub proof fn a_device_is_told_in_full(st: Style, f: FindingView, w: nat)
    ensures
        ({
            let lines = finding_lines(st, f, w);
            let n = f.flags.len() as int;
            let l = if f.lease is Some {
                1int
            } else {
                0
            };
            let h = if f.hostname is Some {
                1int
            } else {
                0
            };
            let s = if f.sources.len() > 0 {
                1int
            } else {
                0
            };
            &&& lines.len() == 1 + n + l + h + s
            &&& forall|k: int|
                0 <= k < n ==> text::contains_text(lines[1 + k], (#[trigger] f.flags[k]).meaning())
            &&& f.lease matches Some(t) ==> text::contains_text(lines[1 + n], t)
            &&& f.lease is Some ==> (f.lease_secs matches Some(x) ==> text::contains_text(
                lines[1 + n],
                secs_text(x),
            ))
            &&& f.lease is Some ==> (f.lease_server matches Some(t) ==> text::contains_text(
                lines[1 + n],
                t,
            ))
            &&& f.hostname matches Some(t) ==> text::contains_text(lines[1 + n + l], t)
            &&& forall|k: int|
                0 <= k < f.sources.len() ==> text::contains_text(
                    lines[1 + n + l + h],
                    #[trigger] f.sources[k],
                )
        }),
{
    let lines = finding_lines(st, f, w);
    let n = f.flags.len() as int;
    assert forall|k: int| 0 <= k < n implies text::contains_text(
        lines[1 + k],
        (#[trigger] f.flags[k]).meaning(),
    ) by {
        assert(lines[1 + k] == hanging(st, f.flags[k].meaning()));
        lemma_hanging(st, f.flags[k].meaning());
    }
    let l = if f.lease is Some {
        1int
    } else {
        0
    };
    let h = if f.hostname is Some {
        1int
    } else {
        0
    };
    if f.lease is Some {
        let t = lease_text(f);
        assert(lines[1 + n] == hanging(st, t));
        lemma_hanging(st, t);
        lemma_lease_text(f);
    }
    if f.hostname is Some {
        let name = f.hostname->0;
        let t = "DHCP hostname: "@ + name;
        assert(lines[1 + n + l] == hanging(st, t));
        lemma_hanging(st, t);
        text::a_text_stands_in_itself(name);
        assert(t =~= "DHCP hostname: "@ + name + Seq::empty());
        text::what_stands_inside_stands_outside("DHCP hostname: "@, name, Seq::empty(), name, 0);
    }
    if f.sources.len() > 0 {
        let all = text::join(f.sources, ", "@);
        let t = "seen via: "@ + all;
        assert(lines[1 + n + l + h] == hanging(st, t));
        lemma_hanging(st, t);
        assert(t =~= "seen via: "@ + all + Seq::empty());
        assert forall|k: int| 0 <= k < f.sources.len() implies text::contains_text(
            lines[1 + n + l + h],
            #[trigger] f.sources[k],
        ) by {
            text::joined_texts_are_all_there(f.sources, ", "@, k);
            text::what_stands_inside_stands_outside(
                "seen via: "@,
                all,
                Seq::empty(),
                f.sources[k],
                text::start_of(f.sources, ", "@, k),
            );
        }
    }
}

proof fn lemma_lease_text(f: FindingView)
    requires
        f.lease is Some,
    ensures
        exists|i: int| text::occurs_at(lease_text(f), f.lease->0, i),
        f.lease_secs matches Some(x) ==> exists|i: int|
            text::occurs_at(lease_text(f), secs_text(x), i),
        f.lease_server matches Some(t) ==> exists|i: int| text::occurs_at(lease_text(f), t, i),
{
    let head = "DHCP lease: "@;
    let t = f.lease->0;
    let secs = match f.lease_secs {
        Some(s) => " for "@ + secs_text(s),
        None => Seq::empty(),
    };
    let server = match f.lease_server {
        Some(s) => " from server "@ + s,
        None => Seq::empty(),
    };
    let all = lease_text(f);
    assert(all =~= head + t + (secs + server));
    text::a_text_stands_in_itself(t);
    text::what_stands_inside_stands_outside(head, t, secs + server, t, 0);
    if f.lease_secs is Some {
        let x = secs_text(f.lease_secs->0);
        text::a_text_stands_in_itself(x);
        assert(all =~= (head + t + " for "@) + x + server);
        text::what_stands_inside_stands_outside(head + t + " for "@, x, server, x, 0);
    }
    if f.lease_server is Some {
        let x = f.lease_server->0;
        text::a_text_stands_in_itself(x);
        assert(all =~= (head + t + secs + " from server "@) + x + Seq::empty());
        text::what_stands_inside_stands_outside(
            head + t + secs + " from server "@,
            x,
            Seq::empty(),
            x,
            0,
        );
    }
}

/// A duration is told in whole seconds, minutes or hours, rounded down.
pub proof fn durations_are_rounded_down(s: u32, n: nat)
    ensures
        s < 120 ==> secs_text(s) == text::dec(s as nat) + seq!['s'],
        120 <= s < 7200 && n * 60 <= s < n * 60 + 60 ==> secs_text(s) == text::dec(n) + seq![
            'm',
            'i',
            'n',
        ],
        7200 <= s && n * 3600 <= s < n * 3600 + 3600 ==> secs_text(s) == text::dec(n) + seq!['h'],
{
    reveal_strlit("s");
    reveal_strlit("min");
    reveal_strlit("h");
    assert("s"@ =~= seq!['s']);
    assert("min"@ =~= seq!['m', 'i', 'n']);
    assert("h"@ =~= seq!['h']);
}

/// The address column is as wide as the longest list of addresses, but no narrower than
/// its heading and no wider than forty.
pub proof fn the_column_fits_the_longest(fs: Seq<FindingView>)
    ensures
        4 <= ip_width(fs) <= 40,
        forall|i: int|
            0 <= i < fs.len() ==> ip_width(fs) == 40 || vstd::utf8::encode_utf8(
                text::join((#[trigger] fs[i]).ipv4, ","@),
            ).len() <= ip_width(fs),
        ip_width(fs) == 4 || ip_width(fs) == 40 || exists|i: int|
            0 <= i < fs.len() && vstd::utf8::encode_utf8(text::join((#[trigger] fs[i]).ipv4, ","@)).len()
                == ip_width(fs),
{
    lemma_widest(fs);
}

proof fn lemma_widest(fs: Seq<FindingView>)
    ensures
        widest(fs) >= 4,
        forall|i: int|
            0 <= i < fs.len() ==> vstd::utf8::encode_utf8(text::join((#[trigger] fs[i]).ipv4, ","@)).len()
                <= widest(fs),
        widest(fs) == 4 || exists|i: int|
            0 <= i < fs.len() && vstd::utf8::encode_utf8(text::join((#[trigger] fs[i]).ipv4, ","@)).len()
                == widest(fs),
    decreases fs.len(),
{
    if fs.len() > 0 {
        let init = fs.drop_last();
        lemma_widest(init);
        assert forall|i: int| 0 <= i < fs.len() implies vstd::utf8::encode_utf8(
            text::join((#[trigger] fs[i]).ipv4, ","@),
        ).len() <= widest(fs) by {
            if i < init.len() {
                assert(init[i] == fs[i]);
            }
        }
        if widest(fs) == widest(init) && widest(fs) != 4 {
            let i = choose|i: int|
                0 <= i < init.len() && vstd::utf8::encode_utf8(text::join((#[trigger] init[i]).ipv4, ","@)).len()
                    == widest(init);
            assert(fs[i] == init[i]);
        }
        assert(fs.last() == fs[fs.len() - 1]);
    }
}

/// The lines about the devices follow one another in the order of the devices.
pub proof fn devices_are_told_in_order(st: Style, a: Seq<FindingView>, b: Seq<FindingView>, w: nat)
    ensures
        all_lines(st, a + b, w) == all_lines(st, a, w) + all_lines(st, b, w),
    decreases b.len(),
{
    if b.len() == 0 {
        assert(a + b =~= a);
        assert(all_lines(st, a, w) + all_lines(st, b, w) =~= all_lines(st, a, w));
    } else {
        devices_are_told_in_order(st, a, b.drop_last(), w);
        assert((a + b).drop_last() =~= a + b.drop_last());
        assert((a + b).last() == b.last());
        assert(all_lines(st, a + b, w) =~= all_lines(st, a, w) + all_lines(st, b, w));
    }
}

/// Every line about a device stands among the lines about all.
proof fn lemma_lines_of_one(st: Style, fs: Seq<FindingView>, w: nat, i: int, k: int) -> (at: int)
    requires
        0 <= i < fs.len(),
        0 <= k < finding_lines(st, fs[i], w).len(),
    ensures
        0 <= at < all_lines(st, fs, w).len(),
        all_lines(st, fs, w)[at] == finding_lines(st, fs[i], w)[k],
    decreases fs.len(),
{
    let before = all_lines(st, fs.drop_last(), w);
    if i == fs.len() - 1 {
        before.len() as int + k
    } else {
        assert(fs.drop_last()[i] == fs[i]);
        lemma_lines_of_one(st, fs.drop_last(), w, i, k)
    }
}

/// The table holds every line about every device that is flagged, and about every
/// device where all are asked for.
pub proof fn the_table_holds_every_device(
    st: Style,
    fs: Seq<FindingView>,
    show_all: bool,
    i: int,
    k: int,
)
    requires
        0 <= i < fs.len(),
        show_all || fs[i].flags.len() > 0,
    ensures
        ({
            let w = ip_width(fs.filter(shown_when(show_all)));
            0 <= k < finding_lines(st, fs[i], w).len() ==> table_lines(st, fs, show_all).contains(
                finding_lines(st, fs[i], w)[k],
            )
        }),
{
    let p = shown_when(show_all);
    let shown = fs.filter(p);
    let w = ip_width(shown);
    assert(p(fs[i]));
    broadcast use vstd::seq_lib::group_filter_ensures;

    assert(shown.contains(fs[i]));
    let j = choose|j: int| 0 <= j < shown.len() && shown[j] == fs[i];
    if 0 <= k < finding_lines(st, fs[i], w).len() {
        let at = lemma_lines_of_one(st, shown, w, j, k);
        assert(table_lines(st, fs, show_all)[3 + at] == finding_lines(st, fs[i], w)[k]);
    }
}

/// Where no device is flagged, the table says so and how many there are.
pub proof fn nothing_flagged_is_told(st: Style, fs: Seq<FindingView>)
    requires
        forall|i: int| 0 <= i < fs.len() ==> (#[trigger] fs[i]).flags.len() == 0,
    ensures
        table_lines(st, fs, false) == seq![all_quiet(fs.len())],
        text::contains_text(table_lines(st, fs, false)[0], text::dec(fs.len())),
{
    let p = shown_when(false);
    assert forall|i: int| 0 <= i < fs.len() implies !p(#[trigger] fs[i]) by {}
    crate::ordered::lemma_filter_none(fs, p);
    let n = text::dec(fs.len());
    let (a, b) = (
        "\nNo host looks anomalous. "@,
        " device(s) inventoried — use -a to see them all."@,
    );
    text::a_text_stands_in_itself(n);
    text::what_stands_inside_stands_outside(a, n, b, n, 0);
}

/// A device without a flag changes nothing in the table but the number of devices on
/// its last line.
pub proof fn what_is_not_flagged_is_not_shown(st: Style, fs: Seq<FindingView>, f: FindingView)
    requires
        f.flags.len() == 0,
        exists|i: int| 0 <= i < fs.len() && (#[trigger] fs[i]).flags.len() > 0,
    ensures
        table_lines(st, fs.push(f), false).drop_last() == table_lines(st, fs, false).drop_last(),
{
    let p = shown_when(false);
    let i = choose|i: int| 0 <= i < fs.len() && (#[trigger] fs[i]).flags.len() > 0;
    assert(p(fs[i]));
    crate::ordered::lemma_filter_push(fs, f, p);
    assert(!p(f));
    broadcast use vstd::seq_lib::group_filter_ensures;

    assert(fs.filter(p).contains(fs[i]));
    assert(table_lines(st, fs.push(f), false).drop_last() =~= table_lines(st, fs, false).drop_last());
}

/// The last line of the table tells how many devices there are, how many of those shown
/// are critical and how many are high, in that order.
pub proof fn the_last_line_tells_the_numbers(st: Style, fs: Seq<FindingView>, show_all: bool)
    requires
        fs.filter(shown_when(show_all)).len() > 0,
    ensures
        ({
            let shown = fs.filter(shown_when(show_all));
            let n = text::dec(fs.len());
            let c = text::dec(how_many(shown, Severity::Critical));
            let h = text::dec(how_many(shown, Severity::High));
            let last = table_lines(st, fs, show_all).last();
            &&& text::occurs_at(last, n, 0)
            &&& text::occurs_at(last, c, n.len() as int + 23)
            &&& text::occurs_at(last, h, n.len() as int + 23 + c.len() + 12)
        }),
{
    reveal_strlit(" host(s) inventoried · ");
    reveal_strlit(" critical · ");
    reveal_strlit(" high");
    let shown = fs.filter(shown_when(show_all));
    let n = text::dec(fs.len());
    let c = text::dec(how_many(shown, Severity::Critical));
    let h = text::dec(how_many(shown, Severity::High));
    let last = summary(fs.len(), shown);
    assert(table_lines(st, fs, show_all).last() == last);
    assert(last.subrange(0, n.len() as int) =~= n);
    assert(last.subrange(n.len() as int + 23, n.len() as int + 23 + c.len()) =~= c);
    let at = n.len() as int + 23 + c.len() + 12;
    assert(last.subrange(at, at + h.len()) =~= h);
}

/// Counting goes over every device once: of two lists together there are as many as of
/// both.
pub proof fn every_device_counts_once(a: Seq<FindingView>, b: Seq<FindingView>, s: Severity)
    ensures
        how_many(a + b, s) == how_many(a, s) + how_many(b, s),
    decreases b.len(),
{
    if b.len() == 0 {
        assert(a + b =~= a);
    } else {
        every_device_counts_once(a, b.drop_last(), s);
        assert((a + b).drop_last() =~= a + b.drop_last());
        assert((a + b).last() == b.last());
    }
}

/// A device counts for its own severity and for no other, and there is nothing to count
/// where there is no device.
pub proof fn a_device_counts_for_its_severity(f: FindingView, s: Severity)
    ensures
        how_many(Seq::empty(), s) == 0,
        f.severity == s ==> how_many(seq![f], s) == 1,
        f.severity != s ==> how_many(seq![f], s) == 0,
{
    assert(seq![f].drop_last() =~= Seq::empty());
    assert(how_many(Seq::<FindingView>::empty(), s) == 0);
}

/// The comma-separated list has a line for every device behind its head, in order, and
/// each reads back as nine values: what the device is, what it was seen to have and
/// what is held against it.
#[verifier::spinoff_prover]
#[verifier::rlimit(30)]
pub proof fn a_csv_line_reads_back(fs: Seq<FindingView>, i: int) -> (p: Seq<Seq<char>>)
    requires
        0 <= i < fs.len(),
    ensures
        csv_lines(fs).len() == fs.len() + 1,
        p.len() == 9,
        csv_lines(fs)[i + 1] == text::join(p, seq![',']),
        p[0] == fs[i].mac,
        text::csv_value(p[1]) == text::join(fs[i].ipv4, seq![' ']),
        text::csv_value(p[2]) == text::join(fs[i].ipv6, seq![' ']),
        fs[i].vendor matches Some(v) ==> text::csv_value(p[3]) == v,
        fs[i].vendor is None ==> text::csv_value(p[3]).len() == 0,
        fs[i].hostname matches Some(v) ==> text::csv_value(p[4]) == v,
        fs[i].hostname is None ==> text::csv_value(p[4]).len() == 0,
        fs[i].lease matches Some(v) ==> p[5] == v,
        fs[i].lease is None ==> p[5].len() == 0,
        p[6] == fs[i].severity.name(),
        text::csv_value(p[7]) == text::join(
            Seq::new(fs[i].flags.len(), |k: int| fs[i].flags[k].name()),
            seq![' '],
        ),
        text::csv_value(p[8]) == text::join(fs[i].sources, seq![' ']),
{
    let f = fs[i];
    reveal_strlit(",");
    reveal_strlit(" ");
    assert(","@ =~= seq![',']);
    assert(" "@ =~= seq![' ']);
    let p = seq![
        f.mac,
        text::csv_field(text::join(f.ipv4, " "@)),
        text::csv_field(text::join(f.ipv6, " "@)),
        text::csv_field(or_empty(f.vendor)),
        text::csv_field(or_empty(f.hostname)),
        or_empty(f.lease),
        f.severity.name(),
        text::csv_field(text::join(codes(f.flags), " "@)),
        text::csv_field(text::join(f.sources, " "@)),
    ];
    text::a_field_reads_back(text::join(f.ipv4, " "@));
    text::a_field_reads_back(text::join(f.ipv6, " "@));
    text::a_field_reads_back(or_empty(f.vendor));
    text::a_field_reads_back(or_empty(f.hostname));
    text::a_field_reads_back(text::join(codes(f.flags), " "@));
    text::a_field_reads_back(text::join(f.sources, " "@));
    assert(codes(f.flags) =~= Seq::new(f.flags.len(), |k: int| f.flags[k].name()));
    let sep = seq![','];
    lemma_join_step(p, 1, sep);
    lemma_join_step(p, 2, sep);
    lemma_join_step(p, 3, sep);
    lemma_join_step(p, 4, sep);
    lemma_join_step(p, 5, sep);
    lemma_join_step(p, 6, sep);
    lemma_join_step(p, 7, sep);
    lemma_join_step(p, 8, sep);
    assert(p.take(1).drop_last() =~= Seq::empty());
    assert(text::join(p.take(1), sep) =~= p[0]);
    assert(p.take(9) =~= p);
    assert(csv_line(f) =~= text::join(p, sep));
    p
}

proof fn lemma_join_step(p: Seq<Seq<char>>, k: int, sep: Seq<char>)
    requires
        0 < k < p.len(),
    ensures
        text::join(p.take(k + 1), sep) == text::join(p.take(k), sep) + sep + p[k],
{
    assert(p.take(k + 1).drop_last() =~= p.take(k));
    assert(p.take(k + 1).last() == p[k]);
}

/// The three severities are painted in three colours.
pub proof fn severities_have_their_colours(a: Severity, b: Severity)
    requires
        a != b,
    ensures
        code_of(a) != code_of(b),
        code_of(Severity::Critical) == seq!['1', ';', '3', '1'],
        code_of(Severity::High) == seq!['1', ';', '3', '3'],
{
    reveal_strlit("1;31");
    reveal_strlit("1;33");
    reveal_strlit("2");
    assert("1;31"@ =~= seq!['1', ';', '3', '1']);
    assert("1;33"@ =~= seq!['1', ';', '3', '3']);
    assert("1;31"@[3] == '1' && "1;33"@[3] == '3');
    assert("2"@.len() == 1);
}

/// The head of the table names its columns, each above what stands in it, and a rule as
/// long as the columns follows.
pub proof fn the_head_names_the_columns(st: Style, fs: Seq<FindingView>, show_all: bool)
    requires
        fs.filter(shown_when(show_all)).len() > 0,
        !st.on,
    ensures
        ({
            let t = table_lines(st, fs, show_all);
            let w = ip_width(fs.filter(shown_when(show_all))) as int;
            &&& t[0].len() == 0
            &&& text::occurs_at(t[1], "MAC"@, 0)
            &&& text::occurs_at(t[1], "IPv4"@, 19)
            &&& text::occurs_at(t[1], "VENDOR"@, 21 + w)
            &&& text::occurs_at(t[1], "FLAGS"@, 51 + w)
            &&& t[2].len() == w + 69
            &&& forall|i: int| 0 <= i < t[2].len() ==> #[trigger] t[2][i] == '-'
            &&& t[t.len() - 2].len() == 0
        }),
{
    reveal_strlit("MAC");
    reveal_strlit("IPv4");
    reveal_strlit("VENDOR");
    let shown = fs.filter(shown_when(show_all));
    lemma_widest(shown);
    let w = ip_width(shown);
    lemma_columns("MAC"@, "IPv4"@, "VENDOR"@, "FLAGS"@, w);
    let t = table_lines(st, fs, show_all);
    let all = all_lines(st, shown, w);
    assert(t.len() == all.len() + 5);
}

} // verus!
