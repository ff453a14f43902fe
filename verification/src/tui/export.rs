//! Exports the current findings to timestamped JSON + CSV (the `e` action).
use crate::correlate::{self, Finding, FindingView};
use crate::report;
use crate::text;
use vstd::prelude::*;

verus! {

broadcast use vstd::seq::group_seq_axioms;

/// The name of an exported file, by the seconds since the epoch.
pub open spec fn file_name(stamp: u64, extension: Seq<char>) -> Seq<char> {
    "ipscan-"@ + text::dec(stamp as nat) + extension
}

/// The name of the exported JSON file.
pub fn json_name(stamp: u64) -> (r: String)
    ensures
        r@ == file_name(stamp, ".json"@),
{
    let mut s = String::new();
    s.append("ipscan-");
    text::push_dec(&mut s, stamp);
    s.append(".json");
    s
}

/// The name of the exported CSV file.
pub fn csv_name(stamp: u64) -> (r: String)
    ensures
        r@ == file_name(stamp, ".csv"@),
{
    let mut s = String::new();
    s.append("ipscan-");
    text::push_dec(&mut s, stamp);
    s.append(".csv");
    s
}

/// What the user is told: both names.
pub fn both_names(stamp: u64) -> (r: String)
    ensures
        r@ == file_name(stamp, ".json"@) + " + "@ + file_name(stamp, ".csv"@),
{
    let mut s = json_name(stamp);
    s.append(" + ");
    s.append(csv_name(stamp).as_str());
    s
}

/// Writes one field of a comma-separated line.
pub fn csv_q(s: &str) -> (r: String)
    ensures
        r@ == text::csv_field(s@),
{
    text::csv_quote(s)
}

/// One line of the exported list.
pub open spec fn export_line(f: FindingView) -> Seq<char> {
    f.mac + ","@ + text::csv_field(text::join(f.ipv4, " "@)) + ","@ + text::csv_field(
        report::or_empty(f.vendor),
    ) + ","@ + text::csv_field(report::or_empty(f.hostname)) + ","@ + report::or_empty(f.lease)
        + ","@ + f.severity.name() + ","@ + text::csv_field(
        text::join(report::codes(f.flags), " "@),
    )
}

/// The lines of the exported list, each ended by a line feed.
pub open spec fn export_lines(fs: Seq<FindingView>) -> Seq<char>
    decreases fs.len(),
{
    if fs.len() == 0 {
        "mac,ipv4,vendor,hostname,lease,severity,flags\n"@
    } else {
        export_lines(fs.drop_last()) + export_line(fs.last()) + "\n"@
    }
}

fn write_export_line(x: &Finding) -> (r: String)
    ensures
        r@ == export_line(x@),
{
    let mut s = String::new();
    s.append(x.mac.as_str());
    s.append(",");
    s.append(csv_q(text::join_strings(&x.ipv4, " ").as_str()).as_str());
    s.append(",");
    s.append(csv_q(report::opt_str(&x.vendor)).as_str());
    s.append(",");
    s.append(csv_q(report::opt_str(&x.hostname)).as_str());
    s.append(",");
    s.append(report::opt_str(&x.lease));
    s.append(",");
    s.append(x.severity.label());
    s.append(",");
    s.append(csv_q(report::join_codes(&x.flags).as_str()).as_str());
    s
}

/// Writes the exported comma-separated list.
pub fn csv_text(findings: &Vec<Finding>) -> (r: String)
    ensures
        r@ == export_lines(correlate::finding_views(findings@)),
{
    let ghost fs = correlate::finding_views(findings@);
    let mut s = String::new();
    s.append("mac,ipv4,vendor,hostname,lease,severity,flags\n");
    let mut i: usize = 0;
    assert(fs.take(0) =~= Seq::empty());
    assert(s@ =~= export_lines(fs.take(0)));
    while i < findings.len()
        invariant
            i <= findings.len(),
            fs == correlate::finding_views(findings@),
            s@ == export_lines(fs.take(i as int)),
        decreases findings.len() - i,
    {
        let x: &Finding = &findings[i];
        assert(fs.take(i + 1).drop_last() =~= fs.take(i as int));
        assert(fs.take(i + 1).last() == x@);
        s.append(write_export_line(x).as_str());
        s.append("\n");
        i = i + 1;
    }
    assert(fs.take(findings.len() as int) =~= fs);
    s
}

/// The exported list grows by one line for every finding, ended by a line feed, and
/// never changes what it held before.
pub proof fn every_finding_is_a_line(fs: Seq<FindingView>, f: FindingView)
    ensures
        text::starts_with(export_lines(fs.push(f)), export_lines(fs)),
        export_lines(fs.push(f)).skip(export_lines(fs).len() as int) == export_line(f) + seq!['\n'],
        export_lines(Seq::empty()).last() == '\n',
{
    reveal_strlit("\n");
    reveal_strlit("mac,ipv4,vendor,hostname,lease,severity,flags\n");
    assert("\n"@ =~= seq!['\n']);
    assert(fs.push(f).drop_last() =~= fs);
    let (a, b) = (export_lines(fs), export_lines(fs.push(f)));
    assert(b.take(a.len() as int) =~= a);
    assert(b.skip(a.len() as int) =~= export_line(f) + seq!['\n']);
    assert(export_lines(Seq::empty()) == "mac,ipv4,vendor,hostname,lease,severity,flags\n"@);
}

/// A line of the exported list reads back as seven values: what the device is, what it
/// was seen to have and what is held against it.
pub proof fn an_exported_line_reads_back(f: FindingView) -> (p: Seq<Seq<char>>)
    ensures
        p.len() == 7,
        export_line(f) == text::join(p, seq![',']),
        p[0] == f.mac,
        text::csv_value(p[1]) == text::join(f.ipv4, seq![' ']),
        f.vendor matches Some(v) ==> text::csv_value(p[2]) == v,
        f.vendor is None ==> text::csv_value(p[2]).len() == 0,
        f.hostname matches Some(v) ==> text::csv_value(p[3]) == v,
        f.hostname is None ==> text::csv_value(p[3]).len() == 0,
        f.lease matches Some(v) ==> p[4] == v,
        f.lease is None ==> p[4].len() == 0,
        p[5] == f.severity.name(),
        text::csv_value(p[6]) == text::join(
            Seq::new(f.flags.len(), |k: int| f.flags[k].name()),
            seq![' '],
        ),
{
    reveal_strlit(",");
    reveal_strlit(" ");
    assert(","@ =~= seq![',']);
    assert(" "@ =~= seq![' ']);
    let p = seq![
        f.mac,
        text::csv_field(text::join(f.ipv4, " "@)),
        text::csv_field(report::or_empty(f.vendor)),
        text::csv_field(report::or_empty(f.hostname)),
        report::or_empty(f.lease),
        f.severity.name(),
        text::csv_field(text::join(report::codes(f.flags), " "@)),
    ];
    text::a_field_reads_back(text::join(f.ipv4, " "@));
    text::a_field_reads_back(report::or_empty(f.vendor));
    text::a_field_reads_back(report::or_empty(f.hostname));
    text::a_field_reads_back(text::join(report::codes(f.flags), " "@));
    assert(report::codes(f.flags) =~= Seq::new(f.flags.len(), |k: int| f.flags[k].name()));
    let sep = seq![','];
    lemma_join_step(p, 1, sep);
    lemma_join_step(p, 2, sep);
    lemma_join_step(p, 3, sep);
    lemma_join_step(p, 4, sep);
    lemma_join_step(p, 5, sep);
    lemma_join_step(p, 6, sep);
    assert(p.take(1).drop_last() =~= Seq::empty());
    assert(text::join(p.take(1), sep) =~= p[0]);
    assert(p.take(7) =~= p);
    assert(export_line(f) =~= text::join(p, sep));
    p
}

proof fn lemma_join_step(p: Seq<Seq<char>>, k: int, sep: Seq<char>)
    requires
        0 < k < p.len(),
    ensures
        text::join(p.take(k + 1), sep) == text::join(p.take(k), sep) + sep + p[k],
{
    assert(p.take(k + 1).drop_last() =~= p.take(k));
    assert(p.take(k + 1).last() == p[k]);
}

/// Files of different moments have different names.
pub proof fn moments_have_their_own_files(a: u64, b: u64, extension: Seq<char>)
    requires
        file_name(a, extension) == file_name(b, extension),
    ensures
        a == b,
{
    let (x, y) = (text::dec(a as nat), text::dec(b as nat));
    let head = "ipscan-"@;
    let (s, t) = (file_name(a, extension), file_name(b, extension));
    assert(s.len() == head.len() + x.len() + extension.len());
    assert(t.len() == head.len() + y.len() + extension.len());
    assert(x.len() == y.len());
    assert(s.subrange(head.len() as int, head.len() as int + x.len()) =~= x);
    assert(t.subrange(head.len() as int, head.len() as int + y.len()) =~= y);
    crate::addr::lemma_dec_reads_back(a as nat);
    crate::addr::lemma_dec_reads_back(b as nat);
}

} // verus!
