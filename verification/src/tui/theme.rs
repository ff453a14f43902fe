//! How things stand out.
use crate::correlate::Severity;
use vstd::prelude::*;

verus! {

/// How a piece of text stands out.
#[derive(Debug, Clone, Copy, PartialEq, Eq, Structural)]
pub enum Tone {
    /// Like any text.
    Plain,
    /// What catches the eye.
    Accent,
    /// What stays in the background.
    Dim,
    /// A heading.
    Bold,
    /// By severity: red for critical, yellow for high, grey otherwise.
    Severe(Severity),
    /// The same, under the cursor.
    Selected(Severity),
}

/// A narrow, predictable marker glyph per severity.
pub open spec fn glyph(sev: Severity) -> Seq<char> {
    match sev {
        Severity::Critical => "●"@,
        Severity::High => "▲"@,
        Severity::Info => "·"@,
    }
}

/// A narrow, predictable marker glyph per severity.
pub fn severity_glyph(sev: Severity) -> (r: &'static str)
    ensures
        r@ == glyph(sev),
{
    match sev {
        Severity::Critical => "●",
        Severity::High => "▲",
        Severity::Info => "·",
    }
}

} // verus!
