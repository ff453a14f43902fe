//! What can be wrong with a request.
use crate::text;
use vstd::prelude::*;

verus! {

broadcast use vstd::seq::group_seq_axioms;

/// Why a request cannot be served.
#[derive(Debug)]
pub enum Error {
    /// The text is no network in prefix notation.
    InvalidCidr { text: String },
    /// The text names no sender for ARP requests.
    InvalidSpa { text: String },
    /// No interface has that name.
    InterfaceNotFound { name: String },
    /// No interface is up and could be used.
    NoActiveInterface,
    /// The interface has no hardware address.
    NoMac { name: String },
    /// Our own address was asked for as the sender, and there is none.
    NoLocalAddress { name: String },
    /// The range to sweep is empty or no network.
    NoRange,
}

/// An [`Error`] with its text as characters.
pub enum ErrorView {
    InvalidCidr { text: Seq<char> },
    InvalidSpa { text: Seq<char> },
    InterfaceNotFound { name: Seq<char> },
    NoActiveInterface,
    NoMac { name: Seq<char> },
    NoLocalAddress { name: Seq<char> },
    NoRange,
}

impl View for Error {
    type V = ErrorView;

    open spec fn view(&self) -> ErrorView {
        match self {
            Error::InvalidCidr { text } => ErrorView::InvalidCidr { text: text@ },
            Error::InvalidSpa { text } => ErrorView::InvalidSpa { text: text@ },
            Error::InterfaceNotFound { name } => ErrorView::InterfaceNotFound { name: name@ },
            Error::NoActiveInterface => ErrorView::NoActiveInterface,
            Error::NoMac { name } => ErrorView::NoMac { name: name@ },
            Error::NoLocalAddress { name } => ErrorView::NoLocalAddress { name: name@ },
            Error::NoRange => ErrorView::NoRange,
        }
    }
}

impl ErrorView {
    /// What the user is told.
    pub open spec fn message(self) -> Seq<char> {
        match self {
            ErrorView::InvalidCidr { text } => "invalid CIDR "@ + text::debug_quoted(text)
                + ": invalid IP address syntax"@,
            ErrorView::InvalidSpa { text } => "invalid --spa: "@ + text::debug_quoted(text)
                + " (use probe, local, dest, neighbor or an IPv4): invalid IPv4 address syntax"@,
            ErrorView::InterfaceNotFound { name } => "interface "@ + text::debug_quoted(name)
                + " not found"@,
            ErrorView::NoActiveInterface => "no active interface found"@,
            ErrorView::NoMac { name } => "interface "@ + name + " has no MAC (not ethernet?)"@,
            ErrorView::NoLocalAddress { name } => "spa=local requires an IPv4 on interface "@ + name
                + ", which has no address. Use spa=probe (the default), which sweeps with sender 0.0.0.0."@,
            ErrorView::NoRange => "the focused range is empty or has an invalid CIDR"@,
        }
    }
}

impl Error {
    /// What the user is told.
    pub fn message(&self) -> (r: String)
        ensures
            r@ == self@.message(),
    {
        let mut s = String::new();
        match self {
            Error::InvalidCidr { text } => {
                s.append("invalid CIDR ");
                s.append(text::to_debug(text.as_str()).as_str());
                s.append(": invalid IP address syntax");
            },
            Error::InvalidSpa { text } => {
                s.append("invalid --spa: ");
                s.append(text::to_debug(text.as_str()).as_str());
                s.append(
                    " (use probe, local, dest, neighbor or an IPv4): invalid IPv4 address syntax",
                );
            },
            Error::InterfaceNotFound { name } => {
                s.append("interface ");
                s.append(text::to_debug(name.as_str()).as_str());
                s.append(" not found");
            },
            Error::NoActiveInterface => {
                s.append("no active interface found");
            },
            Error::NoMac { name } => {
                s.append("interface ");
                s.append(name.as_str());
                s.append(" has no MAC (not ethernet?)");
            },
            Error::NoLocalAddress { name } => {
                s.append("spa=local requires an IPv4 on interface ");
                s.append(name.as_str());
                s.append(
                    ", which has no address. Use spa=probe (the default), which sweeps with sender 0.0.0.0.",
                );
            },
            Error::NoRange => {
                s.append("the focused range is empty or has an invalid CIDR");
            },
        }
        s
    }
}

/// What is wrong is told by name: the text or the interface that the error is about
/// stands in the message.
pub proof fn errors_tell_the_culprit(e: ErrorView)
    ensures
        e matches ErrorView::InvalidCidr { text } ==> text::contains_text(
            e.message(),
            text::debug_quoted(text),
        ),
        e matches ErrorView::InvalidSpa { text } ==> text::contains_text(
            e.message(),
            text::debug_quoted(text),
        ),
        e matches ErrorView::InterfaceNotFound { name } ==> text::contains_text(
            e.message(),
            text::debug_quoted(name),
        ),
        e matches ErrorView::NoMac { name } ==> text::contains_text(e.message(), name),
        e matches ErrorView::NoLocalAddress { name } ==> text::contains_text(e.message(), name),
{
    match e {
        ErrorView::InvalidCidr { text } => {
            let q = text::debug_quoted(text);
            text::a_text_stands_in_itself(q);
            text::what_stands_inside_stands_outside(
                "invalid CIDR "@,
                q,
                ": invalid IP address syntax"@,
                q,
                0,
            );
        },
        ErrorView::InvalidSpa { text } => {
            let q = text::debug_quoted(text);
            text::a_text_stands_in_itself(q);
            text::what_stands_inside_stands_outside(
                "invalid --spa: "@,
                q,
                " (use probe, local, dest, neighbor or an IPv4): invalid IPv4 address syntax"@,
                q,
                0,
            );
        },
        ErrorView::InterfaceNotFound { name } => {
            let q = text::debug_quoted(name);
            text::a_text_stands_in_itself(q);
            text::what_stands_inside_stands_outside("interface "@, q, " not found"@, q, 0);
        },
        ErrorView::NoMac { name } => {
            text::a_text_stands_in_itself(name);
            text::what_stands_inside_stands_outside(
                "interface "@,
                name,
                " has no MAC (not ethernet?)"@,
                name,
                0,
            );
        },
        ErrorView::NoLocalAddress { name } => {
            text::a_text_stands_in_itself(name);
            text::what_stands_inside_stands_outside(
                "spa=local requires an IPv4 on interface "@,
                name,
                ", which has no address. Use spa=probe (the default), which sweeps with sender 0.0.0.0."@,
                name,
                0,
            );
        },
        _ => {},
    }
}

} // verus!
