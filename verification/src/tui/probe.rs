//! One-off probe of a single host (the TUI's `p` action).
//!
//! Sends a single ICMP ping through the system `ping` utility: cheap, needs no
//! extra raw socket, and the Linux `ping` already carries the capability. Good
//! enough to answer "is this host still alive?".
use crate::addr::Ipv4Addr;
use crate::text;
use vstd::prelude::*;

verus! {

broadcast use vstd::seq::group_seq_axioms;

/// The arguments of `ping`: one packet, one second of patience, no names, through
/// the given interface where there is one.
pub open spec fn ping_args(iface: Option<Seq<char>>, ip: Ipv4Addr) -> Seq<Seq<char>> {
    seq!["-c"@, "1"@, "-W"@, "1"@, "-n"@] + (match iface {
        Some(i) => seq!["-I"@, i],
        None => Seq::empty(),
    }) + seq![ip.text()]
}

/// Lists the arguments of `ping`.
pub fn probe_args(iface: &Option<String>, ip: Ipv4Addr) -> (r: Vec<String>)
    ensures
        text::views(r@) == ping_args(text::opt_view(*iface), ip),
{
    let mut v: Vec<String> = Vec::new();
    v.push("-c".to_owned());
    v.push("1".to_owned());
    v.push("-W".to_owned());
    v.push("1".to_owned());
    v.push("-n".to_owned());
    if let Some(i) = iface {
        v.push("-I".to_owned());
        v.push(i.clone());
    }
    v.push(ip.to_string());
    assert(text::views(v@) =~= ping_args(text::opt_view(*iface), ip));
    v
}

/// One ping goes to the address and nowhere else: it is the last argument, and the
/// interface, where there is one, stands behind its own switch.
pub proof fn a_ping_goes_to_the_address(iface: Option<Seq<char>>, ip: Ipv4Addr)
    ensures
        ping_args(iface, ip).last() == ip.text(),
        ping_args(iface, ip).take(5) == seq!["-c"@, "1"@, "-W"@, "1"@, "-n"@],
        iface matches Some(i) ==> ping_args(iface, ip).len() == 8 && ping_args(iface, ip)[5] == "-I"@
            && ping_args(iface, ip)[6] == i,
        iface is None ==> ping_args(iface, ip).len() == 6,
{
    assert(ping_args(iface, ip).take(5) =~= seq!["-c"@, "1"@, "-W"@, "1"@, "-n"@]);
}

} // verus!
