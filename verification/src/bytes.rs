//! Fields of a frame: numbers and addresses in network byte order.
use crate::addr::{self, Ipv4Addr, Ipv6Addr, MacAddr};
use vstd::prelude::*;

verus! {

broadcast use vstd::seq::group_seq_axioms;

/// The two bytes at `i` as a number, the first one counting for more.
pub open spec fn word_at(s: Seq<u8>, i: int) -> u16 {
    (s[i] * 256 + s[i + 1]) as u16
}

/// The six bytes at `i` as a hardware address.
pub open spec fn mac_at(s: Seq<u8>, i: int) -> MacAddr {
    MacAddr(s[i], s[i + 1], s[i + 2], s[i + 3], s[i + 4], s[i + 5])
}

/// The four bytes at `i` as an IPv4 address.
pub open spec fn ipv4_at(s: Seq<u8>, i: int) -> Ipv4Addr {
    Ipv4Addr { bits: addr::quad(s[i], s[i + 1], s[i + 2], s[i + 3]) }
}

/// Bytes as one number, the first one counting for most.
pub open spec fn big_endian(s: Seq<u8>) -> nat
    decreases s.len(),
{
    if s.len() == 0 {
        0
    } else {
        big_endian(s.drop_last()) * 256 + s.last() as nat
    }
}

/// The sixteen bytes at `i` as an IPv6 address.
pub open spec fn ipv6_at(s: Seq<u8>, i: int) -> Ipv6Addr {
    Ipv6Addr { bits: big_endian(s.subrange(i, i + 16)) as u128 }
}

/// A number in two bytes.
pub open spec fn word_bytes(n: u16) -> Seq<u8> {
    seq![(n / 256) as u8, (n % 256) as u8]
}

/// A hardware address in six bytes.
pub open spec fn mac_bytes(m: MacAddr) -> Seq<u8> {
    seq![m.0, m.1, m.2, m.3, m.4, m.5]
}

/// An IPv4 address in four bytes.
pub open spec fn ipv4_bytes(ip: Ipv4Addr) -> Seq<u8> {
    seq![ip.octet(0), ip.octet(1), ip.octet(2), ip.octet(3)]
}

/// The low `k` bytes of a number.
pub open spec fn low_bytes(n: nat, k: nat) -> Seq<u8>
    decreases k,
{
    if k == 0 {
        Seq::empty()
    } else {
        low_bytes(n / 256, (k - 1) as nat).push((n % 256) as u8)
    }
}

/// An IPv6 address in sixteen bytes.
pub open spec fn ipv6_bytes(ip: Ipv6Addr) -> Seq<u8> {
    low_bytes(ip.bits as nat, 16)
}

/// Reads two bytes as a number.
pub fn read_word(s: &[u8], i: usize) -> (r: u16)
    requires
        i + 2 <= s.len(),
    ensures
        r == word_at(s@, i as int),
{
    s[i] as u16 * 256 + s[i + 1] as u16
}

/// Reads six bytes as a hardware address.
pub fn read_mac(s: &[u8], i: usize) -> (r: MacAddr)
    requires
        i + 6 <= s.len(),
    ensures
        r == mac_at(s@, i as int),
{
    MacAddr(s[i], s[i + 1], s[i + 2], s[i + 3], s[i + 4], s[i + 5])
}

/// Reads four bytes as an IPv4 address.
pub fn read_ipv4(s: &[u8], i: usize) -> (r: Ipv4Addr)
    requires
        i + 4 <= s.len(),
    ensures
        r == ipv4_at(s@, i as int),
{
    Ipv4Addr::new(s[i], s[i + 1], s[i + 2], s[i + 3])
}

/// The number of values that `k` bytes can take.
pub open spec fn pow256(k: nat) -> nat
    decreases k,
{
    if k == 0 {
        1
    } else {
        256 * pow256((k - 1) as nat)
    }
}

/// Bytes make a number below the number of values they can take.
pub proof fn lemma_big_endian_bound(s: Seq<u8>)
    ensures
        big_endian(s) < pow256(s.len()),
    decreases s.len(),
{
    if s.len() > 0 {
        lemma_big_endian_bound(s.drop_last());
    }
}

proof fn lemma_pow256_values()
    ensures
        pow256(15) == 0x1_000000_00000000_00000000_00000000,
        pow256(16) == 0x1_00000000_00000000_00000000_00000000,
        forall|k: nat| k <= 15 ==> #[trigger] pow256(k) <= pow256(15),
{
    reveal_with_fuel(pow256, 17);
    assert forall|k: nat| k <= 15 implies #[trigger] pow256(k) <= pow256(15) by {
        lemma_pow256_monotone(k, 15);
    }
}

proof fn lemma_pow256_monotone(j: nat, k: nat)
    requires
        j <= k,
    ensures
        1 <= pow256(j) <= pow256(k),
    decreases k,
{
    if k > 0 {
        if j < k {
            lemma_pow256_monotone(j, (k - 1) as nat);
        } else {
            lemma_pow256_monotone((j - 1) as nat, (k - 1) as nat);
        }
    }
}

/// Reads sixteen bytes as an IPv6 address.
pub fn read_ipv6(s: &[u8], i: usize) -> (r: Ipv6Addr)
    requires
        i + 16 <= s.len(),
    ensures
        r == ipv6_at(s@, i as int),
{
    let mut n: u128 = 0;
    let mut k: usize = 0;
    let ghost f = s@.subrange(i as int, i + 16);
    assert(f.take(0) =~= Seq::empty());
    while k < 16
        invariant
            k <= 16,
            i + 16 <= s.len(),
            f == s@.subrange(i as int, i + 16),
            n == big_endian(f.take(k as int)),
        decreases 16 - k,
    {
        assert(f.take(k + 1).drop_last() =~= f.take(k as int));
        assert(f.take(k + 1).last() == s@[i + k]);
        proof {
            lemma_big_endian_bound(f.take(k as int));
            lemma_pow256_values();
        }
        n = n * 256 + s[i + k] as u128;
        k = k + 1;
    }
    assert(f.take(16) =~= f);
    Ipv6Addr { bits: n }
}

/// Appends a number in two bytes.
pub fn push_word(out: &mut Vec<u8>, n: u16)
    ensures
        final(out)@ == old(out)@ + word_bytes(n),
{
    out.push((n / 256) as u8);
    out.push((n % 256) as u8);
}

/// Appends a hardware address.
pub fn push_mac(out: &mut Vec<u8>, m: MacAddr)
    ensures
        final(out)@ == old(out)@ + mac_bytes(m),
{
    out.push(m.0);
    out.push(m.1);
    out.push(m.2);
    out.push(m.3);
    out.push(m.4);
    out.push(m.5);
}

/// Appends an IPv4 address.
pub fn push_ipv4(out: &mut Vec<u8>, ip: Ipv4Addr)
    ensures
        final(out)@ == old(out)@ + ipv4_bytes(ip),
{
    let o: [u8; 4] = ip.octets();
    out.push(o[0]);
    out.push(o[1]);
    out.push(o[2]);
    out.push(o[3]);
}

/// As many bytes as were asked for.
pub proof fn lemma_low_bytes_len(n: nat, k: nat)
    ensures
        low_bytes(n, k).len() == k,
    decreases k,
{
    if k > 0 {
        lemma_low_bytes_len(n / 256, (k - 1) as nat);
    }
}

fn push_low_bytes(out: &mut Vec<u8>, n: u128, k: usize)
    ensures
        final(out)@ == old(out)@ + low_bytes(n as nat, k as nat),
    decreases k,
{
    if k > 0 {
        push_low_bytes(out, n / 256, k - 1);
        out.push((n % 256) as u8);
    }
}

/// Appends an IPv6 address.
pub fn push_ipv6(out: &mut Vec<u8>, ip: Ipv6Addr)
    ensures
        final(out)@ == old(out)@ + ipv6_bytes(ip),
{
    push_low_bytes(out, ip.bits, 16);
}

proof fn lemma_low_bytes_read_back(n: nat, k: nat)
    requires
        n < pow256(k),
    ensures
        low_bytes(n, k).len() == k,
        big_endian(low_bytes(n, k)) == n,
    decreases k,
{
    if k > 0 {
        lemma_low_bytes_read_back(n / 256, (k - 1) as nat);
        let s = low_bytes(n, k);
        assert(s.drop_last() =~= low_bytes(n / 256, (k - 1) as nat));
    }
}

/// A number written in two bytes reads back.
pub proof fn word_reads_back(s: Seq<u8>, i: int, n: u16)
    requires
        0 <= i,
        i + 2 <= s.len(),
        s.subrange(i, i + 2) == word_bytes(n),
    ensures
        word_at(s, i) == n,
{
    assert(s[i] == s.subrange(i, i + 2)[0]);
    assert(s[i + 1] == s.subrange(i, i + 2)[1]);
}

/// A hardware address written in six bytes reads back.
pub proof fn mac_reads_back(s: Seq<u8>, i: int, m: MacAddr)
    requires
        0 <= i,
        i + 6 <= s.len(),
        s.subrange(i, i + 6) == mac_bytes(m),
    ensures
        mac_at(s, i) == m,
{
    let f = s.subrange(i, i + 6);
    assert(s[i] == f[0] && s[i + 1] == f[1] && s[i + 2] == f[2] && s[i + 3] == f[3] && s[i + 4]
        == f[4] && s[i + 5] == f[5]);
}

/// An IPv4 address written in four bytes reads back.
pub proof fn ipv4_bytes_read_back(s: Seq<u8>, i: int, ip: Ipv4Addr)
    requires
        0 <= i,
        i + 4 <= s.len(),
        s.subrange(i, i + 4) == ipv4_bytes(ip),
    ensures
        ipv4_at(s, i) == ip,
{
    let f = s.subrange(i, i + 4);
    assert(s[i] == f[0] && s[i + 1] == f[1] && s[i + 2] == f[2] && s[i + 3] == f[3]);
}

/// An IPv6 address written in sixteen bytes reads back.
pub proof fn ipv6_bytes_read_back(s: Seq<u8>, i: int, ip: Ipv6Addr)
    requires
        0 <= i,
        i + 16 <= s.len(),
        s.subrange(i, i + 16) == ipv6_bytes(ip),
    ensures
        ipv6_at(s, i) == ip,
{
    lemma_pow256_values();
    lemma_low_bytes_read_back(ip.bits as nat, 16);
}

} // verus!
