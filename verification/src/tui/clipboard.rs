//! Clipboard copy over OSC52: works across SSH, with no dependency.
//!
//! The `ESC ] 52 ; c ; <base64> BEL` sequence asks the terminal to put the text
//! on the clipboard. Supported by tmux, kitty, foot, alacritty, wezterm, iTerm2
//! and others. There is no acknowledgement: this is best effort.
use vstd::prelude::*;

verus! {

broadcast use vstd::seq::group_seq_axioms;

/// The character that stands for six bits.
pub open spec fn sextet_char(n: nat) -> char {
    if n < 26 {
        (65 + n) as char
    } else if n < 52 {
        (97 + n - 26) as char
    } else if n < 62 {
        (48 + n - 52) as char
    } else if n == 62 {
        '+'
    } else {
        '/'
    }
}

/// Three bytes as one number, missing ones counting as zero.
pub open spec fn triple(d: Seq<u8>) -> nat {
    let b = if d.len() > 1 {
        d[1] as nat
    } else {
        0
    };
    let c = if d.len() > 2 {
        d[2] as nat
    } else {
        0
    };
    d[0] as nat * 65536 + b * 256 + c
}

/// Four characters for one to three bytes: six bits each, an equals sign for each
/// that a missing byte leaves empty.
pub open spec fn quartet(d: Seq<u8>) -> Seq<char> {
    let n = triple(d);
    seq![
        sextet_char(n / 262144),
        sextet_char(n / 4096 % 64),
        if d.len() > 1 {
            sextet_char(n / 64 % 64)
        } else {
            '='
        },
        if d.len() > 2 {
            sextet_char(n % 64)
        } else {
            '='
        },
    ]
}

/// Standard base64 (RFC 4648): four characters for every three bytes.
pub open spec fn encoded(d: Seq<u8>) -> Seq<char>
    decreases d.len(),
{
    if d.len() == 0 {
        Seq::empty()
    } else if d.len() <= 3 {
        quartet(d)
    } else {
        quartet(d.take(3)) + encoded(d.skip(3))
    }
}

fn sextet(n: u32) -> (c: char)
    requires
        n < 64,
    ensures
        c == sextet_char(n as nat),
{
    if n < 26 {
        (65 + n as u8) as char
    } else if n < 52 {
        (97 + (n as u8 - 26)) as char
    } else if n < 62 {
        (48 + (n as u8 - 52)) as char
    } else if n == 62 {
        '+'
    } else {
        '/'
    }
}

fn push_quartet(out: &mut String, d: &[u8])
    requires
        1 <= d.len() <= 3,
    ensures
        final(out)@ == old(out)@ + quartet(d@),
{
    let b: u32 = if d.len() > 1 {
        d[1] as u32
    } else {
        0
    };
    let c: u32 = if d.len() > 2 {
        d[2] as u32
    } else {
        0
    };
    let n: u32 = d[0] as u32 * 65536 + b * 256 + c;
    out.push(sextet(n / 262144));
    out.push(sextet(n / 4096 % 64));
    out.push(
        if d.len() > 1 {
            sextet(n / 64 % 64)
        } else {
            '='
        },
    );
    out.push(
        if d.len() > 2 {
            sextet(n % 64)
        } else {
            '='
        },
    );
    assert(out@ =~= old(out)@ + quartet(d@));
}

/// Standard base64 (RFC 4648), with no external dependency.
pub fn base64(data: &[u8]) -> (r: String)
    ensures
        r@ == encoded(data@),
{
    let mut out = String::new();
    let mut i: usize = 0;
    assert(data@.skip(0) =~= data@);
    assert(out@ =~= Seq::empty());
    while data.len() - i > 3
        invariant
            i <= data.len(),
            out@ + encoded(data@.skip(i as int)) == encoded(data@),
        decreases data.len() - i,
    {
        let ghost rest = data@.skip(i as int);
        let part: &[u8] = vstd::slice::slice_subrange(data, i, i + 3);
        assert(part@ =~= rest.take(3));
        assert(data@.skip(i + 3) =~= rest.skip(3));
        let ghost before = out@;
        push_quartet(&mut out, part);
        assert(out@ + encoded(rest.skip(3)) =~= before + encoded(rest));
        i = i + 3;
    }
    if i < data.len() {
        let part: &[u8] = vstd::slice::slice_subrange(data, i, data.len());
        assert(part@ =~= data@.skip(i as int));
        push_quartet(&mut out, part);
    } else {
        assert(data@.skip(i as int) =~= Seq::empty());
        assert(out@ + encoded(data@.skip(i as int)) =~= out@);
    }
    out
}

/// The sequence that asks the terminal to put a text on the clipboard.
pub open spec fn osc52(txt: Seq<char>) -> Seq<char> {
    "\x1b]52;c;"@ + encoded(vstd::utf8::encode_utf8(txt)) + "\x07"@
}

/// Writes the sequence that asks the terminal to put a text on the clipboard.
pub fn copy(txt: &str) -> (r: String)
    ensures
        r@ == osc52(txt@),
{
    let mut s = String::new();
    s.append("\x1b]52;c;");
    s.append(base64(txt.as_bytes()).as_str());
    s.append("\x07");
    s
}

// ---------------------------------------------------------------------
// What holds of every encoding
// ---------------------------------------------------------------------

/// The encoding takes four characters for every three bytes begun.
pub proof fn four_for_three(d: Seq<u8>)
    ensures
        encoded(d).len() == (d.len() + 2) / 3 * 4,
    decreases d.len(),
{
    if d.len() > 3 {
        four_for_three(d.skip(3));
    }
}

/// The six bits that a character stands for.
pub open spec fn sextet_value(c: char) -> nat {
    if 'A' <= c && c <= 'Z' {
        (c as nat - 65) as nat
    } else if 'a' <= c && c <= 'z' {
        (c as nat - 97 + 26) as nat
    } else if '0' <= c && c <= '9' {
        (c as nat - 48 + 52) as nat
    } else if c == '+' {
        62
    } else {
        63
    }
}

/// The bytes that four characters stand for: as many as the equals signs leave.
pub open spec fn quartet_value(s: Seq<char>) -> Seq<u8> {
    let n = sextet_value(s[0]) * 262144 + sextet_value(s[1]) * 4096 + (if s[2] == '=' {
        0
    } else {
        sextet_value(s[2])
    }) * 64 + (if s[3] == '=' {
        0
    } else {
        sextet_value(s[3])
    });
    let a = (n / 65536) as u8;
    let b = (n / 256 % 256) as u8;
    let c = (n % 256) as u8;
    if s[2] == '=' {
        seq![a]
    } else if s[3] == '=' {
        seq![a, b]
    } else {
        seq![a, b, c]
    }
}

/// The bytes that a base64 text stands for.
pub open spec fn decoded(s: Seq<char>) -> Seq<u8>
    decreases s.len(),
{
    if s.len() < 4 {
        Seq::empty()
    } else {
        quartet_value(s.take(4)) + decoded(s.skip(4))
    }
}

proof fn lemma_sextet_reads_back(n: nat)
    requires
        n < 64,
    ensures
        sextet_value(sextet_char(n)) == n,
        sextet_char(n) != '=',
{
}

proof fn lemma_sextets_make_up(n: nat)
    requires
        n < 0x100_0000,
    ensures
        n / 262144 < 64,
        n == (n / 262144) * 262144 + (n / 4096 % 64) * 4096 + (n / 64 % 64) * 64 + n % 64,
{
}

proof fn lemma_bytes_make_up(a: nat, b: nat, c: nat)
    requires
        a < 256,
        b < 256,
        c < 256,
    ensures
        ({
            let n = a * 65536 + b * 256 + c;
            &&& n < 0x100_0000
            &&& n / 65536 == a
            &&& n / 256 % 256 == b
            &&& n % 256 == c
            &&& c == 0 ==> n % 64 == 0
            &&& b == 0 && c == 0 ==> n / 64 % 64 == 0
        }),
{
}

proof fn lemma_quartet_reads_back(d: Seq<u8>)
    requires
        1 <= d.len() <= 3,
    ensures
        quartet_value(quartet(d)) == d,
{
    let n = triple(d);
    let b = if d.len() > 1 { d[1] as nat } else { 0 };
    let c = if d.len() > 2 { d[2] as nat } else { 0 };
    lemma_bytes_make_up(d[0] as nat, b, c);
    lemma_sextets_make_up(n);
    lemma_sextet_reads_back(n / 262144);
    lemma_sextet_reads_back(n / 4096 % 64);
    lemma_sextet_reads_back(n / 64 % 64);
    lemma_sextet_reads_back(n % 64);
    assert(quartet_value(quartet(d)) =~= d);
}

/// Whoever decodes what was encoded gets the same bytes back.
pub proof fn base64_reads_back(d: Seq<u8>)
    ensures
        decoded(encoded(d)) == d,
    decreases d.len(),
{
    if d.len() == 0 {
    } else if d.len() <= 3 {
        lemma_quartet_reads_back(d);
        let s = encoded(d);
        assert(s.take(4) =~= s);
        assert(s.skip(4) =~= Seq::empty());
        assert(decoded(s.skip(4)) =~= Seq::empty());
        assert(d + Seq::empty() =~= d);
    } else {
        let head = d.take(3);
        let rest = d.skip(3);
        lemma_quartet_reads_back(head);
        base64_reads_back(rest);
        let s = encoded(d);
        assert(s.take(4) =~= quartet(head));
        assert(s.skip(4) =~= encoded(rest));
        assert(d =~= head + rest);
    }
}

/// The standard alphabet, in the order of the values.
pub open spec fn alphabet() -> Seq<char> {
    "ABCDEFGHIJKLMNOPQRSTUVWXYZabcdefghijklmnopqrstuvwxyz0123456789+/"@
}

/// Every six bits are written as the character in their place of the standard alphabet.
#[verifier::rlimit(40)]
pub proof fn six_bits_are_a_letter(n: nat)
    requires
        n < 64,
    ensures
        sextet_char(n) == alphabet()[n as int],
        alphabet().len() == 64,
{
    reveal_strlit("ABCDEFGHIJKLMNOPQRSTUVWXYZabcdefghijklmnopqrstuvwxyz0123456789+/");
}

/// Three bytes are written from their highest bit to their lowest, six at a time; where
/// one or two are left over, equals signs fill the place.
pub proof fn bits_are_written_in_order(a: u8, b: u8, c: u8)
    ensures
        encoded(seq![a, b, c]) == seq![
            alphabet()[(a / 4) as int],
            alphabet()[(a % 4) * 16 + b / 16],
            alphabet()[(b % 16) * 4 + c / 64],
            alphabet()[(c % 64) as int],
        ],
        encoded(seq![a, b]) == seq![
            alphabet()[(a / 4) as int],
            alphabet()[(a % 4) * 16 + b / 16],
            alphabet()[(b % 16) * 4],
            '=',
        ],
        encoded(seq![a]) == seq![alphabet()[(a / 4) as int], alphabet()[(a % 4) * 16], '=', '='],
{
    lemma_one_byte(a);
    lemma_two_bytes(a, b);
    lemma_three_bytes(a, b, c);
}

proof fn lemma_four_sextets(n: nat, p: nat, q: nat, r: nat, s: nat)
    requires
        n == p * 262144 + q * 4096 + r * 64 + s,
        p < 64,
        q < 64,
        r < 64,
        s < 64,
    ensures
        n / 262144 == p,
        n / 4096 % 64 == q,
        n / 64 % 64 == r,
        n % 64 == s,
{
    assert(n / 64 == p * 4096 + q * 64 + r);
    assert(n / 4096 == p * 64 + q);
}

proof fn lemma_one_byte(a: u8)
    ensures
        encoded(seq![a]) == seq![alphabet()[(a / 4) as int], alphabet()[(a % 4) * 16], '=', '='],
{
    let n = triple(seq![a]);
    assert(n == a as nat * 65536);
    assert(n / 262144 == a as nat / 4);
    assert(n / 4096 % 64 == a as nat % 4 * 16);
    six_bits_are_a_letter(a as nat / 4);
    six_bits_are_a_letter(a as nat % 4 * 16);
}

#[verifier::spinoff_prover]
#[verifier::rlimit(30)]
proof fn lemma_two_bytes(a: u8, b: u8)
    ensures
        encoded(seq![a, b]) == seq![
            alphabet()[(a / 4) as int],
            alphabet()[(a % 4) * 16 + b / 16],
            alphabet()[(b % 16) * 4],
            '=',
        ],
{
    let n = triple(seq![a, b]);
    let (x, y) = (a as nat, b as nat);
    assert(n == x * 65536 + y * 256);
    lemma_four_sextets(n, x / 4, x % 4 * 16 + y / 16, y % 16 * 4, 0);
    six_bits_are_a_letter(x / 4);
    six_bits_are_a_letter(x % 4 * 16 + y / 16);
    six_bits_are_a_letter(y % 16 * 4);
}

#[verifier::spinoff_prover]
#[verifier::rlimit(30)]
proof fn lemma_three_bytes(a: u8, b: u8, c: u8)
    ensures
        encoded(seq![a, b, c]) == seq![
            alphabet()[(a / 4) as int],
            alphabet()[(a % 4) * 16 + b / 16],
            alphabet()[(b % 16) * 4 + c / 64],
            alphabet()[(c % 64) as int],
        ],
{
    let n = triple(seq![a, b, c]);
    let (x, y, z) = (a as nat, b as nat, c as nat);
    assert(n == x * 65536 + y * 256 + z);
    lemma_four_sextets(n, x / 4, x % 4 * 16 + y / 16, y % 16 * 4 + z / 64, z % 64);
    six_bits_are_a_letter(x / 4);
    six_bits_are_a_letter(x % 4 * 16 + y / 16);
    six_bits_are_a_letter(y % 16 * 4 + z / 64);
    six_bits_are_a_letter(z % 64);
}

/// Bytes are written three at a time: what follows three of them follows their four
/// characters.
pub proof fn three_bytes_at_a_time(a: Seq<u8>, b: Seq<u8>)
    requires
        a.len() == 3,
    ensures
        encoded(a + b) == encoded(a) + encoded(b),
{
    assert((a + b).take(3) =~= a);
    assert((a + b).skip(3) =~= b);
    assert(a.take(3) =~= a);
    if b.len() == 0 {
        assert(a + b =~= a);
        assert(encoded(a) + encoded(b) =~= encoded(a));
    }
}

/// What the terminal is sent holds the text and nothing else: between the start of the
/// sequence and its end stands what decodes to the bytes of the text.
pub proof fn the_terminal_gets_the_text(txt: Seq<char>)
    ensures
        ({
            let s = osc52(txt);
            let head = seq!['\x1b', ']', '5', '2', ';', 'c', ';'];
            &&& s.take(7) == head
            &&& s.last() == '\x07'
            &&& decoded(s.subrange(7, s.len() - 1)) == vstd::utf8::encode_utf8(txt)
        }),
{
    reveal_strlit("\x1b]52;c;");
    reveal_strlit("\x07");
    let s = osc52(txt);
    let d = vstd::utf8::encode_utf8(txt);
    base64_reads_back(d);
    assert(s.take(7) =~= seq!['\x1b', ']', '5', '2', ';', 'c', ';']);
    assert(s.subrange(7, s.len() - 1) =~= encoded(d));
}

} // verus!
