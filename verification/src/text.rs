//! Text building blocks: characters, numbers, words and lines as mathematical
//! sequences, with the executable functions that compute them.
use vstd::prelude::*;

verus! {

broadcast use vstd::seq::group_seq_axioms;

// ---------------------------------------------------------------------
// Standard library calls
// ---------------------------------------------------------------------

/// `String::push`: appends one character at the end.
pub assume_specification[ String::push ](s: &mut String, c: char)
    ensures
        final(s)@ == old(s)@.push(c),
;

/// `String::pop`: removes the last character and hands it back, or leaves an
/// empty string as it is and answers `None`.
pub assume_specification[ String::pop ](s: &mut String) -> (r: Option<char>)
    ensures
        old(s)@.len() == 0 ==> r is None && final(s)@ == old(s)@,
        old(s)@.len() > 0 ==> r == Some(old(s)@.last()) && final(s)@ == old(s)@.drop_last(),
;

/// The text that `str::to_lowercase` gives: the Unicode lower-case mapping.
pub uninterp spec fn lowercase(s: Seq<char>) -> Seq<char>;

/// Calls `str::to_lowercase`. The Unicode case tables are not restated: the
/// result is the named lower-case form of the argument.
#[verifier::external_body]
pub(crate) fn to_lower(s: &str) -> (r: String)
    ensures
        r@ == lowercase(s@),
{
    s.to_lowercase()
}

/// The text that the `Debug` form of a string shows: quoted and escaped.
pub uninterp spec fn debug_quoted(s: Seq<char>) -> Seq<char>;

/// Formats a string with `{:?}`. The escaping rules of `str`'s `Debug` are not
/// restated: the result is the named quoted form of the argument.
#[verifier::external_body]
pub(crate) fn to_debug(s: &str) -> (r: String)
    ensures
        r@ == debug_quoted(s@),
{
    format!("{:?}", s)
}

// ---------------------------------------------------------------------
// Sequences of strings
// ---------------------------------------------------------------------

/// What a list of strings shows, string by string.
pub open spec fn views(v: Seq<String>) -> Seq<Seq<char>> {
    Seq::new(v.len(), |i: int| v[i]@)
}

/// What an optional string shows.
pub open spec fn opt_view(o: Option<String>) -> Option<Seq<char>> {
    match o {
        Some(s) => Some(s@),
        None => None,
    }
}

/// A copy of an optional string.
pub fn clone_opt(o: &Option<String>) -> (r: Option<String>)
    ensures
        r == *o,
{
    match o {
        Some(s) => Some(s.clone()),
        None => None,
    }
}

/// A copy of a list of strings.
pub fn clone_strings(v: &Vec<String>) -> (r: Vec<String>)
    ensures
        r@ == v@,
{
    let mut out: Vec<String> = Vec::new();
    let mut i: usize = 0;
    while i < v.len()
        invariant
            i <= v.len(),
            out@ == v@.take(i as int),
        decreases v.len() - i,
    {
        out.push(v[i].clone());
        i = i + 1;
    }
    out
}

/// The characters of a string, one by one.
pub fn chars_of(s: &str) -> (r: Vec<char>)
    ensures
        r@ == s@,
{
    let mut v: Vec<char> = Vec::new();
    for c in it: s.chars()
        invariant
            v@ == it.seq().take(it.index() as int),
            it.seq() == s@,
    {
        v.push(c);
    }
    v
}

/// Appends the given characters.
pub fn push_chars(out: &mut String, cs: &[char])
    ensures
        final(out)@ == old(out)@ + cs@,
{
    let mut i: usize = 0;
    while i < cs.len()
        invariant
            i <= cs.len(),
            out@ == old(out)@ + cs@.take(i as int),
        decreases cs.len() - i,
    {
        out.push(cs[i]);
        i = i + 1;
    }
}

/// The string made of the given characters.
pub fn string_of(cs: &[char]) -> (r: String)
    ensures
        r@ == cs@,
{
    let mut s = String::new();
    push_chars(&mut s, cs);
    s
}

/// Are the two texts the same?
pub fn same_text(a: &str, b: &str) -> (r: bool)
    ensures
        r == (a@ == b@),
{
    a.to_owned() == b.to_owned()
}

/// Are the two runs of characters the same?
pub fn same_chars(a: &[char], b: &[char]) -> (r: bool)
    ensures
        r == (a@ == b@),
{
    if a.len() != b.len() {
        return false;
    }
    let mut i: usize = 0;
    while i < a.len()
        invariant
            i <= a.len(),
            a.len() == b.len(),
            forall|j: int| 0 <= j < i ==> a@[j] == b@[j],
        decreases a.len() - i,
    {
        if a[i] != b[i] {
            return false;
        }
        i = i + 1;
    }
    assert(a@ =~= b@);
    true
}

// ---------------------------------------------------------------------
// Numbers
// ---------------------------------------------------------------------

/// The decimal digit for a value below ten.
pub open spec fn digit_char(d: nat) -> char {
    (d + 48) as char
}

/// The usual decimal notation, with no leading zeros.
pub open spec fn dec(n: nat) -> Seq<char>
    decreases n,
{
    if n < 10 {
        seq![digit_char(n)]
    } else {
        dec(n / 10).push(digit_char(n % 10))
    }
}

/// Decimal notation on at least two places.
pub open spec fn dec2(n: nat) -> Seq<char> {
    if n < 10 {
        seq!['0'] + dec(n)
    } else {
        dec(n)
    }
}

/// Appends the decimal notation of a number.
pub fn push_dec(out: &mut String, n: u64)
    ensures
        final(out)@ == old(out)@ + dec(n as nat),
    decreases n,
{
    if n >= 10 {
        push_dec(out, n / 10);
    }
    let d: u8 = (n % 10) as u8;
    out.push((d + 48u8) as char);
}

/// Appends the decimal notation of a number on at least two places.
pub fn push_dec2(out: &mut String, n: u64)
    ensures
        final(out)@ == old(out)@ + dec2(n as nat),
{
    if n < 10 {
        out.push('0');
    }
    push_dec(out, n);
}

/// A number in decimal notation.
pub fn dec_string(n: u64) -> (r: String)
    ensures
        r@ == dec(n as nat),
{
    let mut s = String::new();
    push_dec(&mut s, n);
    s
}

/// The hexadecimal digit of a value below sixteen, letters in lower case.
pub open spec fn hex_lower(d: nat) -> char {
    if d < 10 {
        (d + 48) as char
    } else {
        (d + 87) as char
    }
}

/// The hexadecimal digit of a value below sixteen, letters in upper case.
pub open spec fn hex_upper(d: nat) -> char {
    if d < 10 {
        (d + 48) as char
    } else {
        (d + 55) as char
    }
}

/// A byte as two lower-case hexadecimal digits.
pub open spec fn hex2_lower(b: u8) -> Seq<char> {
    seq![hex_lower((b / 16) as nat), hex_lower((b % 16) as nat)]
}

/// A byte as two upper-case hexadecimal digits.
pub open spec fn hex2_upper(b: u8) -> Seq<char> {
    seq![hex_upper((b / 16) as nat), hex_upper((b % 16) as nat)]
}

fn lower_digit(d: u8) -> (c: char)
    requires
        d < 16,
    ensures
        c == hex_lower(d as nat),
{
    if d < 10 {
        (d + 48u8) as char
    } else {
        (d + 87u8) as char
    }
}

fn upper_digit(d: u8) -> (c: char)
    requires
        d < 16,
    ensures
        c == hex_upper(d as nat),
{
    if d < 10 {
        (d + 48u8) as char
    } else {
        (d + 55u8) as char
    }
}

/// Appends a byte as two lower-case hexadecimal digits.
pub fn push_hex_lower(out: &mut String, b: u8)
    ensures
        final(out)@ == old(out)@ + hex2_lower(b),
{
    out.push(lower_digit(b / 16));
    out.push(lower_digit(b % 16));
}

/// Appends a byte as two upper-case hexadecimal digits.
pub fn push_hex_upper(out: &mut Vec<char>, b: u8)
    ensures
        final(out)@ == old(out)@ + hex2_upper(b),
{
    out.push(upper_digit(b / 16));
    out.push(upper_digit(b % 16));
}

/// Is the character a decimal digit?
pub open spec fn is_digit(c: char) -> bool {
    '0' <= c && c <= '9'
}

/// The value of a run of decimal digits.
pub open spec fn digits_value(s: Seq<char>) -> nat
    decreases s.len(),
{
    if s.len() == 0 {
        0
    } else {
        digits_value(s.drop_last()) * 10 + (s.last() as nat - 48) as nat
    }
}

/// Are all the characters decimal digits?
pub open spec fn all_digits(s: Seq<char>) -> bool {
    forall|i: int| 0 <= i < s.len() ==> is_digit(#[trigger] s[i])
}

/// An unsigned integer as the standard parser reads it: an optional `+`, then
/// one digit or more, with a value no greater than `max`.
pub open spec fn parse_uint(s: Seq<char>, max: nat) -> Option<nat> {
    let d = if s.len() > 0 && s[0] == '+' { s.skip(1) } else { s };
    if d.len() > 0 && all_digits(d) && digits_value(d) <= max {
        Some(digits_value(d))
    } else {
        None
    }
}

proof fn lemma_digits_value_grows(s: Seq<char>, n: int)
    requires
        0 <= n <= s.len(),
        all_digits(s),
    ensures
        digits_value(s.take(n)) <= digits_value(s),
    decreases s.len(),
{
    if n == s.len() {
        assert(s.take(n) =~= s);
    } else {
        assert(s.drop_last().take(n) =~= s.take(n));
        lemma_digits_value_grows(s.drop_last(), n);
    }
}

/// The value of a run of digits, or `None` where a character is no digit or the
/// value passes `max`.
pub fn read_digits(cs: &[char], max: u64) -> (r: Option<u64>)
    ensures
        r is Some <==> all_digits(cs@) && digits_value(cs@) <= max,
        r is Some ==> r->0 == digits_value(cs@),
{
    let mut n: u64 = 0;
    let mut i: usize = 0;
    while i < cs.len()
        invariant
            i <= cs.len(),
            all_digits(cs@.take(i as int)),
            n == digits_value(cs@.take(i as int)),
            n <= max,
        decreases cs.len() - i,
    {
        let c = cs[i];
        if !('0' <= c && c <= '9') {
            assert(!is_digit(cs@[i as int]));
            return None;
        }
        let d: u64 = (c as u32 - 48) as u64;
        let ghost next = cs@.take(i + 1);
        assert(next.drop_last() =~= cs@.take(i as int));
        assert(digits_value(next) == n * 10 + d);
        assert(all_digits(next)) by {
            assert forall|j: int| 0 <= j < next.len() implies is_digit(#[trigger] next[j]) by {
                if j < i {
                    assert(next[j] == cs@.take(i as int)[j]);
                }
            }
        }
        if d > max || n > (max - d) / 10 {
            proof {
                if all_digits(cs@) {
                    lemma_digits_value_grows(cs@, i + 1);
                }
            }
            return None;
        }
        n = n * 10 + d;
        i = i + 1;
    }
    assert(cs@.take(cs.len() as int) =~= cs@);
    Some(n)
}

/// Reads an unsigned integer no greater than `max`.
pub fn read_uint(cs: &[char], max: u64) -> (r: Option<u64>)
    ensures
        r is Some <==> parse_uint(cs@, max as nat) is Some,
        r is Some ==> r->0 == parse_uint(cs@, max as nat)->0,
{
    let d: &[char] = if cs.len() > 0 && cs[0] == '+' {
        vstd::slice::slice_subrange(cs, 1, cs.len())
    } else {
        cs
    };
    assert(cs@.len() > 0 ==> cs@.subrange(1, cs@.len() as int) == cs@.skip(1));
    if d.len() == 0 {
        None
    } else {
        read_digits(d, max)
    }
}

// ---------------------------------------------------------------------
// Pieces between separators
// ---------------------------------------------------------------------

/// The pieces of a text between the occurrences of a character.
pub open spec fn split(s: Seq<char>, c: char) -> Seq<Seq<char>>
    decreases s.len(),
{
    if s.len() == 0 {
        seq![Seq::empty()]
    } else {
        let p = split(s.drop_last(), c);
        if s.last() == c {
            p.push(Seq::empty())
        } else {
            p.drop_last().push(p.last().push(s.last()))
        }
    }
}

/// A text without the separator is one piece.
pub proof fn lemma_one_piece(s: Seq<char>, c: char)
    requires
        !s.contains(c),
    ensures
        split(s, c) == seq![s],
    decreases s.len(),
{
    if s.len() > 0 {
        let h = s.drop_last();
        assert forall|i: int| 0 <= i < h.len() implies h[i] != c by {
            assert(s[i] == h[i]);
        }
        assert(s.last() == s[s.len() - 1]);
        lemma_one_piece(h, c);
        assert(h.push(s.last()) =~= s);
        assert(split(s, c) =~= seq![s]);
    } else {
        assert(s =~= Seq::empty());
        assert(split(s, c) =~= seq![s]);
    }
}

/// A separator and a text without one add one piece.
pub proof fn lemma_another_piece(s: Seq<char>, c: char, t: Seq<char>)
    requires
        !t.contains(c),
    ensures
        split(s + seq![c] + t, c) == split(s, c).push(t),
    decreases t.len(),
{
    let all = s + seq![c] + t;
    if t.len() == 0 {
        assert(t =~= Seq::empty());
        assert(all.drop_last() =~= s);
        assert(split(all, c) =~= split(s, c).push(t));
    } else {
        let h = t.drop_last();
        assert forall|i: int| 0 <= i < h.len() implies h[i] != c by {
            assert(t[i] == h[i]);
        }
        assert(t.last() == t[t.len() - 1]);
        lemma_another_piece(s, c, h);
        assert(all.drop_last() =~= s + seq![c] + h);
        assert(h.push(t.last()) =~= t);
        assert(split(s, c).push(h).drop_last() =~= split(s, c));
        assert(split(all, c) =~= split(s, c).push(t));
    }
}

/// A number of at most so many digits and at most so large.
pub open spec fn short_number(s: Seq<char>, digits: nat, max: nat) -> Option<nat> {
    if 1 <= s.len() <= digits && all_digits(s) && digits_value(s) <= max {
        Some(digits_value(s))
    } else {
        None
    }
}

/// Is the character a hexadecimal digit?
pub open spec fn is_hex_digit(c: char) -> bool {
    is_digit(c) || 'a' <= c <= 'f' || 'A' <= c <= 'F'
}

/// The value of a hexadecimal digit.
pub open spec fn hex_digit_value(c: char) -> nat {
    if is_digit(c) {
        (c as nat - 48) as nat
    } else if c <= 'F' {
        (c as nat - 55) as nat
    } else {
        (c as nat - 87) as nat
    }
}

/// The value of a run of hexadecimal digits.
pub open spec fn hex_value(s: Seq<char>) -> nat
    decreases s.len(),
{
    if s.len() == 0 {
        0
    } else {
        hex_value(s.drop_last()) * 16 + hex_digit_value(s.last())
    }
}

/// A byte as the standard parser reads it in base sixteen: an optional `+`, then one
/// digit or more, with a value that a byte can have.
pub open spec fn hex_byte(s: Seq<char>) -> Option<u8> {
    let d = if s.len() > 0 && s[0] == '+' { s.skip(1) } else { s };
    if d.len() > 0 && (forall|i: int| 0 <= i < d.len() ==> is_hex_digit(#[trigger] d[i])) && hex_value(
        d,
    ) <= 255 {
        Some(hex_value(d) as u8)
    } else {
        None
    }
}

/// Two hexadecimal digits read back as the byte that they show.
pub proof fn lemma_hex_reads_back(b: u8)
    ensures
        hex_byte(hex2_lower(b)) == Some(b),
        !hex2_lower(b).contains(':'),
{
    let s = hex2_lower(b);
    let (h, l) = ((b / 16) as nat, (b % 16) as nat);
    assert(hex_digit_value(hex_lower(h)) == h && is_hex_digit(hex_lower(h)));
    assert(hex_digit_value(hex_lower(l)) == l && is_hex_digit(hex_lower(l)));
    assert(s.drop_last() =~= seq![hex_lower(h)]);
    assert(s.drop_last().drop_last() =~= Seq::empty());
    assert(hex_value(s.drop_last().drop_last()) == 0);
    assert(hex_value(s.drop_last()) == h);
    assert(hex_value(s) == h * 16 + l);
    assert forall|i: int| 0 <= i < s.len() implies is_hex_digit(#[trigger] s[i]) && s[i] != ':' by {
        if i == 0 {
            assert(s[i] == hex_lower(h));
        } else {
            assert(s[i] == hex_lower(l));
        }
    }
}

// ---------------------------------------------------------------------
// Padding, joining, quoting
// ---------------------------------------------------------------------

/// A run of one character.
pub open spec fn repeated(c: char, n: nat) -> Seq<char> {
    Seq::new(n, |i: int| c)
}

/// Left-aligned in a field of at least `w` characters.
pub open spec fn pad_right(s: Seq<char>, w: nat) -> Seq<char> {
    s + repeated(' ', if s.len() < w { (w - s.len()) as nat } else { 0 })
}

/// Appends a run of one character.
pub fn push_repeated(out: &mut String, c: char, n: usize)
    ensures
        final(out)@ == old(out)@ + repeated(c, n as nat),
{
    let mut i: usize = 0;
    while i < n
        invariant
            i <= n,
            out@ == old(out)@ + repeated(c, i as nat),
        decreases n - i,
    {
        out.push(c);
        i = i + 1;
    }
}

/// Appends a text left-aligned in a field of at least `w` characters.
pub fn push_padded(out: &mut String, s: &str, w: usize)
    ensures
        final(out)@ == old(out)@ + pad_right(s@, w as nat),
{
    let n: usize = s.unicode_len();
    out.append(s);
    if n < w {
        push_repeated(out, ' ', w - n);
    } else {
        assert(repeated(' ', 0) =~= Seq::empty());
    }
}

/// The texts one after the other, with a separator in between.
pub open spec fn join(list: Seq<Seq<char>>, sep: Seq<char>) -> Seq<char>
    decreases list.len(),
{
    if list.len() == 0 {
        Seq::empty()
    } else if list.len() == 1 {
        list[0]
    } else {
        join(list.drop_last(), sep) + sep + list.last()
    }
}

/// The strings one after the other, with a separator in between.
pub fn join_strings(list: &Vec<String>, sep: &str) -> (r: String)
    ensures
        r@ == join(views(list@), sep@),
{
    let mut out = String::new();
    let mut i: usize = 0;
    while i < list.len()
        invariant
            i <= list.len(),
            out@ == join(views(list@).take(i as int), sep@),
        decreases list.len() - i,
    {
        let ghost next = views(list@).take(i + 1);
        assert(next.drop_last() =~= views(list@).take(i as int));
        if i > 0 {
            out.append(sep);
        }
        out.append(list[i].as_str());
        i = i + 1;
    }
    assert(views(list@).take(list.len() as int) =~= views(list@));
    out
}

/// A text with every double quote written twice.
pub open spec fn doubled_quotes(s: Seq<char>) -> Seq<char>
    decreases s.len(),
{
    if s.len() == 0 {
        Seq::empty()
    } else if s.last() == '"' {
        doubled_quotes(s.drop_last()).push('"').push('"')
    } else {
        doubled_quotes(s.drop_last()).push(s.last())
    }
}

/// One field of a comma-separated line: quoted when it holds a comma or a
/// double quote, as it is otherwise.
pub open spec fn csv_field(s: Seq<char>) -> Seq<char> {
    if s.contains(',') || s.contains('"') {
        seq!['"'] + doubled_quotes(s) + seq!['"']
    } else {
        s
    }
}

/// Does the text hold the character?
pub fn has_char(cs: &[char], c: char) -> (r: bool)
    ensures
        r == cs@.contains(c),
{
    let mut i: usize = 0;
    while i < cs.len()
        invariant
            i <= cs.len(),
            forall|j: int| 0 <= j < i ==> cs@[j] != c,
        decreases cs.len() - i,
    {
        if cs[i] == c {
            assert(cs@[i as int] == c);
            return true;
        }
        i = i + 1;
    }
    false
}

/// Writes one field of a comma-separated line.
pub fn csv_quote(s: &str) -> (r: String)
    ensures
        r@ == csv_field(s@),
{
    let cs: Vec<char> = chars_of(s);
    if !has_char(&cs, ',') && !has_char(&cs, '"') {
        return s.to_owned();
    }
    let mut out = String::new();
    out.push('"');
    let mut i: usize = 0;
    while i < cs.len()
        invariant
            i <= cs.len(),
            out@ == seq!['"'] + doubled_quotes(cs@.take(i as int)),
        decreases cs.len() - i,
    {
        assert(cs@.take(i + 1).drop_last() =~= cs@.take(i as int));
        if cs[i] == '"' {
            out.push('"');
        }
        out.push(cs[i]);
        i = i + 1;
    }
    assert(cs@.take(cs.len() as int) =~= s@);
    out.push('"');
    out
}

/// The text with each double quote and the one before it taken for one.
pub open spec fn halved_quotes(s: Seq<char>) -> Seq<char>
    decreases s.len(),
{
    if s.len() == 0 {
        Seq::empty()
    } else if s.last() == '"' && s.len() >= 2 {
        halved_quotes(s.take(s.len() - 2)).push('"')
    } else {
        halved_quotes(s.drop_last()).push(s.last())
    }
}

/// What a field of a comma-separated line stands for.
pub open spec fn csv_value(t: Seq<char>) -> Seq<char> {
    if t.len() >= 2 && t[0] == '"' {
        halved_quotes(t.subrange(1, t.len() - 1))
    } else {
        t
    }
}

proof fn lemma_quotes_read_back(s: Seq<char>)
    ensures
        halved_quotes(doubled_quotes(s)) == s,
    decreases s.len(),
{
    let d = doubled_quotes(s);
    if s.len() > 0 {
        let before = doubled_quotes(s.drop_last());
        lemma_quotes_read_back(s.drop_last());
        if s.last() == '"' {
            assert(d.take(d.len() - 2) =~= before);
        } else {
            assert(d.drop_last() =~= before);
        }
        assert(halved_quotes(d) =~= s);
    }
}

/// Whoever reads a field of a comma-separated line gets the text back.
pub proof fn a_field_reads_back(s: Seq<char>)
    ensures
        csv_value(csv_field(s)) == s,
{
    let t = csv_field(s);
    if s.contains(',') || s.contains('"') {
        lemma_quotes_read_back(s);
        assert(t.subrange(1, t.len() - 1) =~= doubled_quotes(s));
    } else if s.len() > 0 {
        assert(s[0] != '"');
    }
}

/// At most `max` characters: a longer text loses its end to an ellipsis.
pub open spec fn shortened(s: Seq<char>, max: nat) -> Seq<char> {
    if s.len() <= max {
        s
    } else {
        s.take(if max == 0 { 0 } else { max - 1 }).push('\u{2026}')
    }
}

/// Cuts a text to at most `max` characters, marking the cut with an ellipsis.
pub fn shorten(s: &str, max: usize) -> (r: String)
    ensures
        r@ == shortened(s@, max as nat),
{
    let cs: Vec<char> = chars_of(s);
    if cs.len() <= max {
        return s.to_owned();
    }
    let keep: usize = if max == 0 { 0 } else { max - 1 };
    let mut out = string_of(vstd::slice::slice_subrange(cs.as_slice(), 0, keep));
    assert(cs@.subrange(0, keep as int) == s@.take(keep as int));
    out.push('\u{2026}');
    out
}

// ---------------------------------------------------------------------
// Order and search
// ---------------------------------------------------------------------

/// Strictly before in the order of code points, character by character.
pub open spec fn text_before(a: Seq<char>, b: Seq<char>) -> bool
    decreases a.len(),
{
    if b.len() == 0 {
        false
    } else if a.len() == 0 {
        true
    } else {
        a[0] < b[0] || (a[0] == b[0] && text_before(a.drop_first(), b.drop_first()))
    }
}

/// Compares two texts in the order of code points.
pub fn is_before(a: &str, b: &str) -> (r: bool)
    ensures
        r == text_before(a@, b@),
{
    let x: Vec<char> = chars_of(a);
    let y: Vec<char> = chars_of(b);
    let mut i: usize = 0;
    assert(x@.skip(0) =~= a@ && y@.skip(0) =~= b@);
    while i < x.len() && i < y.len()
        invariant
            i <= x.len(),
            i <= y.len(),
            text_before(x@.skip(i as int), y@.skip(i as int)) == text_before(a@, b@),
        decreases x.len() - i,
    {
        if x[i] != y[i] {
            return x[i] < y[i];
        }
        assert(x@.skip(i as int).drop_first() =~= x@.skip(i + 1));
        assert(y@.skip(i as int).drop_first() =~= y@.skip(i + 1));
        i = i + 1;
    }
    i < y.len()
}

/// Two different texts are ordered one way or the other, never both.
pub proof fn lemma_text_order_total(a: Seq<char>, b: Seq<char>)
    ensures
        a == b <==> !text_before(a, b) && !text_before(b, a),
        !(text_before(a, b) && text_before(b, a)),
    decreases a.len(),
{
    if a.len() > 0 && b.len() > 0 {
        lemma_text_order_total(a.drop_first(), b.drop_first());
        if a[0] == b[0] && a.drop_first() == b.drop_first() {
            assert(a =~= seq![a[0]] + a.drop_first());
            assert(b =~= seq![b[0]] + b.drop_first());
        }
    } else if a.len() == 0 && b.len() == 0 {
        assert(a =~= b);
    }
}

/// The order of texts is transitive.
pub proof fn lemma_text_order_transitive(a: Seq<char>, b: Seq<char>, c: Seq<char>)
    requires
        text_before(a, b),
        text_before(b, c),
    ensures
        text_before(a, c),
    decreases a.len(),
{
    if a.len() > 0 && b[0] == a[0] && c[0] == b[0] {
        lemma_text_order_transitive(a.drop_first(), b.drop_first(), c.drop_first());
    }
}

/// Does the pattern stand at position `i` of the text?
pub open spec fn occurs_at(s: Seq<char>, pat: Seq<char>, i: int) -> bool {
    0 <= i && i + pat.len() <= s.len() && s.subrange(i, i + pat.len()) == pat
}

/// Does the pattern stand somewhere in the text?
pub open spec fn contains_text(s: Seq<char>, pat: Seq<char>) -> bool {
    exists|i: int| occurs_at(s, pat, i)
}

/// Looks for a pattern in a text.
pub fn has_text(s: &str, pat: &str) -> (r: bool)
    ensures
        r == contains_text(s@, pat@),
{
    let cs: Vec<char> = chars_of(s);
    let ps: Vec<char> = chars_of(pat);
    if ps.len() > cs.len() {
        return false;
    }
    let last: usize = cs.len() - ps.len();
    let mut i: usize = 0;
    while i <= last
        invariant
            i <= last + 1,
            last == cs.len() - ps.len(),
            cs@ == s@,
            ps@ == pat@,
            forall|j: int| 0 <= j < i ==> !occurs_at(s@, pat@, j),
        decreases last + 1 - i,
    {
        if same_chars(vstd::slice::slice_subrange(cs.as_slice(), i, i + ps.len()), ps.as_slice()) {
            assert(occurs_at(s@, pat@, i as int));
            return true;
        }
        if i == last {
            assert(forall|j: int| !occurs_at(s@, pat@, j));
            return false;
        }
        i = i + 1;
    }
    false
}

// ---------------------------------------------------------------------
// Words and lines
// ---------------------------------------------------------------------

/// The characters with the Unicode property `White_Space`.
pub open spec fn is_white(c: char) -> bool {
    ||| '\u{9}' <= c <= '\u{d}'
    ||| c == ' '
    ||| c == '\u{85}'
    ||| c == '\u{a0}'
    ||| c == '\u{1680}'
    ||| '\u{2000}' <= c <= '\u{200a}'
    ||| c == '\u{2028}'
    ||| c == '\u{2029}'
    ||| c == '\u{202f}'
    ||| c == '\u{205f}'
    ||| c == '\u{3000}'
}

/// Tests for white space.
pub fn white(c: char) -> (r: bool)
    ensures
        r == is_white(c),
{
    ('\u{9}' <= c && c <= '\u{d}') || c == ' ' || c == '\u{85}' || c == '\u{a0}' || c == '\u{1680}'
        || ('\u{2000}' <= c && c <= '\u{200a}') || c == '\u{2028}' || c == '\u{2029}'
        || c == '\u{202f}' || c == '\u{205f}' || c == '\u{3000}'
}

/// A text without the white space at its start.
pub open spec fn trim_start(s: Seq<char>) -> Seq<char>
    decreases s.len(),
{
    if s.len() > 0 && is_white(s[0]) {
        trim_start(s.drop_first())
    } else {
        s
    }
}

/// A text without the white space at its end.
pub open spec fn trim_end(s: Seq<char>) -> Seq<char>
    decreases s.len(),
{
    if s.len() > 0 && is_white(s.last()) {
        trim_end(s.drop_last())
    } else {
        s
    }
}

/// A text without the white space at either end.
pub open spec fn trim(s: Seq<char>) -> Seq<char> {
    trim_end(trim_start(s))
}

/// A text without the occurrences of one character at its end.
pub open spec fn trim_end_char(s: Seq<char>, c: char) -> Seq<char>
    decreases s.len(),
{
    if s.len() > 0 && s.last() == c {
        trim_end_char(s.drop_last(), c)
    } else {
        s
    }
}

/// A text without the occurrences of one character at its start.
pub open spec fn trim_start_char(s: Seq<char>, c: char) -> Seq<char>
    decreases s.len(),
{
    if s.len() > 0 && s[0] == c {
        trim_start_char(s.drop_first(), c)
    } else {
        s
    }
}

/// Cuts the white space at either end.
pub fn trimmed(cs: &[char]) -> (r: Vec<char>)
    ensures
        r@ == trim(cs@),
{
    let mut i: usize = 0;
    assert(cs@.skip(0) =~= cs@);
    while i < cs.len() && white(cs[i])
        invariant
            i <= cs.len(),
            trim_start(cs@.skip(i as int)) == trim_start(cs@),
        decreases cs.len() - i,
    {
        assert(cs@.skip(i as int).drop_first() =~= cs@.skip(i + 1));
        i = i + 1;
    }
    let ghost t = cs@.skip(i as int);
    assert(t == trim_start(cs@));
    let mut j: usize = cs.len();
    assert(cs@.subrange(i as int, j as int) =~= t);
    while j > i && white(cs[j - 1])
        invariant
            i <= j <= cs.len(),
            trim_end(cs@.subrange(i as int, j as int)) == trim(cs@),
        decreases j,
    {
        assert(cs@.subrange(i as int, j as int).drop_last() =~= cs@.subrange(i as int, j - 1));
        j = j - 1;
    }
    copied(vstd::slice::slice_subrange(cs, i, j))
}

/// A copy of a run of characters.
pub fn copied(cs: &[char]) -> (r: Vec<char>)
    ensures
        r@ == cs@,
{
    let mut out: Vec<char> = Vec::new();
    let mut i: usize = 0;
    while i < cs.len()
        invariant
            i <= cs.len(),
            out@ == cs@.take(i as int),
        decreases cs.len() - i,
    {
        out.push(cs[i]);
        i = i + 1;
    }
    out
}

/// Cuts the white space at either end of a string.
pub fn trimmed_string(s: &str) -> (r: String)
    ensures
        r@ == trim(s@),
{
    let cs: Vec<char> = chars_of(s);
    let t: Vec<char> = trimmed(cs.as_slice());
    string_of(t.as_slice())
}

/// Cuts the occurrences of one character at the end.
pub fn cut_end_char(cs: &[char], c: char) -> (r: Vec<char>)
    ensures
        r@ == trim_end_char(cs@, c),
{
    let mut j: usize = cs.len();
    assert(cs@.take(j as int) =~= cs@);
    while j > 0 && cs[j - 1] == c
        invariant
            j <= cs.len(),
            trim_end_char(cs@.take(j as int), c) == trim_end_char(cs@, c),
        decreases j,
    {
        assert(cs@.take(j as int).drop_last() =~= cs@.take(j - 1));
        j = j - 1;
    }
    assert(cs@.subrange(0, j as int) == cs@.take(j as int));
    copied(vstd::slice::slice_subrange(cs, 0, j))
}

/// Cuts the occurrences of one character at the start.
pub fn cut_start_char(cs: &[char], c: char) -> (r: Vec<char>)
    ensures
        r@ == trim_start_char(cs@, c),
{
    let mut i: usize = 0;
    assert(cs@.skip(0) =~= cs@);
    while i < cs.len() && cs[i] == c
        invariant
            i <= cs.len(),
            trim_start_char(cs@.skip(i as int), c) == trim_start_char(cs@, c),
        decreases cs.len() - i,
    {
        assert(cs@.skip(i as int).drop_first() =~= cs@.skip(i + 1));
        i = i + 1;
    }
    assert(cs@.subrange(i as int, cs@.len() as int) == cs@.skip(i as int));
    copied(vstd::slice::slice_subrange(cs, i, cs.len()))
}

/// The length of the first word: the characters up to the first white space.
pub open spec fn word_len(s: Seq<char>) -> nat
    decreases s.len(),
{
    if s.len() > 0 && !is_white(s[0]) {
        1 + word_len(s.drop_first())
    } else {
        0
    }
}

proof fn lemma_word_len(s: Seq<char>, n: int)
    requires
        0 <= n <= s.len(),
        forall|j: int| 0 <= j < n ==> !is_white(#[trigger] s[j]),
        n < s.len() ==> is_white(s[n]),
    ensures
        word_len(s) == n,
    decreases s.len(),
{
    if n > 0 {
        lemma_word_len(s.drop_first(), n - 1);
    }
}

/// The first word is no longer than the text.
pub proof fn lemma_word_len_bound(s: Seq<char>)
    ensures
        word_len(s) <= s.len(),
    decreases s.len(),
{
    if s.len() > 0 && !is_white(s[0]) {
        lemma_word_len_bound(s.drop_first());
    }
}

/// Cutting the white space at the start makes a text no longer, and leaves none
/// there.
pub proof fn lemma_trim_start_bound(s: Seq<char>)
    ensures
        trim_start(s).len() <= s.len(),
        trim_start(s).len() > 0 ==> !is_white(trim_start(s)[0]),
    decreases s.len(),
{
    if s.len() > 0 && is_white(s[0]) {
        lemma_trim_start_bound(s.drop_first());
    }
}

/// The words of a text: the runs of characters between white space.
pub open spec fn words(s: Seq<char>) -> Seq<Seq<char>>
    decreases s.len(),
{
    let t = trim_start(s);
    if t.len() == 0 {
        Seq::empty()
    } else {
        proof {
            lemma_trim_start_bound(s);
            lemma_word_len_bound(t);
            assert(word_len(t) >= 1);
        }
        seq![t.take(word_len(t) as int)] + words(t.skip(word_len(t) as int))
    }
}

/// What a list of character runs shows.
pub open spec fn runs(v: Seq<Vec<char>>) -> Seq<Seq<char>> {
    Seq::new(v.len(), |i: int| v[i]@)
}

/// Splits a text into its words.
pub fn split_words(cs: &[char]) -> (r: Vec<Vec<char>>)
    ensures
        runs(r@) == words(cs@),
{
    let mut out: Vec<Vec<char>> = Vec::new();
    let mut i: usize = 0;
    assert(cs@.skip(0) =~= cs@);
    assert(runs(out@) =~= Seq::empty());
    while i < cs.len()
        invariant
            i <= cs.len(),
            runs(out@) + words(cs@.skip(i as int)) == words(cs@),
        decreases cs.len() - i,
    {
        let ghost s = cs@.skip(i as int);
        if white(cs[i]) {
            assert(s.drop_first() =~= cs@.skip(i + 1));
            assert(trim_start(s) == trim_start(s.drop_first()));
            assert(words(s) == words(s.drop_first()));
            i = i + 1;
        } else {
            let start: usize = i;
            while i < cs.len() && !white(cs[i])
                invariant
                    start <= i <= cs.len(),
                    forall|j: int| start <= j < i ==> !is_white(#[trigger] cs@[j]),
                decreases cs.len() - i,
            {
                i = i + 1;
            }
            proof {
                let n = i - start;
                assert forall|j: int| 0 <= j < n implies !is_white(#[trigger] s[j]) by {
                    assert(s[j] == cs@[start + j]);
                }
                lemma_word_len(s, n);
                assert(trim_start(s) == s);
                assert(s.skip(n) =~= cs@.skip(i as int));
                assert(s.take(n) =~= cs@.subrange(start as int, i as int));
            }
            let ghost before = runs(out@);
            out.push(copied(vstd::slice::slice_subrange(cs, start, i)));
            assert(runs(out@) =~= before.push(cs@.subrange(start as int, i as int)));
            assert(runs(out@) + words(cs@.skip(i as int)) =~= before + words(s));
        }
    }
    assert(cs@.skip(i as int) =~= Seq::empty());
    assert(words(Seq::empty()) =~= Seq::empty());
    out
}

/// The length of the first line, without its line feed.
pub open spec fn line_len(s: Seq<char>) -> nat
    decreases s.len(),
{
    if s.len() > 0 && s[0] != '\n' {
        1 + line_len(s.drop_first())
    } else {
        0
    }
}

proof fn lemma_line_len(s: Seq<char>, n: int)
    requires
        0 <= n <= s.len(),
        forall|j: int| 0 <= j < n ==> #[trigger] s[j] != '\n',
        n < s.len() ==> s[n] == '\n',
    ensures
        line_len(s) == n,
    decreases s.len(),
{
    if n > 0 {
        lemma_line_len(s.drop_first(), n - 1);
    }
}

/// The first line is no longer than the text.
pub proof fn lemma_line_len_bound(s: Seq<char>)
    ensures
        line_len(s) <= s.len(),
    decreases s.len(),
{
    if s.len() > 0 && s[0] != '\n' {
        lemma_line_len_bound(s.drop_first());
    }
}

/// A line that ended in a line feed, without the carriage return before it.
pub open spec fn without_cr(s: Seq<char>) -> Seq<char> {
    if s.len() > 0 && s.last() == '\r' {
        s.drop_last()
    } else {
        s
    }
}

/// The lines of a text. A line ends at a line feed, which may follow a carriage
/// return; the last one may end with the text.
pub open spec fn lines(s: Seq<char>) -> Seq<Seq<char>>
    decreases s.len(),
{
    if s.len() == 0 {
        Seq::empty()
    } else {
        let n = line_len(s);
        proof {
            lemma_line_len_bound(s);
        }
        if n == s.len() {
            seq![s]
        } else {
            seq![without_cr(s.take(n as int))] + lines(s.skip(n as int + 1))
        }
    }
}

/// Splits a text into its lines.
pub fn split_lines(cs: &[char]) -> (r: Vec<Vec<char>>)
    ensures
        runs(r@) == lines(cs@),
{
    let mut out: Vec<Vec<char>> = Vec::new();
    let mut i: usize = 0;
    assert(cs@.skip(0) =~= cs@);
    assert(runs(out@) =~= Seq::empty());
    while i < cs.len()
        invariant
            i <= cs.len(),
            runs(out@) + lines(cs@.skip(i as int)) == lines(cs@),
        decreases cs.len() - i,
    {
        let ghost s = cs@.skip(i as int);
        let ghost before = runs(out@);
        let start: usize = i;
        while i < cs.len() && cs[i] != '\n'
            invariant
                start <= i <= cs.len(),
                forall|j: int| start <= j < i ==> #[trigger] cs@[j] != '\n',
            decreases cs.len() - i,
        {
            i = i + 1;
        }
        proof {
            let n = i - start;
            assert forall|j: int| 0 <= j < n implies #[trigger] s[j] != '\n' by {
                assert(s[j] == cs@[start + j]);
            }
            lemma_line_len(s, n);
            assert(s.take(n) =~= cs@.subrange(start as int, i as int));
        }
        if i == cs.len() {
            out.push(copied(vstd::slice::slice_subrange(cs, start, i)));
            assert(s =~= cs@.subrange(start as int, i as int));
            assert(runs(out@) =~= before.push(s));
            assert(cs@.skip(i as int) =~= Seq::empty());
            assert(lines(Seq::empty()) =~= Seq::empty());
            assert(runs(out@) + lines(cs@.skip(i as int)) =~= before + lines(s));
        } else {
            let end: usize = if i > start && cs[i - 1] == '\r' { i - 1 } else { i };
            out.push(copied(vstd::slice::slice_subrange(cs, start, end)));
            proof {
                let line = cs@.subrange(start as int, i as int);
                assert(without_cr(line) =~= cs@.subrange(start as int, end as int));
                assert(runs(out@) =~= before.push(without_cr(line)));
                assert(s.skip(i - start + 1) =~= cs@.skip(i + 1));
                assert(runs(out@) + lines(cs@.skip(i + 1)) =~= before + lines(s));
            }
            i = i + 1;
        }
    }
    assert(cs@.skip(i as int) =~= Seq::empty());
    assert(lines(Seq::empty()) =~= Seq::empty());
    out
}

/// Does the text start with the given one?
pub open spec fn starts_with(s: Seq<char>, p: Seq<char>) -> bool {
    p.len() <= s.len() && s.take(p.len() as int) == p
}

/// What follows a given start, or `None` where the text starts otherwise.
pub open spec fn after_prefix(s: Seq<char>, p: Seq<char>) -> Option<Seq<char>> {
    if starts_with(s, p) {
        Some(s.skip(p.len() as int))
    } else {
        None
    }
}

/// Cuts a given start off a text.
pub fn cut_prefix(cs: &[char], p: &str) -> (r: Option<Vec<char>>)
    ensures
        r is Some <==> after_prefix(cs@, p@) is Some,
        r is Some ==> (r->0)@ == after_prefix(cs@, p@)->0,
{
    let ps: Vec<char> = chars_of(p);
    if ps.len() > cs.len() {
        return None;
    }
    assert(cs@.subrange(0, ps.len() as int) == cs@.take(ps.len() as int));
    assert(cs@.subrange(ps.len() as int, cs.len() as int) == cs@.skip(ps.len() as int));
    if same_chars(vstd::slice::slice_subrange(cs, 0, ps.len()), ps.as_slice()) {
        Some(copied(vstd::slice::slice_subrange(cs, ps.len(), cs.len())))
    } else {
        None
    }
}

// ---------------------------------------------------------------------
// What holds of every text
// ---------------------------------------------------------------------

/// Nothing but white space.
pub open spec fn blank(s: Seq<char>) -> bool {
    forall|i: int| 0 <= i < s.len() ==> is_white(#[trigger] s[i])
}

/// A word: not empty, and no white space in it.
pub open spec fn is_word(s: Seq<char>) -> bool {
    s.len() > 0 && forall|i: int| 0 <= i < s.len() ==> !is_white(#[trigger] s[i])
}

/// Where a text starts among texts that stand one behind the other.
pub open spec fn start_of(list: Seq<Seq<char>>, sep: Seq<char>, k: int) -> int
    decreases k,
{
    if k <= 0 {
        0
    } else {
        start_of(list, sep, k - 1) + list[k - 1].len() + sep.len()
    }
}

proof fn lemma_start_of_take(list: Seq<Seq<char>>, sep: Seq<char>, n: int, k: int)
    requires
        0 <= k <= n <= list.len(),
    ensures
        start_of(list.take(n), sep, k) == start_of(list, sep, k),
    decreases k,
{
    if k > 0 {
        lemma_start_of_take(list, sep, n, k - 1);
        assert(list.take(n)[k - 1] == list[k - 1]);
    }
}

/// How long texts are that stand one behind the other, a separator in between.
pub proof fn joined_texts_have_room(list: Seq<Seq<char>>, sep: Seq<char>)
    ensures
        list.len() == 0 ==> join(list, sep).len() == 0,
        list.len() > 0 ==> join(list, sep).len() + sep.len() == start_of(
            list,
            sep,
            list.len() as int,
        ),
    decreases list.len(),
{
    if list.len() > 0 {
        let init = list.drop_last();
        let n = list.len() as int;
        joined_texts_have_room(init, sep);
        assert(init =~= list.take(n - 1));
        lemma_start_of_take(list, sep, n - 1, n - 1);
        if n == 1 {
            assert(start_of(list, sep, 0) == 0);
        }
    }
}

/// Every one of the joined texts stands there, whole and in order, and the separator
/// stands in front of each but the first.
pub proof fn joined_texts_are_all_there(list: Seq<Seq<char>>, sep: Seq<char>, k: int)
    requires
        0 <= k < list.len(),
    ensures
        occurs_at(join(list, sep), list[k], start_of(list, sep, k)),
        k > 0 ==> occurs_at(join(list, sep), sep, start_of(list, sep, k) - sep.len()),
    decreases list.len(),
{
    let init = list.drop_last();
    let n = list.len() as int;
    let all = join(list, sep);
    let at = start_of(list, sep, k);
    joined_texts_have_room(list, sep);
    joined_texts_have_room(init, sep);
    assert(init =~= list.take(n - 1));
    lemma_start_of_take(list, sep, n - 1, n - 1);
    if k == n - 1 {
        if n == 1 {
            assert(all.subrange(0, all.len() as int) =~= all);
        } else {
            assert(all.subrange(at, at + list[k].len()) =~= list[k]);
            assert(all.subrange(at - sep.len(), at) =~= sep);
        }
    } else {
        lemma_start_of_take(list, sep, n - 1, k);
        assert(init[k] == list[k]);
        joined_texts_are_all_there(init, sep, k);
        let before = join(init, sep);
        assert(all.subrange(at, at + list[k].len()) =~= before.subrange(at, at + list[k].len()));
        if k > 0 {
            assert(all.subrange(at - sep.len(), at) =~= before.subrange(at - sep.len(), at));
        }
    }
}

/// A padded text starts with the text, is as long as the field or as the text where
/// that is longer, and holds nothing but spaces behind it.
pub proof fn padding_adds_only_spaces(s: Seq<char>, w: nat)
    ensures
        starts_with(pad_right(s, w), s),
        pad_right(s, w).len() == (if s.len() < w { w } else { s.len() }),
        forall|i: int| s.len() <= i < pad_right(s, w).len() ==> #[trigger] pad_right(s, w)[i] == ' ',
{
    assert(pad_right(s, w).take(s.len() as int) =~= s);
}

/// A text that fits is not cut; any other is cut to the given length, its last character
/// being the ellipsis and everything in front of that its own.
pub proof fn cutting_keeps_the_start(s: Seq<char>, max: nat)
    ensures
        s.len() <= max ==> shortened(s, max) == s,
        s.len() > max > 0 ==> shortened(s, max).len() == max && shortened(s, max).last()
            == '\u{2026}' && forall|i: int|
            0 <= i < max - 1 ==> #[trigger] shortened(s, max)[i] == s[i],
{
}

/// Texts are ordered like in a dictionary: by the first character in which they differ,
/// and where there is none, the shorter one first.
pub proof fn texts_are_in_dictionary_order(a: Seq<char>, b: Seq<char>, n: int)
    requires
        0 <= n <= a.len(),
        n <= b.len(),
        forall|i: int| 0 <= i < n ==> #[trigger] a[i] == b[i],
    ensures
        n < a.len() && n < b.len() && a[n] != b[n] ==> (text_before(a, b) <==> a[n] < b[n]),
        n == a.len() ==> (text_before(a, b) <==> a.len() < b.len()),
        n == b.len() ==> !text_before(a, b),
    decreases n,
{
    if n > 0 {
        assert(a[0] == b[0]);
        let x = a.drop_first();
        let y = b.drop_first();
        assert forall|i: int| 0 <= i < n - 1 implies #[trigger] x[i] == y[i] by {
            assert(a[i + 1] == b[i + 1]);
        }
        texts_are_in_dictionary_order(x, y, n - 1);
    }
}

proof fn lemma_trim_start_parts(s: Seq<char>) -> (k: int)
    ensures
        0 <= k <= s.len(),
        trim_start(s) == s.skip(k),
        forall|i: int| 0 <= i < k ==> is_white(#[trigger] s[i]),
        k < s.len() ==> !is_white(s[k]),
    decreases s.len(),
{
    if s.len() > 0 && is_white(s[0]) {
        let r = s.drop_first();
        let k = lemma_trim_start_parts(r);
        assert(r.skip(k) =~= s.skip(k + 1));
        assert forall|i: int| 0 <= i < k + 1 implies is_white(#[trigger] s[i]) by {
            if i > 0 {
                assert(r[i - 1] == s[i]);
            }
        }
        k + 1
    } else {
        assert(s.skip(0) =~= s);
        0
    }
}

proof fn lemma_trim_end_parts(s: Seq<char>) -> (k: int)
    ensures
        0 <= k <= s.len(),
        trim_end(s) == s.take(k),
        forall|i: int| k <= i < s.len() ==> is_white(#[trigger] s[i]),
        k > 0 ==> !is_white(s[k - 1]),
    decreases s.len(),
{
    if s.len() > 0 && is_white(s.last()) {
        let r = s.drop_last();
        let k = lemma_trim_end_parts(r);
        assert(r.take(k) =~= s.take(k));
        assert forall|i: int| k <= i < s.len() implies is_white(#[trigger] s[i]) by {
            if i < r.len() {
                assert(r[i] == s[i]);
            }
        }
        k
    } else {
        assert(s.take(s.len() as int) =~= s);
        s.len() as int
    }
}

/// Trimming cuts all the white space at either end and nothing else: whatever stands
/// between white space, and starts and ends with none, is what is left.
pub proof fn trimming_cuts_only_white_space(a: Seq<char>, s: Seq<char>, b: Seq<char>)
    requires
        forall|i: int| 0 <= i < a.len() ==> is_white(#[trigger] a[i]),
        forall|i: int| 0 <= i < b.len() ==> is_white(#[trigger] b[i]),
        s.len() > 0 ==> !is_white(s[0]) && !is_white(s.last()),
    ensures
        trim(a + s + b) == s,
{
    let t = a + s + b;
    let k = lemma_trim_start_parts(t);
    let m = lemma_trim_end_parts(t.skip(k));
    let u = t.skip(k);
    if s.len() == 0 {
        assert forall|i: int| 0 <= i < t.len() implies is_white(#[trigger] t[i]) by {
            if i < a.len() {
                assert(t[i] == a[i]);
            } else {
                assert(t[i] == b[i - a.len()]);
            }
        }
        if k < t.len() {
            assert(is_white(t[k]));
        }
        assert(trim(t) =~= s);
    } else {
        let n = a.len() as int;
        assert(t[n] == s[0]);
        assert(t[n + s.len() - 1] == s.last());
        if k < n {
            assert(t[k] == a[k]);
        }
        if k > n {
            assert(is_white(t[n]));
        }
        assert(k == n);
        assert(u[s.len() - 1] == s.last());
        if m > s.len() {
            assert(u[m - 1] == b[m - 1 - s.len()]);
        }
        if m < s.len() {
            assert(is_white(u[s.len() - 1]));
        }
        assert(trim(t) =~= s);
    }
}

/// A text without white space is one word, or none where it is empty.
pub proof fn one_word(t: Seq<char>)
    requires
        forall|i: int| 0 <= i < t.len() ==> !is_white(#[trigger] t[i]),
    ensures
        words(t) == (if t.len() > 0 {
            seq![t]
        } else {
            Seq::empty()
        }),
{
    if t.len() > 0 {
        lemma_word_len(t, t.len() as int);
        assert(trim_start(t) == t);
        let rest = t.skip(t.len() as int);
        assert(rest =~= Seq::empty());
        assert(words(rest) =~= Seq::empty());
        assert(t.take(t.len() as int) =~= t);
        assert(words(t) =~= seq![t]);
    }
}

/// White space parts words: the words on either side of it are the words of the whole.
pub proof fn white_space_parts_words(a: Seq<char>, c: char, b: Seq<char>)
    requires
        is_white(c),
    ensures
        words(a + seq![c] + b) == words(a) + words(b),
    decreases a.len(),
{
    let all = a + seq![c] + b;
    if a.len() == 0 {
        assert(all.drop_first() =~= b);
        assert(trim_start(all) == trim_start(b));
        assert(words(all) =~= words(a) + words(b));
    } else if is_white(a[0]) {
        let h = a.drop_first();
        white_space_parts_words(h, c, b);
        assert(all.drop_first() =~= h + seq![c] + b);
        assert(trim_start(all) == trim_start(all.drop_first()));
        assert(trim_start(a) == trim_start(h));
        assert(words(all) == words(h + seq![c] + b));
        assert(words(a) == words(h));
    } else {
        let n = word_len(a) as int;
        lemma_word_len_bound(a);
        lemma_first_word(a);
        assert forall|j: int| 0 <= j < n implies !is_white(#[trigger] all[j]) by {
            assert(all[j] == a[j]);
        }
        if n < a.len() {
            assert(all[n] == a[n]);
        } else {
            assert(all[n] == c);
        }
        lemma_word_len(all, n);
        assert(trim_start(all) == all);
        assert(trim_start(a) == a);
        assert(all.take(n) =~= a.take(n));
        let h = a.skip(n);
        assert(all.skip(n) =~= h + seq![c] + b);
        white_space_parts_words(h, c, b);
        assert(words(all) =~= words(a) + words(b));
    }
}

proof fn lemma_first_word(s: Seq<char>)
    ensures
        word_len(s) <= s.len(),
        forall|j: int| 0 <= j < word_len(s) ==> !is_white(#[trigger] s[j]),
        word_len(s) < s.len() ==> is_white(s[word_len(s) as int]),
        s.len() > 0 && !is_white(s[0]) ==> word_len(s) > 0,
    decreases s.len(),
{
    if s.len() > 0 && !is_white(s[0]) {
        let r = s.drop_first();
        lemma_first_word(r);
        assert forall|j: int| 0 <= j < word_len(s) implies !is_white(#[trigger] s[j]) by {
            if j > 0 {
                assert(r[j - 1] == s[j]);
            }
        }
    }
}

/// A line feed ends a line, the carriage return in front of it being no part of either;
/// what follows makes the lines behind it.
pub proof fn a_line_feed_ends_a_line(a: Seq<char>, b: Seq<char>)
    requires
        !a.contains('\n'),
    ensures
        lines(a + seq!['\n'] + b) == seq![
            if a.len() > 0 && a.last() == '\r' {
                a.drop_last()
            } else {
                a
            },
        ] + lines(b),
{
    let all = a + seq!['\n'] + b;
    let n = a.len() as int;
    assert forall|j: int| 0 <= j < n implies #[trigger] all[j] != '\n' by {
        assert(all[j] == a[j]);
    }
    assert(all[n] == '\n');
    lemma_line_len(all, n);
    assert(all.take(n) =~= a);
    assert(all.skip(n + 1) =~= b);
}

/// What no line feed ends is a line too, unless it is empty.
pub proof fn the_last_line_needs_no_line_feed(a: Seq<char>)
    requires
        !a.contains('\n'),
    ensures
        lines(a) == (if a.len() > 0 {
            seq![a]
        } else {
            Seq::empty()
        }),
{
    if a.len() > 0 {
        assert forall|j: int| 0 <= j < a.len() implies #[trigger] a[j] != '\n' by {
            assert(a.contains(a[j]));
        }
        lemma_line_len(a, a.len() as int);
    }
}

/// A start is cut off exactly where the text is that start and something behind it,
/// which is what is left.
pub proof fn a_start_is_cut_off(s: Seq<char>, p: Seq<char>, rest: Seq<char>)
    ensures
        after_prefix(s, p) == Some(rest) <==> s == p + rest,
{
    if s == p + rest {
        assert(s.take(p.len() as int) =~= p);
        assert(s.skip(p.len() as int) =~= rest);
    }
    if after_prefix(s, p) == Some(rest) {
        assert(s =~= s.take(p.len() as int) + s.skip(p.len() as int));
    }
}

/// One character is cut off the end as often as it stands there, and nothing else is.
pub proof fn ends_are_cut_off(s: Seq<char>, c: char, n: nat)
    requires
        s.len() > 0 ==> s.last() != c,
    ensures
        trim_end_char(s + repeated(c, n), c) == s,
    decreases n,
{
    let t = s + repeated(c, n);
    if n > 0 {
        assert(t.drop_last() =~= s + repeated(c, (n - 1) as nat));
        ends_are_cut_off(s, c, (n - 1) as nat);
    } else {
        assert(t =~= s);
    }
}

/// One character is cut off the start as often as it stands there, and nothing else is.
pub proof fn starts_are_cut_off(s: Seq<char>, c: char, n: nat)
    requires
        s.len() > 0 ==> s[0] != c,
    ensures
        trim_start_char(repeated(c, n) + s, c) == s,
    decreases n,
{
    let t = repeated(c, n) + s;
    if n > 0 {
        assert(t.drop_first() =~= repeated(c, (n - 1) as nat) + s);
        starts_are_cut_off(s, c, (n - 1) as nat);
    } else {
        assert(t =~= s);
    }
}

/// What stands somewhere in a text stands in every text around it, that much further
/// behind.
pub proof fn what_stands_inside_stands_outside(
    a: Seq<char>,
    s: Seq<char>,
    b: Seq<char>,
    pat: Seq<char>,
    i: int,
)
    requires
        occurs_at(s, pat, i),
    ensures
        occurs_at(a + s + b, pat, a.len() + i),
        contains_text(a + s + b, pat),
{
    let t = a + s + b;
    let k = a.len() + i;
    assert(t.subrange(k, k + pat.len()) =~= s.subrange(i, i + pat.len()));
    assert(occurs_at(t, pat, k));
}

/// A text stands in itself.
pub proof fn a_text_stands_in_itself(s: Seq<char>)
    ensures
        occurs_at(s, s, 0),
        contains_text(s, s),
{
    assert(s.subrange(0, s.len() as int) =~= s);
    assert(occurs_at(s, s, 0));
}

/// Where a list is not empty, every text on it stands in the joined text.
pub proof fn joined_texts_contain_each(list: Seq<Seq<char>>, sep: Seq<char>)
    ensures
        forall|k: int| 0 <= k < list.len() ==> contains_text(join(list, sep), #[trigger] list[k]),
{
    assert forall|k: int| 0 <= k < list.len() implies contains_text(join(list, sep), #[trigger] list[k]) by {
        joined_texts_are_all_there(list, sep, k);
    }
}

/// White space by code point: the controls from tab to carriage return, the space, the
/// next line, the no-break space, and the wider spaces and separators of other scripts.
pub proof fn white_space_by_code_point(c: char)
    ensures
        is_white(c) <==> 9 <= c as int <= 13 || c as int == 32 || c as int == 0x85 || c as int == 0xa0
            || c as int == 0x1680 || 0x2000 <= c as int <= 0x200a || c as int == 0x2028 || c as int
            == 0x2029 || c as int == 0x202f || c as int == 0x205f || c as int == 0x3000,
{
}

/// A field stands between quotes exactly where it holds a comma or a quote, so that no
/// comma of its own parts a line; any other stands as it is.
pub proof fn a_comma_stands_between_quotes(s: Seq<char>)
    ensures
        (exists|i: int| 0 <= i < s.len() && (#[trigger] s[i] == ',' || s[i] == '"')) ==> csv_field(s).len()
            >= s.len() + 2 && csv_field(s)[0] == '"' && csv_field(s).last() == '"',
        (forall|i: int| 0 <= i < s.len() ==> #[trigger] s[i] != ',' && s[i] != '"') ==> csv_field(s) == s,
{
    lemma_doubling_lengthens(s);
    if exists|i: int| 0 <= i < s.len() && (#[trigger] s[i] == ',' || s[i] == '"') {
        let i = choose|i: int| 0 <= i < s.len() && (#[trigger] s[i] == ',' || s[i] == '"');
        assert(s.contains(s[i]));
    }
}

proof fn lemma_doubling_lengthens(s: Seq<char>)
    ensures
        doubled_quotes(s).len() >= s.len(),
    decreases s.len(),
{
    if s.len() > 0 {
        lemma_doubling_lengthens(s.drop_last());
        lemma_doubling_lengthens(s.drop_first());
    }
}

/// Nothing but digits, with or without a plus sign in front, is read as a number.
pub proof fn what_is_no_number_is_not_read(s: Seq<char>, max: nat, i: int)
    requires
        0 <= i < s.len(),
        !('0' <= s[i] <= '9'),
        s[i] != '+' || i > 0 || s.len() == 1,
    ensures
        parse_uint(s, max) is None,
        parse_uint(Seq::empty(), max) is None,
{
    let d = if s[0] == '+' {
        s.skip(1)
    } else {
        s
    };
    if d.len() > 0 {
        if s[0] == '+' {
            assert(i > 0);
            assert(d[i - 1] == s[i]);
            assert(!is_digit(d[i - 1]));
        } else {
            assert(!is_digit(d[i]));
        }
    }
}

} // verus!
