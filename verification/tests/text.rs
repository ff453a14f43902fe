use ipscan::text::{
    chars_of, csv_quote, cut_end_char, cut_prefix, cut_start_char, dec_string, has_text, is_before, join_strings,
    read_uint, split_lines, split_words, string_of, trimmed_string,
};

fn strings(v: &[Vec<char>]) -> Vec<String> {
    v.iter().map(|c| string_of(c)).collect()
}

#[test]
fn lines_are_cut_as_std_cuts_them() {
    for s in ["", "a", "a\n", "a\nb", "a\n\nb\n", "\n", "a\r\nb\r", "a\r\r\n"] {
        let ours = strings(&split_lines(&chars_of(s)));
        let theirs: Vec<String> = s.lines().map(|l| l.to_string()).collect();
        assert_eq!(ours, theirs, "{:?}", s);
    }
}

#[test]
fn words_are_cut_as_std_cuts_them() {
    for s in ["", " ", "a", " a  b\t c\n", "a\u{a0}b", "x\u{2003}y\u{3000}z", "\u{200b}a"] {
        let ours = strings(&split_words(&chars_of(s)));
        let theirs: Vec<String> = s.split_whitespace().map(|w| w.to_string()).collect();
        assert_eq!(ours, theirs, "{:?}", s);
        assert_eq!(trimmed_string(s), s.trim(), "{:?}", s);
    }
}

#[test]
fn numbers_are_written_and_read() {
    for n in [0, 9, 10, 12_345, u64::MAX] {
        assert_eq!(dec_string(n), n.to_string());
        assert_eq!(read_uint(&chars_of(&n.to_string()), u64::MAX), Some(n));
    }
    for s in ["", "+", "-1", "+7", "007", "1 ", "12a", "18446744073709551616"] {
        assert_eq!(read_uint(&chars_of(s), u64::MAX), s.parse::<u64>().ok(), "{:?}", s);
    }
    assert_eq!(read_uint(&chars_of("4294967296"), u32::MAX as u64), None);
}

#[test]
fn texts_are_compared_and_searched() {
    for a in ["", "a", "ab", "b", "ä", "z"] {
        for b in ["", "a", "ab", "b", "ä", "z"] {
            assert_eq!(is_before(a, b), a < b, "{:?} {:?}", a, b);
            assert_eq!(has_text(a, b), a.contains(b), "{:?} {:?}", a, b);
        }
    }
}

#[test]
fn pieces_are_cut_off() {
    assert_eq!(string_of(&cut_end_char(&chars_of("a;;"), ';')), "a;;".trim_end_matches(';'));
    assert_eq!(string_of(&cut_start_char(&chars_of("\"\"a"), '"')), "\"\"a".trim_start_matches('"'));
    assert_eq!(cut_prefix(&chars_of("lease 1"), "lease ").map(|c| string_of(&c)).as_deref(), Some("1"));
    assert!(cut_prefix(&chars_of("leas"), "lease ").is_none());
}

#[test]
fn texts_are_joined() {
    let list: Vec<String> = ["a", "", "b"].iter().map(|s| s.to_string()).collect();
    assert_eq!(join_strings(&list, ", "), list.join(", "));
    assert_eq!(join_strings(&vec![], ", "), "");
    assert_eq!(csv_quote("\""), "\"\"\"\"");
}
