//! Lines, words and whitespace against the standard library's.

use vitals::text::{
    after_prefix, before_suffix, chars_of, copy_str, find, find_last, same, same_str, split_lines, split_tokens, string_of,
    trimmed,
};

fn samples() -> Vec<&'static str> {
    vec![
        "", " ", "\n", "\r\n", "\r", "a", "a b", "  a\tb\x0cc\r\nd  ", "one\ntwo\n", "one\ntwo", "one\r\ntwo\r\n", "one\r\r\ntwo",
        "\n\n", "a\n\nb", "\r\na", "x\u{a0}y", "\u{2003}x\u{3000}", "\x0bv\x0b", "\u{85}n\u{85}", "\u{1680}o\u{2028}p\u{2029}",
        "\u{200b}z\u{200b}", "ends\r", "tab\t", "caf\u{e9} na\u{ef}ve", "\u{1f}u\u{1c}", "a\u{2009}b\u{205f}c\u{202f}d",
    ]
}

#[test]
fn lines_words_and_trimming_agree_with_the_standard_library() {
    for s in samples() {
        let c = chars_of(s);
        let lines: Vec<String> = split_lines(&c).iter().map(|l| l.iter().collect()).collect();
        assert_eq!(lines, s.lines().collect::<Vec<_>>(), "{:?}", s);
        let words: Vec<String> = split_tokens(&c).iter().map(|l| l.iter().collect()).collect();
        assert_eq!(words, s.split_ascii_whitespace().collect::<Vec<_>>(), "{:?}", s);
        let trim: String = trimmed(&c).iter().collect();
        assert_eq!(trim, s.trim(), "{:?}", s);
        assert_eq!(string_of(&c), s);
        assert_eq!(copy_str(s), s);
    }
}

#[test]
fn every_character_counts_as_whitespace_exactly_if_it_is() {
    for n in 0..0x1_1000u32 {
        if let Some(c) = char::from_u32(n) {
            let one = [c];
            assert_eq!(trimmed(&one).is_empty(), c.is_whitespace(), "{:x}", n);
            assert_eq!(split_tokens(&one).is_empty(), c.is_ascii_whitespace(), "{:x}", n);
        }
    }
}

#[test]
fn searching_finds_the_first_and_the_last() {
    let c = chars_of("7 (a b) c (d) Z");
    assert_eq!(find(&c, '('), Some(2));
    assert_eq!(find_last(&c, ')'), Some(12));
    assert_eq!(find(&c, '#'), None);
    assert_eq!(find_last(&c, '#'), None);
    assert!(same(&c, "7 (a b) c (d) Z"));
    assert!(!same(&c, "7 (a b) c (d) z"));
    assert!(same_str("", ""));
    assert!(!same_str("a", "ab"));
    assert_eq!(after_prefix(&c, "7 (").map(string_of), Some(String::from("a b) c (d) Z")));
    assert_eq!(after_prefix(&c, "8").map(string_of), None);
    assert_eq!(before_suffix(&c, ") Z").map(string_of), Some(String::from("7 (a b) c (d")));
    assert_eq!(before_suffix(&c, "Y").map(string_of), None);
}
