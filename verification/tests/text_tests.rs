use lib::text::{
    chars_before, chars_eq, chars_of, decimal_chars, is_whitespace, join_with, lines_text,
    parse_u8_chars, prefix_chars, split_lines, split_words, string_of, text_lines, trim_chars,
};
use lib::utils::strutils::trim_comment;

fn v(s: &str) -> Vec<char> {
    s.chars().collect()
}

fn vs(parts: &[&str]) -> Vec<Vec<char>> {
    parts.iter().map(|p| v(p)).collect()
}

#[test]
fn whitespace_matches_std_for_every_char_below_0x3100() {
    for u in 0u32..0x3100 {
        if let Some(c) = char::from_u32(u) {
            assert_eq!(is_whitespace(c), c.is_whitespace(), "char {:x}", u);
        }
    }
    assert!(!is_whitespace('a'));
    assert!(is_whitespace('\u{3000}'));
}

#[test]
fn lines_match_std() {
    let samples = [
        "", "a", "a\n", "\n", "a\nb", "a\r\nb\r\n", "a\n\nb", "x\r", "\n\n", "lda 3\nhlt\n",
        "a\rb\nc",
    ];
    for s in samples.iter() {
        let got: Vec<String> = split_lines(&v(s)).iter().map(|l| l.iter().collect()).collect();
        let want: Vec<String> = s.lines().map(|l| l.to_string()).collect();
        assert_eq!(got, want, "text {:?}", s);
        let got2: Vec<String> = text_lines(s).iter().map(|l| l.iter().collect()).collect();
        assert_eq!(got2, want);
    }
}

#[test]
fn words_match_std() {
    let samples = ["", "  ", "a", " a  b\tc\n", "x:  lda\u{a0}5", "r2, 131"];
    for s in samples.iter() {
        let got: Vec<String> = split_words(&v(s)).iter().map(|w| w.iter().collect()).collect();
        let want: Vec<String> = s.split_whitespace().map(|w| w.to_string()).collect();
        assert_eq!(got, want, "text {:?}", s);
    }
}

#[test]
fn join_puts_separator_between_parts() {
    assert_eq!(join_with(&vs(&[]), ' '), v(""));
    assert_eq!(join_with(&vs(&["a"]), ' '), v("a"));
    assert_eq!(join_with(&vs(&["lda", "128"]), ' '), v("lda 128"));
    assert_eq!(join_with(&vs(&["a", "", "b"]), '\n'), v("a\n\nb"));
    assert_eq!(lines_text(&vs(&["x", "y"])), "x\ny".to_string());
}

#[test]
fn joined_lines_read_back() {
    let parts = vs(&["lda 128", "", "hlt"]);
    let joined = join_with(&parts, '\n');
    assert_eq!(split_lines(&joined), parts);
    let ws = vs(&["add", "$5"]);
    assert_eq!(split_words(&join_with(&ws, ' ')), ws);
}

#[test]
fn trim_matches_std() {
    let samples = ["", "  ", " a b ", "\tx\n", "abc", "\u{2003}y\u{2003}"];
    for s in samples.iter() {
        let got: String = trim_chars(&v(s)).iter().collect();
        assert_eq!(got, s.trim().to_string(), "text {:?}", s);
    }
}

#[test]
fn cut_at_comment() {
    assert_eq!(chars_before(&v("lda 5 ; load"), ';'), v("lda 5 "));
    assert_eq!(chars_before(&v("; all comment"), ';'), v(""));
    assert_eq!(chars_before(&v("no comment"), ';'), v("no comment"));
    let mut s = String::from("add x ;; twice");
    trim_comment(&mut s);
    assert_eq!(s, "add x ");
    trim_comment(&mut s);
    assert_eq!(s, "add x ");
    assert!(!s.contains(';'));
}

#[test]
fn parse_byte_matches_std() {
    let samples = [
        "", "0", "7", "255", "256", "+5", "+", "-1", "-0", "007", "12a", " 1", "1000", "99999999999",
        "\u{661}",
    ];
    for s in samples.iter() {
        assert_eq!(parse_u8_chars(&v(s)), s.parse::<u8>().ok(), "text {:?}", s);
    }
}

#[test]
fn decimal_matches_std() {
    for n in [0usize, 5, 9, 10, 128, 255, 1000, 65535, usize::MAX].iter() {
        let got: String = decimal_chars(*n).iter().collect();
        assert_eq!(got, n.to_string());
    }
}

#[test]
fn char_helpers() {
    assert!(chars_eq(&['a', 'b'], &['a', 'b']));
    assert!(!chars_eq(&['a', 'b'], &['a']));
    assert!(!chars_eq(&['a', 'b'], &['a', 'c']));
    assert_eq!(chars_of("héllo"), v("héllo"));
    assert_eq!(string_of(&v("héllo")), "héllo".to_string());
    assert_eq!(prefix_chars(&v("abc"), 2), v("ab"));
}
