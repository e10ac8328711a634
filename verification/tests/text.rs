use rust_graphql_sonic::number::{parse_i32, parse_u16, push_int_text, push_nat_text};
use rust_graphql_sonic::text::{
    contains_text, is_whitespace, join_strings, line_ranges, split_range, split_whitespace,
    str_chars, string_from_range,
};

fn split(s: &str, sep: char) -> Vec<String> {
    let cs = str_chars(s);
    split_range(&cs, 0, cs.len(), sep)
}

fn lines(s: &str) -> Vec<String> {
    let cs = str_chars(s);
    line_ranges(&cs).into_iter().map(|(lo, hi)| string_from_range(&cs, lo, hi)).collect()
}

#[test]
fn split_gives_one_more_piece_than_separators() {
    assert_eq!(split("a,b,,c", ','), vec!["a", "b", "", "c"]);
    assert_eq!(split("", ','), vec![""]);
    assert_eq!(split(",", ','), vec!["", ""]);
    assert_eq!(split("a,b,,c", ','), "a,b,,c".split(',').collect::<Vec<_>>());
}

#[test]
fn split_then_join_gives_the_text_back() {
    for s in ["", ",", "a,b,,c", "x", "\u{e9},\u{1f600},"] {
        let parts = split(s, ',');
        assert_eq!(join_strings(&parts, ","), s);
        assert!(parts.iter().all(|p| !p.contains(',')));
    }
}

#[test]
fn lines_match_str_lines() {
    for s in ["", "\n", "a", "a\n", "a\r\nb", "a\rb\n", "a\n\nb\r\n", "x\r", "\r\n\r\n"] {
        assert_eq!(lines(s), s.lines().collect::<Vec<_>>(), "text {:?}", s);
        assert!(lines(s).iter().all(|l| !l.contains('\n')));
    }
}

#[test]
fn words_match_split_whitespace() {
    for s in ["", "  ", "federer nadal", " a\tb\u{a0}c\u{3000}d\u{2009}e ", "x"] {
        assert_eq!(split_whitespace(s), s.split_whitespace().collect::<Vec<_>>(), "text {:?}", s);
    }
}

#[test]
fn whitespace_matches_std() {
    for c in ['\t', '\n', '\u{b}', '\u{c}', '\r', ' ', '\u{85}', '\u{a0}', '\u{1680}', '\u{2000}',
              '\u{200a}', '\u{2028}', '\u{2029}', '\u{202f}', '\u{205f}', '\u{3000}', 'a', '\u{200b}',
              '\u{180e}', '\u{feff}', '0', '\u{8}', '\u{e}'] {
        assert_eq!(is_whitespace(c), c.is_whitespace(), "char {:?}", c);
    }
}

#[test]
fn contains_text_finds_infixes() {
    assert!(contains_text("atp_matches_2019.csv", "atp_matches"));
    assert!(contains_text("abc", ""));
    assert!(contains_text("", ""));
    assert!(!contains_text("atp_matche", "atp_matches"));
    assert!(!contains_text("atp-matches", "atp_matches"));
    assert!(contains_text("aaab", "aab"));
}

#[test]
fn parse_i32_matches_std() {
    for s in ["0", "-0", "+0", "12", "+12", "-12", "", "-", "+", "+-1", "--1", " 1", "1 ", "1a",
              "2147483647", "2147483648", "-2147483648", "-2147483649", "0002147483647",
              "99999999999999999999", "\u{661}"] {
        assert_eq!(parse_i32(s), s.parse::<i32>().ok(), "text {:?}", s);
    }
}

#[test]
fn parse_u16_matches_std() {
    for s in ["0", "-0", "+0", "65535", "65536", "+65535", "-1", "", "+", "12x", "00065535"] {
        assert_eq!(parse_u16(s), s.parse::<u16>().ok(), "text {:?}", s);
    }
}

#[test]
fn decimal_text_matches_format() {
    for n in [0i64, 7, 10, 99, 100, 2147483647, -1, -10, -2147483648, 1234567890123] {
        let mut s = String::new();
        push_int_text(&mut s, n);
        assert_eq!(s, format!("{}", n));
    }
    let mut s = String::from("x");
    push_nat_text(&mut s, 65535);
    assert_eq!(s, "x65535");
}

#[test]
fn parse_reads_back_formatted_numbers() {
    for n in [0i32, 1, -1, 42, i32::MAX, i32::MIN, 1000000] {
        let mut s = String::new();
        push_int_text(&mut s, n as i64);
        assert_eq!(parse_i32(&s), Some(n));
    }
    for n in [0u16, 9, 10, u16::MAX] {
        let mut s = String::new();
        push_nat_text(&mut s, n as u64);
        assert_eq!(parse_u16(&s), Some(n));
    }
}

#[test]
fn decimal_text_of_the_extreme_values() {
    for n in [i64::MIN, i64::MIN + 1, i64::MAX] {
        let mut s = String::new();
        push_int_text(&mut s, n);
        assert_eq!(s, format!("{}", n));
    }
}
