use sze_rs::text::{
    chars_of, contains_seq, format_decimal, join_path, parse_i32, parse_usize, split_lines,
    split_words, starts_with_seq, trimmed,
};

fn cs(s: &str) -> Vec<char> {
    s.chars().collect()
}

fn strs(v: &Vec<Vec<char>>) -> Vec<String> {
    v.iter().map(|w| w.iter().collect()).collect()
}

#[test]
fn chars_of_keeps_every_char() {
    assert_eq!(chars_of("a b\u{5e74}"), vec!['a', ' ', 'b', '\u{5e74}']);
    assert_eq!(chars_of(""), Vec::<char>::new());
}

#[test]
fn split_words_matches_split_whitespace() {
    for s in ["", "   ", " 1  22\t333\n", "a\u{a0}b\u{3000}c", "x", "\u{2028}y\u{85}"] {
        let expected: Vec<String> = s.split_whitespace().map(|w| w.to_string()).collect();
        assert_eq!(strs(&split_words(&cs(s))), expected, "input {:?}", s);
    }
}

#[test]
fn split_lines_matches_split_newline() {
    for s in ["", "\n", "a\nb", "a\nb\n", "\n\nc"] {
        let expected: Vec<String> = s.split("\n").map(|w| w.to_string()).collect();
        assert_eq!(strs(&split_lines(&cs(s))), expected, "input {:?}", s);
    }
}

#[test]
fn trimmed_matches_trim() {
    for s in ["", "  ", " 45000\n", "\u{3000}x y\t", "abc"] {
        let t: String = trimmed(&cs(s)).iter().collect();
        assert_eq!(t, s.trim(), "input {:?}", s);
    }
}

#[test]
fn parse_usize_matches_str_parse() {
    let cases = [
        "0", "42", "+7", "-0", "-3", "+", "", "12a", "007", "18446744073709551615",
        "18446744073709551616", "99999999999999999999999",
    ];
    for s in cases {
        assert_eq!(parse_usize(&cs(s)), s.parse::<usize>().ok(), "input {:?}", s);
    }
}

#[test]
fn parse_i32_matches_str_parse() {
    let cases = [
        "0", "-0", "+5", "-5", "2147483647", "2147483648", "-2147483648", "-2147483649", "-",
        "+", "", "1-2", " 1",
    ];
    for s in cases {
        assert_eq!(parse_i32(&cs(s)), s.parse::<i32>().ok(), "input {:?}", s);
    }
}

#[test]
fn format_decimal_writes_digits() {
    assert_eq!(format_decimal(0), "0");
    assert_eq!(format_decimal(7), "7");
    assert_eq!(format_decimal(1804800), "1804800");
    assert_eq!(format_decimal(usize::MAX), usize::MAX.to_string());
}

#[test]
fn join_path_adds_one_separator() {
    assert_eq!(join_path("/sys/a", "temp"), "/sys/a/temp");
    assert_eq!(join_path("/sys/a/", "temp"), "/sys/a/temp");
    assert_eq!(join_path("", "temp"), "temp");
}

#[test]
fn contains_and_starts_with() {
    assert!(contains_seq(&cs("thermal_zone3"), &cs("thermal_zone")));
    assert!(!contains_seq(&cs("thermal_zon"), &cs("thermal_zone")));
    assert!(contains_seq(&cs("abc"), &cs("")));
    assert!(starts_with_seq(&cs("cpu  1 2"), &cs("cpu ")));
    assert!(!starts_with_seq(&cs("cpu0 1 2"), &cs("cpu ")));
    assert!(!starts_with_seq(&cs("cp"), &cs("cpu ")));
}
