use breadcrumbs::text::{i64_text, lines_of, parse_i64, split_text, trim, u64_text};

#[test]
fn decimal_rendering() {
    assert_eq!(u64_text(0), "0");
    assert_eq!(u64_text(1234567890), "1234567890");
    assert_eq!(u64_text(u64::MAX), u64::MAX.to_string());
    assert_eq!(i64_text(-42), "-42");
    assert_eq!(i64_text(i64::MIN), i64::MIN.to_string());
    assert_eq!(i64_text(i64::MAX), i64::MAX.to_string());
}

#[test]
fn parsing_like_str_parse() {
    for s in [
        "42", "+7", "-0", "", "-", "+", "12a", " 1", "9223372036854775807", "9223372036854775808",
        "-9223372036854775808", "-9223372036854775809", "007", "+-1", "1700000000",
    ] {
        assert_eq!(parse_i64(s), s.parse::<i64>().ok(), "input {s:?}");
    }
}

#[test]
fn trimming_unicode_whitespace() {
    assert_eq!(trim("  http://x:1 \t\n"), "http://x:1");
    assert_eq!(trim("\u{3000}\u{a0}model\u{2029}"), "model");
    assert_eq!(trim(" \r\n "), "");
    assert_eq!(trim("a b"), "a b");
    for s in ["", "x", "\u{85}y\u{200a}", "\u{1680} z \u{202f}"] {
        assert_eq!(trim(s), s.trim());
    }
}

#[test]
fn splitting_on_a_character() {
    assert_eq!(split_text("a\u{1f}\u{1f}b", '\u{1f}'), vec!["a", "", "b"]);
    assert_eq!(split_text("", ','), vec![""]);
    assert_eq!(split_text(",", ','), vec!["", ""]);
    for s in ["a,b,c", ",x,", "no sep", "é,ü"] {
        let expected: Vec<String> = s.split(',').map(String::from).collect();
        assert_eq!(split_text(s, ','), expected);
    }
}

#[test]
fn lines_like_str_lines() {
    assert_eq!(lines_of("a\r\nb\n"), vec!["a", "b"]);
    assert_eq!(lines_of(""), Vec::<String>::new());
    assert_eq!(lines_of("\n"), vec![""]);
    assert_eq!(lines_of("a\r"), vec!["a\r"]);
    for s in ["x\n\ny", "one", "\r\n\r\n", "t\rz\nq\r\n", "last\n\n"] {
        let expected: Vec<String> = s.lines().map(String::from).collect();
        assert_eq!(lines_of(s), expected, "input {s:?}");
    }
}
