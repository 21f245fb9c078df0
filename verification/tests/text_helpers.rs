use jw::text::{
    chars_of, contains_str, decimal_string, split_lines, string_from_chars, trim, truncate, wrap_text,
    is_whitespace,
};

#[test]
fn truncate_by_characters() {
    assert_eq!(truncate("hello", 3), "hel");
    assert_eq!(truncate("hello", 5), "hello");
    assert_eq!(truncate("hello", 9), "hello");
    assert_eq!(truncate("héllo", 2), "hé");
    assert_eq!(truncate("abc", 0), "");
}

#[test]
fn wrap_text_cases() {
    assert_eq!(wrap_text("abcdefg", 3), vec!["abc", "def", "g"]);
    assert_eq!(wrap_text("abcdef", 3), vec!["abc", "def"]);
    assert_eq!(wrap_text("", 4), vec![""]);
    assert_eq!(wrap_text("abc", 0), vec!["abc"]);
    assert_eq!(wrap_text("ééé", 2), vec!["éé", "é"]);
}

#[test]
fn wrapped_lines_spell_the_text() {
    let t = "jq '{ \".a\": .a }' 'some/file.json'";
    for w in 1..12 {
        let lines = wrap_text(t, w);
        assert_eq!(lines.concat(), t);
        for l in &lines {
            assert!(l.chars().count() <= w);
        }
    }
}

#[test]
fn decimal_strings() {
    assert_eq!(decimal_string(0), "0");
    assert_eq!(decimal_string(7), "7");
    assert_eq!(decimal_string(10), "10");
    assert_eq!(decimal_string(9876543210), "9876543210");
    assert_eq!(decimal_string(usize::MAX), usize::MAX.to_string());
}

#[test]
fn trim_like_std() {
    for s in ["  a b  ", "\t\nx\r\n", "   ", "", "\u{3000}q\u{2028}", "no"] {
        assert_eq!(trim(s), s.trim());
    }
}

#[test]
fn whitespace_like_std() {
    for c in ['\t', ' ', 'a', '\u{85}', '\u{a0}', '\u{2009}', '\u{200b}', '\u{3000}', '_'] {
        assert_eq!(is_whitespace(c), c.is_whitespace());
    }
}

#[test]
fn contains_like_std() {
    for (h, n) in [("hello", "ell"), ("hello", ""), ("", ""), ("", "a"), ("abc", "abcd"), ("aab", "ab"), ("abc", "c")] {
        assert_eq!(contains_str(h, n), h.contains(n));
    }
}

#[test]
fn lines_like_std() {
    for s in ["a\nb", "a\nb\n", "", "\n", "a\r\nb\r\n", "x\n\ny", "end\r", "\r\n\r\n"] {
        let expected: Vec<String> = s.lines().map(|l| l.to_string()).collect();
        assert_eq!(split_lines(s), expected);
    }
}

#[test]
fn chars_round_trip() {
    let cs = chars_of("añb");
    assert_eq!(cs, vec!['a', 'ñ', 'b']);
    assert_eq!(string_from_chars(&cs), "añb");
}
