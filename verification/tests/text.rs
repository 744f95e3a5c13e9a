use staff_roster::text::{
    chars_of, eq_ignoring_case, is_whitespace, split_whitespace, to_ascii_lower,
    trim_trailing_periods,
};

#[test]
fn whitespace_is_what_unicode_says() {
    for code in 0..=0x10FFFFu32 {
        if let Some(c) = char::from_u32(code) {
            assert_eq!(is_whitespace(c), c.is_whitespace(), "{c:?}");
        }
    }
}

#[test]
fn whitespace_examples() {
    for c in [' ', '\t', '\n', '\r', '\u{b}', '\u{c}', '\u{85}', '\u{a0}', '\u{2028}', '\u{3000}'] {
        assert!(is_whitespace(c), "{c:?}");
    }
    for c in ['a', '.', '0', '\u{0}', '\u{8}', '\u{e}', '\u{200b}', '\u{180e}', '\u{feff}'] {
        assert!(!is_whitespace(c), "{c:?}");
    }
}

#[test]
fn characters_one_by_one() {
    assert_eq!(chars_of(""), Vec::<char>::new());
    assert_eq!(chars_of("añ日🙂"), vec!['a', 'ñ', '日', '🙂']);
}

#[test]
fn splitting_examples() {
    assert_eq!(split_whitespace(""), Vec::<&str>::new());
    assert_eq!(split_whitespace(" \t\n"), Vec::<&str>::new());
    assert_eq!(split_whitespace("one"), vec!["one"]);
    assert_eq!(split_whitespace(" one"), vec!["one"]);
    assert_eq!(split_whitespace("one "), vec!["one"]);
    assert_eq!(split_whitespace("one two"), vec!["one", "two"]);
    assert_eq!(split_whitespace("  one \t two\n\nthree  "), vec!["one", "two", "three"]);
    assert_eq!(split_whitespace("a.b,c d"), vec!["a.b,c", "d"]);
    assert_eq!(split_whitespace("日本 語\u{3000}🙂 é"), vec!["日本", "語", "🙂", "é"]);
}

#[test]
fn splitting_agrees_with_the_standard_library() {
    let texts = [
        "",
        " ",
        "Add Sally to Engineering",
        "\u{a0}x\u{1680}y\u{2000}z\u{200a}\u{2028}\u{2029}w\u{202f}v\u{205f}u\u{3000}",
        "a\u{200b}b c\u{feff}d",
        "tabs\tand\u{b}more\u{c}and\u{85}next",
        "  leading and trailing  ",
        "ünïcödé  wörds  日本語",
    ];
    for text in texts {
        let expected: Vec<&str> = text.split_whitespace().collect();
        assert_eq!(split_whitespace(text), expected, "{text:?}");
    }
}

#[test]
fn lowering_ascii_capitals() {
    assert_eq!(to_ascii_lower('A'), 'a');
    assert_eq!(to_ascii_lower('Z'), 'z');
    assert_eq!(to_ascii_lower('q'), 'q');
    assert_eq!(to_ascii_lower('@'), '@');
    assert_eq!(to_ascii_lower('['), '[');
    assert_eq!(to_ascii_lower('É'), 'É');
    for code in 0..=0x10FFFFu32 {
        if let Some(c) = char::from_u32(code) {
            assert_eq!(to_ascii_lower(c), c.to_ascii_lowercase(), "{c:?}");
        }
    }
}

#[test]
fn comparing_without_case() {
    assert!(eq_ignoring_case("", ""));
    assert!(eq_ignoring_case("add", "ADD"));
    assert!(eq_ignoring_case("Hello, World", "hELLO, wORLD"));
    assert!(eq_ignoring_case("straße", "STRAßE"));
    assert!(!eq_ignoring_case("add", "ad"));
    assert!(!eq_ignoring_case("ad", "add"));
    assert!(!eq_ignoring_case("add", "adb"));
    assert!(!eq_ignoring_case("é", "É"));
    assert!(!eq_ignoring_case("k", "\u{212a}"));
    assert!(!eq_ignoring_case("a", ""));
    assert!(!eq_ignoring_case("", "a"));
}

#[test]
fn comparing_without_case_agrees_with_the_standard_library() {
    let texts = ["", "a", "A", "ab", "AB", "aB", "abc", "Kelvin", "\u{212a}elvin", "@", "`", "[", "{"];
    for a in texts {
        for b in texts {
            assert_eq!(eq_ignoring_case(a, b), a.eq_ignore_ascii_case(b), "{a:?} {b:?}");
        }
    }
}

#[test]
fn trimming_periods() {
    assert_eq!(trim_trailing_periods(""), "");
    assert_eq!(trim_trailing_periods("."), "");
    assert_eq!(trim_trailing_periods("..."), "");
    assert_eq!(trim_trailing_periods("Add"), "Add");
    assert_eq!(trim_trailing_periods("Add."), "Add");
    assert_eq!(trim_trailing_periods("Add..."), "Add");
    assert_eq!(trim_trailing_periods(".Add"), ".Add");
    assert_eq!(trim_trailing_periods("A.d.d."), "A.d.d");
    assert_eq!(trim_trailing_periods("Add.,"), "Add.,");
    assert_eq!(trim_trailing_periods("日本.."), "日本");
}
