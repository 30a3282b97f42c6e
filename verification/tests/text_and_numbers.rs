use sales_regression::number::{digit, is_number, to_chars};
use sales_regression::text::{trim, whitespace};

#[test]
fn whitespace_is_the_unicode_property() {
    for code in 0u32..=0x10FFFF {
        if let Some(c) = char::from_u32(code) {
            assert_eq!(whitespace(c), c.is_whitespace(), "U+{:04X}", code);
        }
    }
}

#[test]
fn trim_removes_both_ends_only() {
    assert_eq!(trim("  gross sales \t"), "gross sales");
    assert_eq!(trim("units sold"), "units sold");
    assert_eq!(trim(" a  b "), "a  b");
    assert_eq!(trim("x "), "x");
    assert_eq!(trim(" x"), "x");
}

#[test]
fn trim_of_blank_text_is_empty() {
    assert_eq!(trim(""), "");
    assert_eq!(trim(" "), "");
    assert_eq!(trim(" \t\r\n "), "");
}

#[test]
fn trim_knows_wide_whitespace() {
    assert_eq!(trim("\u{a0}4.5\u{3000}"), "4.5");
    assert_eq!(trim("\u{2003}\u{2028}é \u{1680}"), "é");
    assert_eq!(trim("\u{200b}x\u{200b}"), "\u{200b}x\u{200b}");
}

#[test]
fn trim_agrees_with_the_standard_library() {
    let samples = [
        "",
        " ",
        "a",
        " a",
        "a ",
        " a ",
        "\t\tPublishing Year\n",
        "  Book_average_rating",
        "\u{85}x\u{85}",
        "\u{feff}x",
        "  \u{1F600} smile \u{1F600}  ",
        " \u{2009}\u{200a} thin \u{202f}\u{205f} ",
        "inner  space",
    ];
    for s in samples {
        assert_eq!(trim(s), s.trim(), "{:?}", s);
    }
}

#[test]
fn trim_is_idempotent() {
    for s in [" a b ", "\t", "x", "  \u{3000}y z\u{a0}"] {
        let once = trim(s);
        assert_eq!(trim(&once), once);
    }
}

#[test]
fn to_chars_lists_the_characters() {
    assert_eq!(to_chars("a1é"), vec!['a', '1', 'é']);
    assert_eq!(to_chars(""), Vec::<char>::new());
}

#[test]
fn digit_is_ascii_only() {
    assert!(digit('0'));
    assert!(digit('9'));
    assert!(!digit('/'));
    assert!(!digit(':'));
    assert!(!digit('٣'));
}

#[test]
fn numbers_that_are_accepted() {
    for s in [
        "0", "7", "2019", "-1", "+1", "1.", ".5", "4.25", "+.5", "-5.", "1e5", "1E5", "1e+5",
        "1e-5", "1.5e10", ".5e1", "5.e1", "007", "1e007", "inf", "-inf", "+inf", "INF", "iNf",
        "infinity", "Infinity", "-INFINITY", "nan", "NaN", "-nan", "+NAN",
    ] {
        assert!(is_number(s), "{:?}", s);
    }
}

#[test]
fn numbers_that_are_rejected() {
    for s in [
        "", "+", "-", ".", "+.", "e5", ".e1", "+.e1", "1e", "1e+", "1e-", "1..2", "1.2.3", "abc",
        " 1", "1 ", "1,5", "0x10", "1_000", "infinit", "in", "nanx", "infinityy", "1e5.5",
        "--1", "+-1", "1e--1", "..", "1f", "１", "٣", "1e5e5", "e", "E1", "i", "n/a", "4.5 stars",
    ] {
        assert!(!is_number(s), "{:?}", s);
    }
}

#[test]
fn number_syntax_is_that_of_float_parsing() {
    let alphabet = ['0', '1', '.', 'e', 'E', '+', '-', 'i', 'n', 'f', 'a', 'N', ' ', 'x'];
    let mut words: Vec<String> = vec![String::new()];
    let mut checked = 0usize;
    for _ in 0..4 {
        let mut longer = Vec::new();
        for w in &words {
            for c in alphabet {
                let mut s = w.clone();
                s.push(c);
                assert_eq!(is_number(&s), s.parse::<f64>().is_ok(), "{:?}", s);
                checked += 1;
                longer.push(s);
            }
        }
        words = longer;
    }
    assert_eq!(checked, 14 + 196 + 2744 + 38416);
}

#[test]
fn long_number_words_agree_with_float_parsing() {
    for s in [
        "infinity", "INFINITY", "InFiNiTy", "infinite", "infinitY", "-infinity", "+Infinity",
        "infinity ", "nan nan", "123456789012345678901234567890", "1e400", "1e-400",
        "0.000000000000000000000000000001", "179769313486231570000000000000000000000e300",
        "3.141592653589793238462643383279", "-0.0", "+0e0",
    ] {
        assert_eq!(is_number(s), s.parse::<f64>().is_ok(), "{:?}", s);
    }
}
