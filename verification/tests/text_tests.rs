use dm::text::{check_float_literal, format_i64, format_u64, parse_i64};

#[test]
fn parse_i64_reads_signed_literals() {
    assert_eq!(parse_i64("42"), Some(42));
    assert_eq!(parse_i64("-17"), Some(-17));
    assert_eq!(parse_i64("+5"), Some(5));
    assert_eq!(parse_i64("007"), Some(7));
    assert_eq!(parse_i64("-0"), Some(0));
    assert_eq!(parse_i64("9223372036854775807"), Some(i64::MAX));
    assert_eq!(parse_i64("-9223372036854775808"), Some(i64::MIN));
}

#[test]
fn parse_i64_rejects_what_is_no_literal() {
    assert_eq!(parse_i64(""), None);
    assert_eq!(parse_i64("-"), None);
    assert_eq!(parse_i64("+"), None);
    assert_eq!(parse_i64("12a"), None);
    assert_eq!(parse_i64(" 12"), None);
    assert_eq!(parse_i64("1.5"), None);
    assert_eq!(parse_i64("9223372036854775808"), None);
    assert_eq!(parse_i64("-9223372036854775809"), None);
    assert_eq!(parse_i64("٣"), None);
}

#[test]
fn format_i64_writes_canonical_decimal() {
    assert_eq!(format_i64(0), "0");
    assert_eq!(format_i64(7), "7");
    assert_eq!(format_i64(-7), "-7");
    assert_eq!(format_i64(1234567890), "1234567890");
    assert_eq!(format_i64(i64::MAX), "9223372036854775807");
    assert_eq!(format_i64(i64::MIN), "-9223372036854775808");
}

#[test]
fn float_literals_follow_the_grammar() {
    let good = [
        "0", "0.0", "10", "-1.5", "+.5", "1.", "1e10", "1E-3", "2.5e+7", "inf", "-Infinity", "NaN",
        "+nan",
    ];
    for ok in good {
        assert!(check_float_literal(ok), "{}", ok);
        assert!(ok.parse::<f64>().is_ok(), "{}", ok);
    }
    let wrong = [
        "", "-", ".", "e5", "1e", "1e+", "abc", "1.2.3", " 1", "1 ", "0x10", "infinit", "1_000", "é",
    ];
    for bad in wrong {
        assert!(!check_float_literal(bad), "{}", bad);
        assert!(bad.parse::<f64>().is_err(), "{}", bad);
    }
}

fn each_text(alphabet: &[char], max_len: usize, check: &mut dyn FnMut(&str)) {
    let mut stack: Vec<String> = vec![String::new()];
    while let Some(text) = stack.pop() {
        check(&text);
        if text.chars().count() < max_len {
            for c in alphabet {
                let mut longer = text.clone();
                longer.push(*c);
                stack.push(longer);
            }
        }
    }
}

#[test]
fn float_literals_are_what_the_runtime_reads_as_floats() {
    let alphabet = ['0', '7', '.', 'e', 'E', '+', '-', 'i', 'n', 'f'];
    let mut seen = 0;
    let mut accepted = 0;
    each_text(&alphabet, 5, &mut |text| {
        seen += 1;
        let expected = text.parse::<f64>().is_ok();
        if expected {
            accepted += 1;
        }
        assert_eq!(check_float_literal(text), expected, "{:?}", text);
    });
    assert_eq!(seen, 111111);
    assert!(accepted >= 62);
}

#[test]
fn float_words_are_read_in_any_letter_case() {
    let alphabet = ['i', 'I', 'n', 'N', 'f', 'F', 'a', 'A', '-'];
    each_text(&alphabet, 4, &mut |text| {
        assert_eq!(check_float_literal(text), text.parse::<f64>().is_ok(), "{:?}", text);
    });
    let words = [
        "infinity", "INFINITY", "Infinity", "+iNfInItY", "-infinity", "infinit", "infinityy",
        "in finity",
    ];
    for text in words {
        assert_eq!(check_float_literal(text), text.parse::<f64>().is_ok(), "{:?}", text);
    }
    let foreign = ["ınf", "İnf", "ｉｎｆ", "n\u{0430}n", "１２", "1٫5", "1\u{0}", "\u{feff}1"];
    for text in foreign {
        assert!(!check_float_literal(text), "{:?}", text);
        assert!(text.parse::<f64>().is_err(), "{:?}", text);
    }
}

#[test]
fn integer_literals_are_what_the_runtime_reads_as_integers() {
    let alphabet = ['0', '1', '9', '+', '-', '.', ' ', 'a'];
    each_text(&alphabet, 5, &mut |text| {
        assert_eq!(parse_i64(text), text.parse::<i64>().ok(), "{:?}", text);
    });
    for text in [
        "9223372036854775806",
        "9223372036854775807",
        "9223372036854775808",
        "-9223372036854775807",
        "-9223372036854775808",
        "-9223372036854775809",
        "+9223372036854775807",
        "00000000000000000000000000009223372036854775807",
        "-00000000000000000000000000009223372036854775808",
        "92233720368547758070",
        "18446744073709551616",
        "99999999999999999999999999999999999999999",
    ] {
        assert_eq!(parse_i64(text), text.parse::<i64>().ok(), "{:?}", text);
    }
}

#[test]
fn formatting_and_parsing_integers_round_trip() {
    let mut value: i64 = 1;
    for _ in 0..62 {
        for v in [value, -value, value - 1, -(value - 1), value + 1] {
            assert_eq!(format_i64(v), v.to_string());
            assert_eq!(parse_i64(&format_i64(v)), Some(v));
        }
        value *= 2;
    }
    assert_eq!(format_u64(0), "0");
    assert_eq!(format_u64(10), "10");
    assert_eq!(format_u64(u64::MAX), "18446744073709551615");
}
