use playout::text::{
    chars_equal, find, from_chars, leading_word, parse_i64, push_decimal, replace, split_on,
    starts_with, strip_leading, to_chars, trim, trim_end, trim_start, NumberError,
};

fn text(chars: &[char]) -> String {
    from_chars(chars)
}

#[test]
fn characters_and_strings() {
    assert_eq!(to_chars("a\u{e4}"), vec!['a', '\u{e4}']);
    assert_eq!(from_chars(&['x', '\u{1f3ac}']), "x\u{1f3ac}");
    assert!(chars_equal(&to_chars("ab"), &to_chars("ab")));
    assert!(!chars_equal(&to_chars("ab"), &to_chars("abc")));
}

#[test]
fn trimming_agrees_with_the_standard_library() {
    for c in (0..0x3100_u32).filter_map(char::from_u32) {
        let sample = format!("{c}a {c}b{c}");
        let chars = to_chars(&sample);
        assert_eq!(text(trim(&chars)), sample.trim(), "{c:?}");
        assert_eq!(text(trim_start(&chars)), sample.trim_start(), "{c:?}");
        assert_eq!(text(trim_end(&chars)), sample.trim_end(), "{c:?}");
    }
    assert_eq!(text(trim(&to_chars(" \t\r\n"))), "");
}

#[test]
fn searching_agrees_with_the_standard_library() {
    for sample in ["", "a", "-->", "a --> b --> c", "--", "-- >", "xx-->"] {
        let chars = to_chars(sample);
        assert_eq!(find(&chars, &to_chars("-->")), sample.find("-->"), "{sample:?}");
        assert_eq!(starts_with(&chars, &to_chars("--")), sample.starts_with("--"));
        let pieces: Vec<String> = split_on(&chars, '-').into_iter().map(text).collect();
        let expected: Vec<&str> = sample.split('-').collect();
        assert_eq!(pieces, expected, "{sample:?}");
        assert_eq!(text(&replace(&chars, '-', '+')), sample.replace('-', "+"));
        assert_eq!(text(strip_leading(&chars, 'x')), sample.trim_start_matches('x'));
    }
    assert_eq!(text(leading_word(&to_chars("ab\u{a0}c d"))), "ab");
}

#[test]
fn numbers_agree_with_the_standard_library() {
    for sample in [
        "0", "007", "-0", "+5", "-17", "9223372036854775807", "-9223372036854775808",
    ] {
        assert_eq!(parse_i64(&to_chars(sample)).unwrap(), sample.parse::<i64>().unwrap());
    }
    assert_eq!(parse_i64(&[]), Err(NumberError::Empty));
    for sample in ["-", "+", "1x", " 1", "--1", "99999999999999999999x"] {
        assert!(sample.parse::<i64>().is_err());
        assert!(parse_i64(&to_chars(sample)).is_err(), "{sample:?}");
    }
    assert_eq!(parse_i64(&to_chars("9223372036854775808")), Err(NumberError::PosOverflow));
    assert_eq!(parse_i64(&to_chars("-9223372036854775809")), Err(NumberError::NegOverflow));
    let mut written = String::from("n=");
    push_decimal(&mut written, 10_203);
    push_decimal(&mut written, 0);
    assert_eq!(written, "n=102030");
}
