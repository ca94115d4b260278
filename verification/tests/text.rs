use tick::number::{decimal_text, i64_text, padded_text, parse_i64, parse_usize};
use tick::text::{
    begins_with, chars_of, control, digit, find_from, first_word_of, lower_text, same_text,
    split_text, string_of, text_before, trim_class, trim_text, upper_text, white_space, CharClass,
};

const SAMPLES: [&str; 12] = [
    "",
    " ",
    "a",
    "  a b  ",
    "\u{a0}x\u{3000}",
    "\u{2003}\tTab\r\n",
    "\u{180e}kept\u{200b}",
    "--x--",
    "//a//b//",
    "Stra\u{df}e\u{c4}z",
    "a,b,,c,",
    ",",
];

#[test]
fn character_classes_agree_with_the_standard_library() {
    let mut n: u32 = 0;
    while n <= 0x10ffff {
        if let Some(c) = char::from_u32(n) {
            assert_eq!(white_space(c), c.is_whitespace());
            assert_eq!(control(c), c.is_control());
            assert_eq!(digit(c), c.is_ascii_digit());
            assert_eq!(CharClass::Alphanumeric.contains(c), c.is_ascii_alphanumeric());
            assert_eq!(CharClass::Word.contains(c), !c.is_whitespace());
            assert_eq!(CharClass::Slash.contains(c), c == '/');
            assert_eq!(CharClass::Numeral.contains(c), c == '-' || c.is_ascii_digit());
        }
        n += 1;
    }
}

#[test]
fn characters_and_strings_convert_both_ways() {
    for s in SAMPLES {
        let v = chars_of(s);
        assert_eq!(v, s.chars().collect::<Vec<char>>());
        assert_eq!(string_of(&v), s);
    }
}

#[test]
fn trimming_and_case_agree_with_the_standard_library() {
    for s in SAMPLES {
        assert_eq!(trim_text(s), s.trim());
        assert_eq!(lower_text(s), s.to_ascii_lowercase());
        assert_eq!(upper_text(s), s.to_ascii_uppercase());
        let bare: String = trim_class(&chars_of(s), CharClass::Slash).iter().collect();
        assert_eq!(bare, s.trim_matches('/'));
        assert_eq!(first_word_of(s).as_deref(), s.split_whitespace().next());
    }
}

#[test]
fn splitting_agrees_with_the_standard_library() {
    for s in SAMPLES {
        for c in [',', '-', '/'] {
            let want: Vec<String> = s.split(c).map(|p| p.to_string()).collect();
            assert_eq!(split_text(s, c), want);
        }
    }
}

#[test]
fn searching_finds_the_first_occurrence() {
    let s = chars_of("abcabcab");
    assert_eq!(find_from(&s, 0, &chars_of("ab")), Some(0));
    assert_eq!(find_from(&s, 1, &chars_of("ab")), Some(3));
    assert_eq!(find_from(&s, 7, &chars_of("ab")), None);
    assert_eq!(find_from(&s, 8, &chars_of("")), Some(8));
    assert!(begins_with("aggregate_id", "aggregate"));
    assert!(!begins_with("agg", "aggregate"));
    assert!(same_text("id", "id"));
    assert!(!same_text("id", "ID"));
}

#[test]
fn order_agrees_with_the_standard_library() {
    for a in SAMPLES {
        for b in SAMPLES {
            assert_eq!(text_before(a, b), a < b, "{a:?} {b:?}");
        }
    }
    assert!(text_before("BTC", "BTCUSDT"));
    assert!(text_before("1000SHIBUSDT", "ADAUSDT"));
    assert!(text_before("z\u{ffff}", "z\u{10000}"));
}

const NUMERALS: [&str; 26] = [
    "",
    "0",
    "+0",
    "-0",
    "007",
    "+",
    "-",
    "++1",
    "-+1",
    "1-",
    "12a",
    " 1",
    "\u{661}",
    "9223372036854775807",
    "9223372036854775808",
    "-9223372036854775808",
    "-9223372036854775809",
    "18446744073709551615",
    "18446744073709551616",
    "99999999999999999999x",
    "x99999999999999999999",
    "0000000000000000000000000000012",
    "-5",
    "1_000",
    "123456789",
    "-99999999999999999999",
];

#[test]
fn numerals_are_read_as_the_standard_library_reads_them() {
    for s in NUMERALS {
        match (parse_i64(s), s.parse::<i64>()) {
            (Ok(a), Ok(b)) => assert_eq!(a, b),
            (Err(a), Err(b)) => assert_eq!(a.text(), b.to_string(), "{s:?}"),
            _ => panic!("{s:?}"),
        }
        match (parse_usize(s), s.parse::<usize>()) {
            (Ok(a), Ok(b)) => assert_eq!(a, b),
            (Err(a), Err(b)) => assert_eq!(a.text(), b.to_string(), "{s:?}"),
            _ => panic!("{s:?}"),
        }
    }
}

#[test]
fn numerals_are_written_as_the_standard_library_writes_them() {
    for v in [0, 1, 9, 10, 99, 100, 12345, -1, -5, -10, -999, -1000, i64::MAX, i64::MIN] {
        assert_eq!(i64_text(v), v.to_string());
        assert_eq!(padded_text(v, 4), format!("{v:04}"));
        assert_eq!(padded_text(v, 2), format!("{v:02}"));
        assert_eq!(padded_text(v, 1), format!("{v}"));
        assert_eq!(parse_i64(&i64_text(v)), Ok(v));
    }
    assert_eq!(decimal_text(u128::MAX), u128::MAX.to_string());
}
