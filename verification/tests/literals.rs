use possum::lexer::{
    filter_underscores, is_ascii_octdigit, parse_bin_int, parse_byte, parse_byte_str, parse_char,
    parse_hex_int, parse_int, parse_oct_int, parse_str, unescape, Error, IntegerError,
};
use possum::number::{parse_radix, to_digit};

fn integer(r: Result<u64, Error>) -> Result<u64, IntegerError> {
    match r {
        Ok(v) => Ok(v),
        Err(Error::InvalidInteger(kind)) => Err(kind),
        Err(other) => panic!("{:?}", other),
    }
}

fn escape_error<T: std::fmt::Debug>(r: Result<T, Error>) -> String {
    match r {
        Err(Error::InvalidEscape(text)) => text,
        other => panic!("{:?}", other),
    }
}

fn escaped(text: &str) -> String {
    let mut out = String::new();
    for c in text.chars() {
        match c {
            '"' => out.push_str("\\\""),
            '\'' => out.push_str("\\'"),
            '\\' => out.push_str("\\\\"),
            '\n' => out.push_str("\\n"),
            '\t' => out.push_str("\\t"),
            '\r' => out.push_str("\\r"),
            '\0' => out.push_str("\\0"),
            _ => out.push(c),
        }
    }
    out
}

const SAMPLES: [u64; 12] = [
    0,
    1,
    7,
    8,
    9,
    10,
    15,
    16,
    255,
    0xDEAD_BEEF,
    u64::MAX - 1,
    u64::MAX,
];

#[test]
fn decimal_round_trip() {
    for n in SAMPLES {
        assert_eq!(integer(parse_int(&format!("{}", n))), Ok(n));
    }
}

#[test]
fn hexadecimal_round_trip() {
    for n in SAMPLES {
        assert_eq!(integer(parse_hex_int(&format!("0x{:x}", n))), Ok(n));
        assert_eq!(integer(parse_hex_int(&format!("0X{:X}", n))), Ok(n));
    }
}

#[test]
fn octal_round_trip() {
    for n in SAMPLES {
        assert_eq!(integer(parse_oct_int(&format!("0o{:o}", n))), Ok(n));
    }
}

#[test]
fn binary_round_trip() {
    for n in SAMPLES {
        assert_eq!(integer(parse_bin_int(&format!("0b{:b}", n))), Ok(n));
    }
}

#[test]
fn separators_are_stripped() {
    assert_eq!(filter_underscores("1_000_000"), "1000000");
    assert_eq!(filter_underscores("___"), "");
    assert_eq!(filter_underscores(""), "");
    assert_eq!(filter_underscores("a_\u{e9}_b"), "a\u{e9}b");
    assert_eq!(integer(parse_int("1_000_000")), Ok(1_000_000));
    assert_eq!(integer(parse_hex_int("0xFF_ff")), Ok(0xFFFF));
    assert_eq!(integer(parse_oct_int("0o7_7")), Ok(0o77));
    assert_eq!(integer(parse_bin_int("0b1_0_1")), Ok(0b101));
}

#[test]
fn integers_agree_with_the_standard_library() {
    for text in [
        "", "+", "-", "+5", "-5", "++5", "0", "007", "12a", "a", " 1", "1 ", "1.5",
        "18446744073709551615", "18446744073709551616", "99999999999999999999999999",
        "99999999999999999999999999x", "x99999999999999999999999999", "\u{e9}", "\u{661}",
    ] {
        let expected = text.parse::<u64>().map_err(|e| format!("{:?}", e.kind()));
        let actual = integer(parse_int(text)).map_err(|e| format!("{:?}", e));
        assert_eq!(actual, expected, "{:?}", text);
    }
    for (text, radix) in [
        ("ff", 16), ("FF", 16), ("fg", 16), ("ffffffffffffffff", 16), ("10000000000000000", 16),
        ("777", 8), ("778", 8), ("1777777777777777777777", 8), ("2000000000000000000000", 8),
        ("101", 2), ("102", 2), ("zz", 36), ("+zz", 36), ("", 16), ("+", 2),
    ] {
        let expected = u64::from_str_radix(text, radix).map_err(|e| format!("{:?}", e.kind()));
        let actual = parse_radix(text, radix, u64::MAX).map_err(|e| format!("{:?}", e));
        assert_eq!(actual, expected, "{:?}", text);
    }
}

#[test]
fn radix_values_respect_the_bound() {
    assert_eq!(parse_radix("255", 10, 255), Ok(255));
    assert_eq!(parse_radix("256", 10, 255), Err(IntegerError::PosOverflow));
    assert_eq!(parse_radix("10FFFF", 16, 0x10FFFF), Ok(0x10FFFF));
    assert_eq!(parse_radix("25x", 10, 255), Err(IntegerError::InvalidDigit));
    assert_eq!(parse_radix("256x", 10, 255), Err(IntegerError::PosOverflow));
}

#[test]
fn integer_errors() {
    assert_eq!(integer(parse_int("")), Err(IntegerError::Empty));
    assert_eq!(integer(parse_int("_")), Err(IntegerError::Empty));
    assert_eq!(integer(parse_int("1x")), Err(IntegerError::InvalidDigit));
    assert_eq!(integer(parse_int("18446744073709551616")), Err(IntegerError::PosOverflow));
    assert_eq!(integer(parse_hex_int("0x")), Err(IntegerError::Empty));
    assert_eq!(integer(parse_hex_int("0xg")), Err(IntegerError::InvalidDigit));
    assert_eq!(integer(parse_oct_int("0o8")), Err(IntegerError::InvalidDigit));
    assert_eq!(integer(parse_bin_int("0b2")), Err(IntegerError::InvalidDigit));
    assert_eq!(
        integer(parse_bin_int(&format!("0b1{:b}", u64::MAX))),
        Err(IntegerError::PosOverflow)
    );
}

#[test]
fn prefix_is_skipped_unread() {
    assert_eq!(integer(parse_hex_int("zzff")), Ok(0xff));
    assert_eq!(integer(parse_oct_int("\u{e9}\u{e9}17")), Ok(0o17));
}

#[test]
fn digits() {
    assert_eq!(to_digit('0', 10), Some(0));
    assert_eq!(to_digit('9', 10), Some(9));
    assert_eq!(to_digit('a', 16), Some(10));
    assert_eq!(to_digit('F', 16), Some(15));
    assert_eq!(to_digit('g', 16), None);
    assert_eq!(to_digit('8', 8), None);
    assert_eq!(to_digit('z', 36), Some(35));
    assert_eq!(to_digit('\u{e9}', 36), None);
    for c in ['0', '7', '8', 'a', 'Z', '_', '/', ':', '@', '[', '`', '{', '\u{661}'] {
        for radix in [2, 8, 10, 16, 36] {
            assert_eq!(to_digit(c, radix), c.to_digit(radix));
        }
    }
    assert!(is_ascii_octdigit('0') && is_ascii_octdigit('7'));
    assert!(!is_ascii_octdigit('8') && !is_ascii_octdigit('/') && !is_ascii_octdigit('a'));
}

#[test]
fn escapes_decode() {
    let decode = |text: &str, unicode: bool| {
        let chars: Vec<char> = text.chars().collect();
        unescape(&chars, 0, unicode)
    };
    assert!(matches!(decode("\"", true), Ok(('"', 1))));
    assert!(matches!(decode("'", true), Ok(('\'', 1))));
    assert!(matches!(decode("\\", true), Ok(('\\', 1))));
    assert!(matches!(decode("n", true), Ok(('\n', 1))));
    assert!(matches!(decode("t", true), Ok(('\t', 1))));
    assert!(matches!(decode("r", true), Ok(('\r', 1))));
    assert!(matches!(decode("0", true), Ok(('\0', 1))));
    assert!(matches!(decode("x41rest", true), Ok(('A', 3))));
    assert!(matches!(decode("x7F", false), Ok(('\x7f', 3))));
    assert!(matches!(decode("x0a", false), Ok(('\n', 3))));
    assert!(matches!(decode("u{41}", true), Ok(('A', 5))));
    assert!(matches!(decode("u{+41}", true), Ok(('A', 6))));
    assert!(matches!(decode("u{0000041}z", true), Ok(('A', 10))));
    assert!(matches!(decode("u{10FFFF}", true), Ok(('\u{10FFFF}', 9))));
    assert!(matches!(decode("u{d7ff}", true), Ok(('\u{d7ff}', 7))));
    assert!(matches!(decode("u{e000}", true), Ok(('\u{e000}', 7))));
}

#[test]
fn escapes_start_where_they_are_told() {
    let chars: Vec<char> = "ab\\x41c".chars().collect();
    assert!(matches!(unescape(&chars, 3, true), Ok(('A', 6))));
    assert_eq!(escape_error(unescape(&chars, 7, true)), "\\");
}

#[test]
fn escapes_fail_with_their_text() {
    let decode = |text: &str, unicode: bool| {
        let chars: Vec<char> = text.chars().collect();
        escape_error(unescape(&chars, 0, unicode))
    };
    assert_eq!(decode("", true), "\\");
    assert_eq!(decode("q", true), "\\q");
    assert_eq!(decode("\u{e9}", true), "\\\u{e9}");
    assert_eq!(decode("x", true), "\\x");
    assert_eq!(decode("x8", true), "\\x8");
    assert_eq!(decode("xZZ", true), "\\xZ");
    assert_eq!(decode("x4", true), "\\x4");
    assert_eq!(decode("x4g", true), "\\x4g");
    assert_eq!(decode("u", true), "\\u");
    assert_eq!(decode("u41", true), "\\u");
    assert_eq!(decode("u{41", true), "\\u{41");
    assert_eq!(decode("u{", true), "\\u{");
    assert_eq!(decode("u{}", true), "\\u{}");
    assert_eq!(decode("u{+}", true), "\\u{+}");
    assert_eq!(decode("u{-41}", true), "\\u{-41}");
    assert_eq!(decode("u{4 1}", true), "\\u{4 1}");
    assert_eq!(decode("u{d800}", true), "\\u{d800}");
    assert_eq!(decode("u{dfff}", true), "\\u{dfff}");
    assert_eq!(decode("u{110000}", true), "\\u{110000}");
    assert_eq!(decode("u{100000000}", true), "\\u{100000000}");
    assert_eq!(decode("u{41}", false), "\\u");
}

#[test]
fn strings_round_trip() {
    for text in [
        "", "plain", "\"", "'", "\\", "\n\t\r\0", "a\"b\\c'd", "\\n", "\u{e9}\u{4e2d}\u{1F600}",
        "tab\there", "\\\\\"\"", "\u{7f}\u{80}",
    ] {
        let literal = format!("\"{}\"", escaped(text));
        assert_eq!(parse_str(&literal).unwrap(), text, "{:?}", literal);
    }
}

#[test]
fn characters_round_trip() {
    for c in ['a', '"', '\'', '\\', '\n', '\t', '\r', '\0', '\u{e9}', '\u{1F600}', ' '] {
        let literal = format!("'{}'", escaped(&c.to_string()));
        assert_eq!(parse_char(&literal).unwrap(), c, "{:?}", literal);
    }
}

#[test]
fn byte_strings_round_trip() {
    let all: Vec<u8> = (0..128).collect();
    let text: String = all.iter().map(|b| *b as char).collect();
    let literal = format!("b\"{}\"", escaped(&text));
    assert_eq!(parse_byte_str(&literal).unwrap(), all);
    for b in 0..128u8 {
        let literal = format!("b'{}'", escaped(&(b as char).to_string()));
        assert_eq!(parse_byte(&literal).unwrap(), b, "{:?}", literal);
    }
}

#[test]
fn string_bodies() {
    assert_eq!(parse_str("\"\"").unwrap(), "");
    assert_eq!(parse_str(r#""\x41\u{42}C""#).unwrap(), "ABC");
    assert_eq!(parse_str("|a|").unwrap(), "a");
    assert_eq!(escape_error(parse_str(r#""ab\""#)), "\\");
    assert_eq!(escape_error(parse_str(r#""\q then \x41""#)), "\\q");
    assert_eq!(escape_error(parse_str(r#""ok \u{41""#)), "\\u{41");
}

#[test]
fn character_bodies() {
    assert_eq!(parse_char("'a'").unwrap(), 'a');
    assert_eq!(parse_char("'ab'").unwrap(), 'a');
    assert_eq!(parse_char(r"'\x41'").unwrap(), 'A');
    assert_eq!(parse_char(r"'\u{1F600}'").unwrap(), '\u{1F600}');
    assert_eq!(escape_error(parse_char(r"'\'")), "\\");
    assert_eq!(escape_error(parse_char(r"'\xg'")), "\\xg");
}

#[test]
fn byte_bodies() {
    assert_eq!(parse_byte_str("b\"\"").unwrap(), Vec::<u8>::new());
    assert_eq!(parse_byte_str(r#"b"a\x00\x7f\n""#).unwrap(), vec![b'a', 0, 0x7f, b'\n']);
    assert_eq!(parse_byte_str("b\"\u{e9}\"").unwrap(), vec![0xc3, 0xa9]);
    assert_eq!(escape_error(parse_byte_str(r#"b"\u{41}""#)), "\\u");
    assert_eq!(escape_error(parse_byte_str("b\"\\\u{e9}\"")), "\\\u{c3}");
    assert_eq!(parse_byte("b'a'").unwrap(), b'a');
    assert_eq!(parse_byte(r"b'\x41'").unwrap(), 0x41);
    assert_eq!(parse_byte(r"b'\''").unwrap(), b'\'');
    assert_eq!(escape_error(parse_byte(r"b'\8'")), "\\8");
}
