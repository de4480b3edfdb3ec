use possum::lexer::{lex, next_token, Error, IntegerError, Literal, Scalar, Span, Token};

fn show(source: &str) -> Vec<String> {
    lex(source)
        .iter()
        .map(|(result, span)| match result {
            Ok(token) => format!("{}..{} {:?}", span.start, span.end, token),
            Err(error) => format!("{}..{} !{:?}", span.start, span.end, error),
        })
        .collect()
}

fn tokens(source: &str) -> Vec<String> {
    lex(source)
        .iter()
        .map(|(result, _)| match result {
            Ok(token) => format!("{:?}", token),
            Err(error) => format!("!{:?}", error),
        })
        .collect()
}

#[test]
fn empty_source_has_no_tokens() {
    assert!(lex("").is_empty());
    assert!(lex(" \t\r\n").is_empty());
}

#[test]
fn letter_is_one_identifier() {
    assert_eq!(show("letter"), vec!["0..6 Identifier(\"letter\")"]);
}

#[test]
fn let_is_a_keyword() {
    assert_eq!(show("let"), vec!["0..3 Scalar(Let)"]);
    assert_eq!(tokens("let letter _let let_"), vec![
        "Scalar(Let)",
        "Identifier(\"letter\")",
        "Identifier(\"_let\")",
        "Identifier(\"let_\")",
    ]);
}

#[test]
fn double_equal_is_one_token() {
    assert_eq!(show("=="), vec!["0..2 Scalar(Equal)"]);
    assert_eq!(tokens("==="), vec!["Scalar(Equal)", "Scalar(Assign)"]);
}

#[test]
fn longer_operators_win() {
    assert_eq!(tokens("+= + :: : .. . != ! >= > <= < || | && &"), vec![
        "Scalar(PlusAssign)",
        "Scalar(Plus)",
        "Scalar(Path)",
        "Scalar(Colon)",
        "Scalar(Range)",
        "Scalar(Dot)",
        "Scalar(NotEqual)",
        "Scalar(Bang)",
        "Scalar(GreaterEqual)",
        "Scalar(Greater)",
        "Scalar(LessEqual)",
        "Scalar(Less)",
        "Scalar(Or)",
        "Scalar(Bar)",
        "Scalar(And)",
        "Scalar(Ampersand)",
    ]);
    assert_eq!(tokens("-=*=/=%=|=&=^="), vec![
        "Scalar(MinusAssign)",
        "Scalar(TimesAssign)",
        "Scalar(DivAssign)",
        "Scalar(ModuloAssign)",
        "Scalar(OrAssign)",
        "Scalar(AndAssign)",
        "Scalar(XorAssign)",
    ]);
}

#[test]
fn punctuation() {
    assert_eq!(tokens("(){}[]-*/%^,_=?~;"), vec![
        "Scalar(LeftParen)",
        "Scalar(RightParen)",
        "Scalar(LeftBrace)",
        "Scalar(RightBrace)",
        "Scalar(LeftBracket)",
        "Scalar(RightBracket)",
        "Scalar(Minus)",
        "Scalar(Star)",
        "Scalar(Slash)",
        "Scalar(Modulo)",
        "Scalar(Hat)",
        "Scalar(Comma)",
        "Scalar(Underscore)",
        "Scalar(Assign)",
        "Scalar(Question)",
        "Scalar(Tilde)",
        "Scalar(Semicolon)",
    ]);
}

#[test]
fn keywords() {
    assert_eq!(
        tokens(
            "let const global fn struct if else loop for in mut import export use type \
             constraint is return break continue"
        ),
        vec![
            "Scalar(Let)",
            "Scalar(Const)",
            "Scalar(Global)",
            "Scalar(Fn)",
            "Scalar(Struct)",
            "Scalar(If)",
            "Scalar(Else)",
            "Scalar(Loop)",
            "Scalar(For)",
            "Scalar(In)",
            "Scalar(Mut)",
            "Scalar(Import)",
            "Scalar(Export)",
            "Scalar(Use)",
            "Scalar(Type)",
            "Scalar(Constraint)",
            "Scalar(Is)",
            "Scalar(Return)",
            "Scalar(Break)",
            "Scalar(Continue)",
        ]
    );
    assert_eq!(tokens("constraints iffy"), vec![
        "Identifier(\"constraints\")",
        "Identifier(\"iffy\")",
    ]);
}

#[test]
fn booleans_never_fail() {
    assert_eq!(tokens("true false truex"), vec![
        "Literal(Bool(true))",
        "Literal(Bool(false))",
        "Identifier(\"truex\")",
    ]);
}

#[test]
fn whitespace_and_comments_are_transparent() {
    assert_eq!(tokens("1   +// comment\n 2"), tokens("1+2"));
    assert_eq!(show("1   +// comment\n 2"), vec![
        "0..1 Literal(Integer(1))",
        "4..5 Scalar(Plus)",
        "17..18 Literal(Integer(2))",
    ]);
    assert_eq!(show("1+2"), vec![
        "0..1 Literal(Integer(1))",
        "1..2 Scalar(Plus)",
        "2..3 Literal(Integer(2))",
    ]);
}

#[test]
fn comment_ends_with_its_line() {
    assert_eq!(tokens("a // b\r\nc"), vec!["Identifier(\"a\")", "Identifier(\"c\")"]);
    assert_eq!(tokens("a // b\rc"), vec!["Identifier(\"a\")", "Identifier(\"c\")"]);
    assert_eq!(tokens("// \u{e9}\u{4e2d} \"x\n1"), vec!["Literal(Integer(1))"]);
}

#[test]
fn comment_without_line_end_is_no_comment() {
    assert_eq!(tokens("// b"), vec!["Scalar(Slash)", "Scalar(Slash)", "Identifier(\"b\")"]);
}

#[test]
fn end_to_end_tokens() {
    assert_eq!(show("-1 + 2 * (x - 3)"), vec![
        "0..1 Scalar(Minus)",
        "1..2 Literal(Integer(1))",
        "3..4 Scalar(Plus)",
        "5..6 Literal(Integer(2))",
        "7..8 Scalar(Star)",
        "9..10 Scalar(LeftParen)",
        "10..11 Identifier(\"x\")",
        "12..13 Scalar(Minus)",
        "14..15 Literal(Integer(3))",
        "15..16 Scalar(RightParen)",
    ]);
    assert!(lex("-1 + 2 * (x - 3)").iter().all(|(result, _)| result.is_ok()));
}

#[test]
fn integers_in_every_radix() {
    assert_eq!(tokens("0 42 1_000 0x1F 0Xff_ff 0o17 0O7_7 0b101 0B1_0"), vec![
        "Literal(Integer(0))",
        "Literal(Integer(42))",
        "Literal(Integer(1000))",
        "Literal(Integer(31))",
        "Literal(Integer(65535))",
        "Literal(Integer(15))",
        "Literal(Integer(63))",
        "Literal(Integer(5))",
        "Literal(Integer(2))",
    ]);
    assert_eq!(tokens("18446744073709551615 0xFFFF_FFFF_FFFF_FFFF"), vec![
        "Literal(Integer(18446744073709551615))",
        "Literal(Integer(18446744073709551615))",
    ]);
}

#[test]
fn integer_overflow_is_an_error() {
    assert_eq!(show("18446744073709551616"), vec!["0..20 !InvalidInteger(PosOverflow)"]);
    assert_eq!(tokens("0x1_0000_0000_0000_0000"), vec!["!InvalidInteger(PosOverflow)"]);
}

#[test]
fn separators_stand_between_digits() {
    assert_eq!(tokens("1_"), vec!["Literal(Integer(1))", "Scalar(Underscore)"]);
    assert_eq!(tokens("1__2"), vec![
        "Literal(Integer(1))",
        "Scalar(Underscore)",
        "Scalar(Underscore)",
        "Literal(Integer(2))",
    ]);
    assert_eq!(tokens("1__a"), vec!["Literal(Integer(1))", "Identifier(\"__a\")"]);
    assert_eq!(tokens("0x"), vec!["Literal(Integer(0))", "Identifier(\"x\")"]);
    assert_eq!(tokens("0b2"), vec!["Literal(Integer(0))", "Identifier(\"b2\")"]);
    assert_eq!(tokens("__"), vec!["Scalar(Underscore)", "Scalar(Underscore)"]);
    assert_eq!(tokens("_1"), vec!["Scalar(Underscore)", "Literal(Integer(1))"]);
}

#[test]
fn floats_keep_their_text() {
    assert_eq!(show("1.5 1_0.2_5 6.02e+23 1.0E-1_0"), vec![
        "0..3 Literal(Float(\"1.5\"))",
        "4..11 Literal(Float(\"10.25\"))",
        "12..20 Literal(Float(\"6.02e+23\"))",
        "21..29 Literal(Float(\"1.0E-10\"))",
    ]);
}

#[test]
fn floats_need_digits_on_both_sides() {
    assert_eq!(tokens("1..5"), vec![
        "Literal(Integer(1))",
        "Scalar(Range)",
        "Literal(Integer(5))",
    ]);
    assert_eq!(tokens("1.x"), vec!["Literal(Integer(1))", "Scalar(Dot)", "Identifier(\"x\")"]);
    assert_eq!(tokens(".5"), vec!["Scalar(Dot)", "Literal(Integer(5))"]);
    assert_eq!(tokens("1.5e3"), vec!["Literal(Float(\"1.5\"))", "Identifier(\"e3\")"]);
    assert_eq!(tokens("1.5e+"), vec![
        "Literal(Float(\"1.5\"))",
        "Identifier(\"e\")",
        "Scalar(Plus)",
    ]);
}

#[test]
fn strings_are_decoded() {
    assert_eq!(show("\"\""), vec!["0..2 Literal(String(\"\"))"]);
    assert_eq!(show("\"hi\""), vec!["0..4 Literal(String(\"hi\"))"]);
    let out = lex(r#""a\"b\\n\n\t\r\0\x41\u{e9}\u{1F600}""#);
    assert_eq!(out.len(), 1);
    match &out[0].0 {
        Ok(Token::Literal(Literal::String(s))) => {
            assert_eq!(s, "a\"b\\n\n\t\r\0A\u{e9}\u{1F600}")
        }
        other => panic!("{:?}", other),
    }
    match &lex("\"\u{e9}\n\u{4e2d}\"")[0] {
        (Ok(Token::Literal(Literal::String(s))), span) => {
            assert_eq!(s, "\u{e9}\n\u{4e2d}");
            assert_eq!((span.start, span.end), (0, 8));
        }
        other => panic!("{:?}", other),
    }
}

#[test]
fn hex_escape_decodes_to_ascii() {
    match &lex(r#""\x41""#)[0].0 {
        Ok(Token::Literal(Literal::String(s))) => assert_eq!(s, "A"),
        other => panic!("{:?}", other),
    }
    match &lex(r#""\x7f\x00""#)[0].0 {
        Ok(Token::Literal(Literal::String(s))) => assert_eq!(s, "\x7f\0"),
        other => panic!("{:?}", other),
    }
}

#[test]
fn invalid_escapes_keep_their_text() {
    assert_eq!(show(r#""\xZZ""#), vec!["0..6 !InvalidEscape(\"\\\\xZ\")"]);
    assert_eq!(tokens(r#""\x4Z""#), vec!["!InvalidEscape(\"\\\\x4Z\")"]);
    assert_eq!(tokens(r#""\x80""#), vec!["!InvalidEscape(\"\\\\x8\")"]);
    assert_eq!(tokens(r#""\x4""#), vec!["!InvalidEscape(\"\\\\x4\")"]);
    assert_eq!(tokens(r#""\q""#), vec!["!InvalidEscape(\"\\\\q\")"]);
    assert_eq!(tokens(r#""\u41""#), vec!["!InvalidEscape(\"\\\\u\")"]);
    assert_eq!(tokens(r#""\u{}""#), vec!["!InvalidEscape(\"\\\\u{}\")"]);
    assert_eq!(tokens(r#""\u{110000}""#), vec!["!InvalidEscape(\"\\\\u{110000}\")"]);
    assert_eq!(tokens(r#""\u{D800}""#), vec!["!InvalidEscape(\"\\\\u{D800}\")"]);
    assert_eq!(tokens(r#""\u{41""#), vec!["!InvalidEscape(\"\\\\u{41\")"]);
    assert_eq!(tokens(r#""\u{zz}""#), vec!["!InvalidEscape(\"\\\\u{zz}\")"]);
}

#[test]
fn lone_trailing_backslash_is_an_invalid_escape() {
    assert_eq!(show(r#""abc\""#), vec!["0..6 !InvalidEscape(\"\\\\\")"]);
}

#[test]
fn string_runs_to_its_last_closing_quote() {
    assert_eq!(show(r#""a\" b" c"#), vec![
        "0..7 Literal(String(\"a\\\" b\"))",
        "8..9 Identifier(\"c\")",
    ]);
    assert_eq!(show(r#""a" "b""#), vec![
        "0..3 Literal(String(\"a\"))",
        "4..7 Literal(String(\"b\"))",
    ]);
}

#[test]
fn unterminated_string_is_an_invalid_token() {
    assert_eq!(show("\"abc"), vec!["0..1 !InvalidToken", "1..4 Identifier(\"abc\")"]);
}

#[test]
fn characters_are_decoded() {
    assert_eq!(show("'a'"), vec!["0..3 Literal(Char('a'))"]);
    assert_eq!(show("'\u{e9}'"), vec!["0..4 Literal(Char('\u{e9}'))"]);
    assert_eq!(show("'\u{1F600}'"), vec!["0..6 Literal(Char('\u{1F600}'))"]);
    assert_eq!(tokens(r"'\n' '\'' '\\' '\x41' '\u{263A}' '\0' '\t' '\r'"), vec![
        "Literal(Char('\\n'))",
        "Literal(Char('\\''))",
        "Literal(Char('\\\\'))",
        "Literal(Char('A'))",
        "Literal(Char('\u{263A}'))",
        "Literal(Char('\\0'))",
        "Literal(Char('\\t'))",
        "Literal(Char('\\r'))",
    ]);
    assert_eq!(tokens("'\"'"), vec!["Literal(Char('\"'))"]);
}

#[test]
fn character_errors() {
    assert_eq!(tokens(r"'\q'"), vec!["!InvalidEscape(\"\\\\q\")"]);
    assert_eq!(show(r"'\'"), vec!["0..3 !InvalidEscape(\"\\\\\")"]);
    assert_eq!(show("''"), vec!["0..1 !InvalidToken", "1..2 !InvalidToken"]);
    assert_eq!(show("'ab'"), vec![
        "0..1 !InvalidToken",
        "1..3 Identifier(\"ab\")",
        "3..4 !InvalidToken",
    ]);
}

#[test]
fn byte_strings_are_decoded() {
    match &lex(r#"b"a\"\n\x7f\\""#)[0] {
        (Ok(Token::Literal(Literal::ByteString(bytes))), span) => {
            assert_eq!(bytes, &vec![b'a', b'"', b'\n', 0x7f, b'\\']);
            assert_eq!((span.start, span.end), (0, 14));
        }
        other => panic!("{:?}", other),
    }
    assert_eq!(show("b\"\""), vec!["0..3 Literal(ByteString([]))"]);
    assert_eq!(tokens(r#"b"\u{41}""#), vec!["!InvalidEscape(\"\\\\u\")"]);
}

#[test]
fn byte_strings_hold_ascii_only() {
    assert_eq!(show("b\"\u{e9}\""), vec![
        "0..1 Identifier(\"b\")",
        "1..5 Literal(String(\"\u{e9}\"))",
    ]);
}

#[test]
fn bytes_are_decoded() {
    assert_eq!(show(r"b'a' b'\n' b'\x41' b'\''"), vec![
        "0..4 Literal(Byte(97))",
        "5..10 Literal(Byte(10))",
        "11..18 Literal(Byte(65))",
        "19..24 Literal(Byte(39))",
    ]);
    assert_eq!(tokens(r"b'\q'"), vec!["!InvalidEscape(\"\\\\q\")"]);
    assert_eq!(tokens("b'\u{e9}'"), vec![
        "Identifier(\"b\")",
        "Literal(Char('\u{e9}'))",
    ]);
}

#[test]
fn unmatched_characters_are_reported_one_by_one() {
    assert_eq!(show("@#"), vec!["0..1 !InvalidToken", "1..2 !InvalidToken"]);
    assert_eq!(show("a \u{e9}\u{1F600} b"), vec![
        "0..1 Identifier(\"a\")",
        "2..4 !InvalidToken",
        "4..8 !InvalidToken",
        "9..10 Identifier(\"b\")",
    ]);
}

#[test]
fn lexing_is_deterministic() {
    let source = "let x = 0x1F + \"a\\n\" // c\n 'q' @ 1.5";
    assert_eq!(show(source), show(source));
}

#[test]
fn spans_are_ordered_and_inside_the_source() {
    let source = "fn f(a, b) { return a <= b && !c; } // done\n\"s\" 'c' b\"b\" 0b1 \u{e9}";
    let out = lex(source);
    let mut last = 0;
    for (_, span) in &out {
        assert!(last <= span.start);
        assert!(span.start < span.end);
        assert!(span.end <= source.len());
        assert!(source.is_char_boundary(span.start) && source.is_char_boundary(span.end));
        last = span.end;
    }
    assert_eq!(out.len(), 22);
}

#[test]
fn identifier_borrows_the_source() {
    let source = String::from("  name_1 ");
    let out = lex(&source);
    match &out[0] {
        (Ok(Token::Identifier(text)), Span { start, end }) => {
            assert_eq!(*text, "name_1");
            assert_eq!(text.as_ptr(), source[*start..*end].as_ptr());
        }
        other => panic!("{:?}", other),
    }
}

#[test]
fn scalar_tags_compare() {
    match &lex("+")[0].0 {
        Ok(Token::Scalar(tag)) => {
            assert_eq!(*tag, Scalar::Plus);
            assert_ne!(*tag, Scalar::Minus);
        }
        other => panic!("{:?}", other),
    }
}

#[test]
fn errors_carry_their_kind() {
    assert!(matches!(lex("$")[0].0, Err(Error::InvalidToken)));
    assert!(matches!(
        lex("99999999999999999999")[0].0,
        Err(Error::InvalidInteger(IntegerError::PosOverflow))
    ));
    match &lex(r#""\x""#)[0].0 {
        Err(Error::InvalidEscape(text)) => assert_eq!(text, "\\x"),
        other => panic!("{:?}", other),
    }
}

#[test]
fn tokens_come_one_at_a_time() {
    let source = " a // c\n+ \u{e9} ";
    let mut pos = 0;
    let mut seen = Vec::new();
    while let Some((result, span)) = next_token(source, pos) {
        assert!(pos <= span.start && span.start < span.end);
        seen.push(match result {
            Ok(token) => format!("{}..{} {:?}", span.start, span.end, token),
            Err(error) => format!("{}..{} !{:?}", span.start, span.end, error),
        });
        pos = span.end;
    }
    assert_eq!(seen, show(source));
    assert_eq!(seen, vec!["1..2 Identifier(\"a\")", "8..9 Scalar(Plus)", "10..12 !InvalidToken"]);
    assert!(next_token(source, source.len()).is_none());
    assert!(next_token("  // only\n", 0).is_none());
}

#[test]
fn errors_describe_themselves() {
    assert_eq!(Error::InvalidToken.message(), "invalid token");
    assert_eq!(Error::InvalidFloat.message(), "invalid float");
    assert_eq!(
        Error::InvalidInteger(IntegerError::Empty).message(),
        "invalid integer: cannot parse integer from empty string"
    );
    assert_eq!(
        Error::InvalidInteger(IntegerError::InvalidDigit).message(),
        "invalid integer: invalid digit found in string"
    );
    assert_eq!(
        Error::InvalidInteger(IntegerError::PosOverflow).message(),
        "invalid integer: number too large to fit in target type"
    );
    assert_eq!(
        Error::InvalidEscape(String::from("\\q")).message(),
        "invalid escape sequence: \\q"
    );
    match &lex("\"\\u{110000}\"")[0].0 {
        Err(error) => assert_eq!(error.message(), "invalid escape sequence: \\u{110000}"),
        other => panic!("{:?}", other),
    }
    assert_eq!(
        IntegerError::PosOverflow.message(),
        "1".repeat(30).parse::<u64>().unwrap_err().to_string()
    );
    assert_eq!(IntegerError::Empty.message(), "".parse::<u64>().unwrap_err().to_string());
    assert_eq!(IntegerError::InvalidDigit.message(), "x".parse::<u64>().unwrap_err().to_string());
}

fn escaped(text: &str) -> String {
    let mut out = String::new();
    for c in text.chars() {
        match c {
            '"' => out.push_str("\\\""),
            '\'' => out.push_str("\\'"),
            '\\' => out.push_str("\\\\"),
            '\n' => out.push_str("\\n"),
            '\t' => out.push_str("\\t"),
            '\r' => out.push_str("\\r"),
            '\0' => out.push_str("\\0"),
            _ => out.push(c),
        }
    }
    out
}

fn only(source: &str) -> Token<'_> {
    let mut out = lex(source);
    assert_eq!(out.len(), 1, "{:?}", source);
    let (result, span) = out.remove(0);
    assert_eq!((span.start, span.end), (0, source.len()), "{:?}", source);
    result.unwrap()
}

#[test]
fn integers_round_trip_through_the_tokenizer() {
    for n in [0u64, 1, 9, 10, 255, 4096, 0xDEAD_BEEF, u64::MAX] {
        for source in [
            format!("{}", n),
            format!("0x{:x}", n),
            format!("0o{:o}", n),
            format!("0b{:b}", n),
        ] {
            assert!(matches!(only(&source), Token::Literal(Literal::Integer(v)) if v == n));
        }
    }
}

#[test]
fn text_round_trips_through_the_tokenizer() {
    for text in [
        "", "plain", "\"", "'", "\\", "\\\"", "\"\"\"", "a\\", "\n\t\r\0", "\u{e9}\"\u{4e2d}\\",
        " // no comment\n", "\u{1F600}",
    ] {
        match only(&format!("\"{}\"", escaped(text))) {
            Token::Literal(Literal::String(s)) => assert_eq!(s, text),
            other => panic!("{:?}", other),
        }
    }
    for c in ['a', '"', '\'', '\\', '\n', '\t', '\r', '\0', ' ', '\u{e9}', '\u{4e2d}', '\u{1F600}'] {
        match only(&format!("'{}'", escaped(&c.to_string()))) {
            Token::Literal(Literal::Char(d)) => assert_eq!(d, c),
            other => panic!("{:?}", other),
        }
    }
}

#[test]
fn bytes_round_trip_through_the_tokenizer() {
    let all: Vec<u8> = (0..128).collect();
    let text: String = all.iter().map(|b| *b as char).collect();
    match only(&format!("b\"{}\"", escaped(&text))) {
        Token::Literal(Literal::ByteString(bytes)) => assert_eq!(bytes, all),
        other => panic!("{:?}", other),
    }
    for b in 0..128u8 {
        match only(&format!("b'{}'", escaped(&(b as char).to_string()))) {
            Token::Literal(Literal::Byte(d)) => assert_eq!(d, b),
            other => panic!("{:?}", other),
        }
    }
}

#[test]
fn a_word_is_a_keyword_or_an_identifier() {
    for word in ["let", "fn", "if", "true", "false", "continue", "constraint"] {
        assert!(matches!(only(word), Token::Scalar(_) | Token::Literal(Literal::Bool(_))));
        for longer in [format!("{}s", word), format!("_{}", word), format!("{}1", word)] {
            match only(&longer) {
                Token::Identifier(text) => assert_eq!(text, longer),
                other => panic!("{:?}", other),
            }
        }
    }
}

#[test]
fn tokens_and_errors_can_be_copied() {
    let source = "let x = 0x1F + \"a\\n\" 'q' b\"z\" b'y' 1.5 true @ \"\\q\" 99999999999999999999";
    for (result, _) in lex(source) {
        match result {
            Ok(token) => assert_eq!(format!("{:?}", token.clone()), format!("{:?}", token)),
            Err(error) => assert_eq!(format!("{:?}", error.clone()), format!("{:?}", error)),
        }
    }
}

fn values(source: &str) -> Vec<String> {
    tokens(source)
}

fn with_gap(source: &str, at: usize, gap: &str) -> String {
    format!("{}{}{}", &source[..at], gap, &source[at..])
}

#[test]
fn gaps_between_lexemes_change_no_token() {
    let gaps = [" ", "\t\r\n", "// note\n", "  // a \"quoted\" 'note' \r\n\t// more\n ", "//\n"];
    for source in [
        "",
        "1+2",
        "let x = 0x1F + \"a b\" // tail\n 'q' b\"z\" 1.5",
        "a == b != c",
        "\"s\" @ \u{e9} 'c'",
        "fn f(a, b) { return a <= b && !c; }",
    ] {
        let mut cuts = vec![0];
        cuts.extend(lex(source).iter().map(|(_, span)| span.end));
        for at in cuts {
            for gap in gaps {
                let spaced = with_gap(source, at, gap);
                assert_eq!(values(&spaced), values(source), "{:?}", spaced);
            }
        }
    }
}

#[test]
fn leading_and_trailing_gaps_change_no_token() {
    for source in ["1+2", "x", "\"a\" 'b'", "a // c\n b", "", "@"] {
        for gap in [" ", "\n\n", "// c\n", " // c\n\t"] {
            assert_eq!(values(&format!("{}{}", gap, source)), values(source));
            assert_eq!(values(&format!("{}{}", source, gap)), values(source));
        }
    }
}

#[test]
fn no_token_stands_for_a_gap() {
    let source = " a // b\n\t+ // c\r\n 1 //d\n";
    for (result, span) in lex(source) {
        assert!(!matches!(result, Ok(Token::Scalar(Scalar::Comment | Scalar::Error))));
        assert!(!source.as_bytes()[span.start].is_ascii_whitespace());
    }
    assert_eq!(values(source), values("a+1"));
}

#[test]
fn a_gap_within_a_lexeme_is_no_gap_between_lexemes() {
    assert_ne!(values(&with_gap("ab", 1, " ")), values("ab"));
    assert_ne!(values(&with_gap("1.5", 1, " ")), values("1.5"));
    assert_ne!(values(&with_gap("\"ab\"", 2, " ")), values("\"ab\""));
}

#[test]
fn a_gap_that_closes_an_open_lexeme_changes_the_tokens() {
    assert_eq!(values("//x y"), vec![
        "Scalar(Slash)",
        "Scalar(Slash)",
        "Identifier(\"x\")",
        "Identifier(\"y\")",
    ]);
    assert_eq!(values(&with_gap("//x y", 3, "\n")), vec!["Identifier(\"y\")"]);
    assert_ne!(values(&with_gap("''", 1, " ")), values("''"));
    assert_ne!(values(&with_gap("\"a\\\" x", 4, " //\"\n")), values("\"a\\\" x"));
    assert_ne!(values("//x\n"), values("//x"));
}
