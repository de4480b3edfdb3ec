//! Scanners: for each lexical rule, the longest stretch of the source that it
//! matches at a position.

use crate::lexer::Scalar;
use crate::number::to_digit;
use crate::rules::{
    byte, fixed_text, in_radix, is_alpha, is_char_literal, is_comment, is_digits, is_float,
    is_float_at, is_identifier, is_identifier_at, is_lexeme, is_next_lexeme, is_plain, is_prefixed,
    is_quoted, is_quoted_char, is_space, is_text, is_word, priority, rule_matches,
};
use crate::text::char_width;
use vstd::prelude::*;
use vstd::string::StringSliceAdditionalSpecFns;

verus! {

/// `hi` is where the longest run of digits of the radix at `lo` ends, or `lo`
/// where there is no digit.
pub open spec fn longest_digits(b: Seq<u8>, lo: int, hi: int, radix: u32) -> bool {
    &&& 0 <= lo <= hi <= b.len()
    &&& (lo < hi ==> is_digits(b, lo, hi, radix))
    &&& forall|e: int| hi < e ==> !#[trigger] is_digits(b, lo, e, radix)
}

/// `x` is a digit of the radix.
pub fn is_radix_digit(x: u8, radix: u32) -> (r: bool)
    requires
        2 <= radix <= 36,
    ensures
        r == in_radix(x, radix),
{
    to_digit(x as char, radix).is_some()
}

/// `x` is a letter of the ASCII alphabet.
pub fn is_letter(x: u8) -> (r: bool)
    ensures
        r == is_alpha(x),
{
    (x >= 'a' as u8 && x <= 'z' as u8) || (x >= 'A' as u8 && x <= 'Z' as u8)
}

/// `x` may stand in an identifier after its first letter.
pub fn is_word_byte(x: u8) -> (r: bool)
    ensures
        r == is_word(x),
{
    is_letter(x) || (x >= '0' as u8 && x <= '9' as u8) || x == '_' as u8
}

/// The end of the longest run of digits of the radix, with single
/// separators between them, that begins at `pos`.
pub fn scan_digits(bytes: &[u8], pos: usize, radix: u32) -> (end: usize)
    requires
        2 <= radix <= 36,
        pos <= bytes.len(),
    ensures
        longest_digits(bytes@, pos as int, end as int, radix),
{
    let n: usize = bytes.len();
    if pos >= n || !is_radix_digit(bytes[pos], radix) {
        return pos;
    }
    let mut end: usize = pos + 1;
    loop
        invariant
            2 <= radix <= 36,
            n == bytes.len(),
            pos < end <= n,
            is_digits(bytes@, pos as int, end as int, radix),
        ensures
            pos < end <= n,
            is_digits(bytes@, pos as int, end as int, radix),
            end < n ==> !in_radix(bytes@[end as int], radix),
            end + 1 < n && bytes@[end as int] == byte('_') ==> !in_radix(bytes@[end + 1], radix),
        decreases n - end,
    {
        if end < n && is_radix_digit(bytes[end], radix) {
            end = end + 1;
        } else if n - end > 1 && bytes[end] == '_' as u8 && is_radix_digit(bytes[end + 1], radix) {
            end = end + 2;
        } else {
            break ;
        }
    }
    assert forall|e: int| end < e implies !#[trigger] is_digits(bytes@, pos as int, e, radix) by {
        if is_digits(bytes@, pos as int, e, radix) {
            let x = bytes@[end as int];
            assert(in_radix(x, radix) || x == byte('_'));
            if e > end + 1 {
                let y = bytes@[end + 1];
                assert(in_radix(y, radix) || y == byte('_'));
            }
        }
    }
    end
}

/// The end of the longest integer literal with a radix prefix at `pos`, or
/// `pos` where there is none.
pub fn scan_prefixed(bytes: &[u8], pos: usize, lower: char, upper: char, radix: u32) -> (end:
    usize)
    requires
        2 <= radix <= 36,
        pos <= bytes.len(),
        lower as u32 <= 127,
        upper as u32 <= 127,
    ensures
        pos <= end <= bytes.len(),
        pos < end ==> is_prefixed(bytes@, pos as int, end as int, lower, upper, radix),
        forall|e: int|
            end < e ==> !#[trigger] is_prefixed(bytes@, pos as int, e, lower, upper, radix),
{
    let n: usize = bytes.len();
    if n - pos < 3 || bytes[pos] != '0' as u8 || (bytes[pos + 1] != lower as u8 && bytes[pos + 1]
        != upper as u8) {
        return pos;
    }
    let end = scan_digits(bytes, pos + 2, radix);
    if end > pos + 2 {
        end
    } else {
        pos
    }
}

/// The end of the longest float literal at `pos`, or `pos` where there is
/// none.
pub fn scan_float(bytes: &[u8], pos: usize) -> (end: usize)
    requires
        pos <= bytes.len(),
    ensures
        pos <= end <= bytes.len(),
        pos < end ==> is_float(bytes@, pos as int, end as int),
        forall|e: int| end < e ==> !#[trigger] is_float(bytes@, pos as int, e),
{
    let n: usize = bytes.len();
    let ghost b = bytes@;
    let dot = scan_digits(bytes, pos, 10);
    if dot == pos || dot >= n || bytes[dot] != '.' as u8 {
        assert forall|e: int| pos < e implies !#[trigger] is_float(b, pos as int, e) by {
            if is_float(b, pos as int, e) {
                let (d, f) = choose|d: int, f: int| is_float_at(b, pos as int, d, f, e);
                lemma_point(b, pos as int, dot as int, d);
            }
        }
        return pos;
    }
    let frac = scan_digits(bytes, dot + 1, 10);
    if frac == dot + 1 {
        assert forall|e: int| pos < e implies !#[trigger] is_float(b, pos as int, e) by {
            if is_float(b, pos as int, e) {
                let (d, f) = choose|d: int, f: int| is_float_at(b, pos as int, d, f, e);
                lemma_point(b, pos as int, dot as int, d);
            }
        }
        return pos;
    }
    let mut end: usize = frac;
    if n - frac > 2 && (bytes[frac] == 'e' as u8 || bytes[frac] == 'E' as u8) && (bytes[frac + 1]
        == '+' as u8 || bytes[frac + 1] == '-' as u8) {
        let exp = scan_digits(bytes, frac + 2, 10);
        if exp > frac + 2 {
            end = exp;
        }
    }
    assert(is_float_at(b, pos as int, dot as int, frac as int, end as int));
    assert forall|e: int| end < e implies !#[trigger] is_float(b, pos as int, e) by {
        if is_float(b, pos as int, e) {
            let (d, f) = choose|d: int, f: int| is_float_at(b, pos as int, d, f, e);
            lemma_point(b, pos as int, dot as int, d);
            if f < frac {
                let x = b[f];
                assert(in_radix(x, 10) || x == byte('_'));
            }
        }
    }
    end
}

/// The point of a float stands where the longest run of digits before it
/// ends.
proof fn lemma_point(b: Seq<u8>, lo: int, dot: int, d: int)
    requires
        longest_digits(b, lo, dot, 10),
        is_digits(b, lo, d, 10),
        d < b.len(),
        b[d] == byte('.'),
    ensures
        d == dot,
{
    if d < dot {
        let x = b[d];
        assert(in_radix(x, 10) || x == byte('_'));
    }
}

/// The end of the longest identifier at `pos`, or `pos` where there is none.
pub fn scan_identifier(bytes: &[u8], pos: usize) -> (end: usize)
    requires
        pos <= bytes.len(),
    ensures
        pos <= end <= bytes.len(),
        pos < end ==> is_identifier(bytes@, pos as int, end as int),
        forall|e: int| end < e ==> !#[trigger] is_identifier(bytes@, pos as int, e),
{
    let n: usize = bytes.len();
    let ghost b = bytes@;
    let mut first: usize = pos;
    while first < n && bytes[first] == '_' as u8
        invariant
            n == bytes.len(),
            pos <= first <= n,
            forall|i: int| pos <= i < first ==> #[trigger] bytes@[i] == byte('_'),
        decreases n - first,
    {
        first = first + 1;
    }
    if first >= n || !is_letter(bytes[first]) {
        assert forall|e: int| pos < e implies !#[trigger] is_identifier(b, pos as int, e) by {
            if is_identifier(b, pos as int, e) {
                let f = choose|f: int| is_identifier_at(b, pos as int, f, e);
                if f < first {
                    assert(b[f] == byte('_'));
                } else if f > first {
                    assert(b[first as int] == byte('_'));
                }
            }
        }
        return pos;
    }
    let mut end: usize = first + 1;
    while end < n && is_word_byte(bytes[end])
        invariant
            n == bytes.len(),
            first < end <= n,
            forall|i: int| first < i < end ==> is_word(#[trigger] bytes@[i]),
        decreases n - end,
    {
        end = end + 1;
    }
    assert(is_identifier_at(b, pos as int, first as int, end as int));
    assert forall|e: int| end < e implies !#[trigger] is_identifier(b, pos as int, e) by {
        if is_identifier(b, pos as int, e) {
            let f = choose|f: int| is_identifier_at(b, pos as int, f, e);
            if f < first {
                assert(b[f] == byte('_'));
            } else if f > first {
                assert(b[first as int] == byte('_'));
            }
            assert(is_word(b[end as int]));
        }
    }
    end
}

/// The end of the longest line comment at `pos`, or `pos` where there is
/// none.
pub fn scan_comment(bytes: &[u8], pos: usize) -> (end: usize)
    requires
        pos <= bytes.len(),
    ensures
        pos <= end <= bytes.len(),
        pos < end ==> is_comment(bytes@, pos as int, end as int),
        forall|e: int| end < e ==> !#[trigger] is_comment(bytes@, pos as int, e),
{
    let n: usize = bytes.len();
    let ghost b = bytes@;
    if n - pos < 3 || bytes[pos] != '/' as u8 || bytes[pos + 1] != '/' as u8 {
        return pos;
    }
    let mut end: usize = pos;
    let mut i: usize = pos + 2;
    while i < n && bytes[i] != '\n' as u8
        invariant
            n == bytes.len(),
            pos + 2 <= i <= n,
            end == pos || pos + 3 <= end <= i,
            pos < end ==> is_comment(b, pos as int, end as int),
            b == bytes@,
            b[pos as int] == byte('/'),
            b[pos + 1] == byte('/'),
            forall|j: int| pos + 2 <= j < i ==> #[trigger] b[j] != byte('\n'),
            forall|j: int| end <= j < i && pos + 2 <= j ==> #[trigger] b[j] != byte('\r'),
        decreases n - i,
    {
        if bytes[i] == '\r' as u8 {
            end = i + 1;
        }
        i = i + 1;
    }
    if i < n {
        end = i + 1;
    }
    assert forall|e: int| end < e implies !#[trigger] is_comment(b, pos as int, e) by {
        if is_comment(b, pos as int, e) {
            if i < n {
                assert(b[i as int] == byte('\n'));
            } else {
                assert(b[e - 1] != byte('\r'));
            }
        }
    }
    end
}

/// The end of the longest quoted text at `pos`, or `pos` where there is none.
pub fn scan_quoted(bytes: &[u8], pos: usize, ascii: bool) -> (end: usize)
    requires
        pos <= bytes.len(),
    ensures
        pos <= end <= bytes.len(),
        pos < end ==> is_quoted(bytes@, pos as int, end as int, ascii),
        forall|e: int| end < e ==> !#[trigger] is_quoted(bytes@, pos as int, e, ascii),
{
    let n: usize = bytes.len();
    let ghost b = bytes@;
    if pos >= n || bytes[pos] != '"' as u8 {
        return pos;
    }
    let mut end: usize = pos;
    let mut i: usize = pos + 1;
    let mut open: bool = true;
    while open && i < n
        invariant
            n == bytes.len(),
            b == bytes@,
            b[pos as int] == byte('"'),
            pos < i <= n,
            end == pos || pos + 2 <= end <= i,
            pos < end ==> is_quoted(b, pos as int, end as int, ascii),
            open ==> forall|j: int|
                pos < j < i ==> {
                    &&& (#[trigger] b[j] == byte('"') ==> pos + 1 < j && b[j - 1] == byte('\\'))
                    &&& (ascii ==> b[j] < 0x80)
                },
            forall|j: int| end <= j < i && pos < j ==> #[trigger] b[j] != byte('"'),
            !open ==> forall|e: int| i < e ==> !#[trigger] is_quoted(b, pos as int, e, ascii),
        decreases n - i + (if open { 1int } else { 0int }),
    {
        let x = bytes[i];
        if x == '"' as u8 {
            end = i + 1;
            if !(i > pos + 1 && bytes[i - 1] == '\\' as u8) {
                open = false;
                assert forall|e: int| i + 1 < e implies !#[trigger] is_quoted(
                    b,
                    pos as int,
                    e,
                    ascii,
                ) by {
                    if is_quoted(b, pos as int, e, ascii) {
                        assert(b[i as int] == byte('"'));
                    }
                }
            }
            i = i + 1;
        } else if ascii && x >= 0x80 {
            open = false;
            assert forall|e: int| i < e implies !#[trigger] is_quoted(b, pos as int, e, ascii) by {
                if is_quoted(b, pos as int, e, ascii) {
                    assert(b[i as int] >= 0x80);
                    assert(b[e - 1] == byte('"'));
                }
            }
        } else {
            i = i + 1;
        }
    }
    assert forall|e: int| end < e implies !#[trigger] is_quoted(b, pos as int, e, ascii) by {
        if is_quoted(b, pos as int, e, ascii) {
            if e <= i {
                assert(b[e - 1] != byte('"'));
            }
        }
    }
    end
}

/// The first position at or after `pos` that holds no white space.
pub open spec fn skip_space(b: Seq<u8>, pos: int) -> int
    decreases b.len() - pos,
{
    if 0 <= pos < b.len() && is_space(b[pos]) {
        skip_space(b, pos + 1)
    } else {
        pos
    }
}

/// Skips the white space at `pos`.
pub fn skip_whitespace(bytes: &[u8], pos: usize) -> (end: usize)
    requires
        pos <= bytes.len(),
    ensures
        end == skip_space(bytes@, pos as int),
        pos <= end <= bytes.len(),
        forall|i: int| pos <= i < end ==> is_space(#[trigger] bytes@[i]),
{
    let mut end: usize = pos;
    while end < bytes.len() && (bytes[end] == ' ' as u8 || bytes[end] == '\n' as u8 || bytes[end]
        == '\t' as u8 || bytes[end] == '\r' as u8)
        invariant
            pos <= end <= bytes.len(),
            skip_space(bytes@, pos as int) == skip_space(bytes@, end as int),
            forall|i: int| pos <= i < end ==> is_space(#[trigger] bytes@[i]),
        decreases bytes.len() - end,
    {
        end = end + 1;
    }
    end
}

/// The number of bytes in the encoding of the character whose first byte is
/// `lead`.
pub fn width_of(lead: u8) -> (w: usize)
    ensures
        w == char_width(lead),
{
    if lead < 0x80 {
        1
    } else if lead < 0xE0 {
        2
    } else if lead < 0xF0 {
        3
    } else {
        4
    }
}

/// Where the body of a character literal that begins at `from` with a
/// backslash, and not with an escaped quote, is closed: the position after
/// the closing quote, or `from` where the literal is not closed.
fn scan_escaped_char(bytes: &[u8], from: usize, ascii: bool) -> (end: usize)
    requires
        from + 1 < bytes.len(),
        bytes@[from as int] == byte('\\'),
        bytes@[from + 1] != byte('\''),
    ensures
        end == from || from + 2 < end <= bytes.len(),
        from < end ==> bytes@[end - 1] == byte('\'') && is_quoted_char(
            bytes@,
            from as int,
            end - 1,
            ascii,
        ),
        forall|e: int|
            end < e <= bytes.len() && bytes@[e - 1] == byte('\'') ==> !#[trigger] is_quoted_char(
                bytes@,
                from as int,
                e - 1,
                ascii,
            ),
{
    let n: usize = bytes.len();
    let ghost b = bytes@;
    let y = bytes[from + 1];
    let mut end: usize = from;
    let mut digits: usize = from;
    if !(ascii && y >= 0x80) {
        let w = width_of(y);
        if n - from > w + 1 && bytes[from + 1 + w] == '\'' as u8 {
            assert(is_plain(b, from + 1, from + 1 + w, ascii));
            end = from + w + 2;
        }
    }
    if y == 'x' as u8 && n - from > 4 && is_radix_digit(bytes[from + 2], 8) && is_radix_digit(
        bytes[from + 3],
        16,
    ) && bytes[from + 4] == '\'' as u8 {
        end = from + 5;
    }
    if !ascii && y == 'u' as u8 && n - from > 3 && bytes[from + 2] == '{' as u8 {
        digits = from + 3;
        while digits < n && is_radix_digit(bytes[digits], 16)
            invariant
                n == bytes.len(),
                from + 3 <= digits <= n,
                forall|i: int| from + 3 <= i < digits ==> in_radix(#[trigger] bytes@[i], 16),
            decreases n - digits,
        {
            digits = digits + 1;
        }
        if digits > from + 3 && n - digits > 1 && bytes[digits] == '}' as u8 && bytes[digits + 1]
            == '\'' as u8 {
            end = digits + 2;
        }
    }
    assert forall|e: int|
        end < e <= b.len() && b[e - 1] == byte('\'') implies !#[trigger] is_quoted_char(
        b,
        from as int,
        e - 1,
        ascii,
    ) by {
        if is_quoted_char(b, from as int, e - 1, ascii) {
            let hi = e - 1;
            if !ascii && hi - from >= 5 && b[from + 1] == byte('u') && b[from + 2] == byte('{')
                && b[hi - 1] == byte('}') && (forall|i: int|
                from + 3 <= i < hi - 1 ==> in_radix(#[trigger] b[i], 16)) {
                if hi - 1 < digits {
                    assert(in_radix(b[hi - 1], 16));
                } else if hi - 1 > digits {
                    assert(in_radix(b[digits as int], 16));
                }
            }
        }
    }
    end
}

/// The end of the longest character literal at `pos`, or `pos` where there is
/// none. Where `ascii` holds the literal is that of a byte, after its `b`.
pub fn scan_char(bytes: &[u8], pos: usize, ascii: bool) -> (end: usize)
    requires
        pos <= bytes.len(),
    ensures
        pos <= end <= bytes.len(),
        pos < end ==> is_char_literal(bytes@, pos as int, end as int, ascii),
        forall|e: int| end < e ==> !#[trigger] is_char_literal(bytes@, pos as int, e, ascii),
{
    let n: usize = bytes.len();
    let ghost b = bytes@;
    if n - pos < 3 || bytes[pos] != '\'' as u8 {
        return pos;
    }
    let from: usize = pos + 1;
    let x = bytes[from];
    let mut end: usize = pos;
    if x != '\\' as u8 {
        if x != '\'' as u8 && !(ascii && x >= 0x80) {
            let w = width_of(x);
            if n - from > w && bytes[from + w] == '\'' as u8 {
                assert(is_plain(b, from as int, from + w, ascii));
                end = from + w + 1;
            }
        }
    } else if bytes[from + 1] == '\'' as u8 {
        if n - from > 2 && bytes[from + 2] == '\'' as u8 {
            end = from + 3;
        } else {
            assert(is_plain(b, from as int, from + 1, ascii));
            end = from + 2;
        }
    } else {
        let closed = scan_escaped_char(bytes, from, ascii);
        if closed > from {
            end = closed;
        }
    }
    assert forall|e: int| end < e implies !#[trigger] is_char_literal(b, pos as int, e, ascii) by {
        if is_char_literal(b, pos as int, e, ascii) {
            assert(is_quoted_char(b, from as int, e - 1, ascii));
        }
    }
    end
}

/// The place of a rule in the list of the rules.
pub open spec fn ordinal(kind: Scalar) -> nat {
    match kind {
        Scalar::Error => 0,
        Scalar::LeftParen => 1,
        Scalar::RightParen => 2,
        Scalar::LeftBrace => 3,
        Scalar::RightBrace => 4,
        Scalar::LeftBracket => 5,
        Scalar::RightBracket => 6,
        Scalar::Plus => 7,
        Scalar::Minus => 8,
        Scalar::Star => 9,
        Scalar::Slash => 10,
        Scalar::Modulo => 11,
        Scalar::Bar => 12,
        Scalar::Ampersand => 13,
        Scalar::Hat => 14,
        Scalar::Dot => 15,
        Scalar::Comma => 16,
        Scalar::Underscore => 17,
        Scalar::Assign => 18,
        Scalar::Bang => 19,
        Scalar::Question => 20,
        Scalar::Tilde => 21,
        Scalar::Colon => 22,
        Scalar::Semicolon => 23,
        Scalar::Or => 24,
        Scalar::And => 25,
        Scalar::PlusAssign => 26,
        Scalar::MinusAssign => 27,
        Scalar::TimesAssign => 28,
        Scalar::DivAssign => 29,
        Scalar::ModuloAssign => 30,
        Scalar::OrAssign => 31,
        Scalar::AndAssign => 32,
        Scalar::XorAssign => 33,
        Scalar::Path => 34,
        Scalar::Range => 35,
        Scalar::Equal => 36,
        Scalar::NotEqual => 37,
        Scalar::GreaterEqual => 38,
        Scalar::LessEqual => 39,
        Scalar::Greater => 40,
        Scalar::Less => 41,
        Scalar::Let => 42,
        Scalar::Const => 43,
        Scalar::Global => 44,
        Scalar::Fn => 45,
        Scalar::Struct => 46,
        Scalar::If => 47,
        Scalar::Else => 48,
        Scalar::Loop => 49,
        Scalar::For => 50,
        Scalar::In => 51,
        Scalar::Mut => 52,
        Scalar::Import => 53,
        Scalar::Export => 54,
        Scalar::Use => 55,
        Scalar::Type => 56,
        Scalar::Constraint => 57,
        Scalar::Is => 58,
        Scalar::Return => 59,
        Scalar::Break => 60,
        Scalar::Continue => 61,
        Scalar::Comment => 62,
        Scalar::IntegerLiteral => 63,
        Scalar::HexIntegerLiteral => 64,
        Scalar::OctIntegerLiteral => 65,
        Scalar::BinIntegerLiteral => 66,
        Scalar::FloatLiteral => 67,
        Scalar::TrueLiteral => 68,
        Scalar::FalseLiteral => 69,
        Scalar::StringLiteral => 70,
        Scalar::CharLiteral => 71,
        Scalar::ByteStringLiteral => 72,
        Scalar::ByteLiteral => 73,
        Scalar::Identifier => 74,
    }
}

/// The number of rules.
pub const RULES: usize = 75;

/// The rule at place `i` of the list of the rules.
pub fn rule_at(i: usize) -> (kind: Scalar)
    requires
        i < RULES,
    ensures
        ordinal(kind) == i,
{
    match i {
        0 => Scalar::Error,
        1 => Scalar::LeftParen,
        2 => Scalar::RightParen,
        3 => Scalar::LeftBrace,
        4 => Scalar::RightBrace,
        5 => Scalar::LeftBracket,
        6 => Scalar::RightBracket,
        7 => Scalar::Plus,
        8 => Scalar::Minus,
        9 => Scalar::Star,
        10 => Scalar::Slash,
        11 => Scalar::Modulo,
        12 => Scalar::Bar,
        13 => Scalar::Ampersand,
        14 => Scalar::Hat,
        15 => Scalar::Dot,
        16 => Scalar::Comma,
        17 => Scalar::Underscore,
        18 => Scalar::Assign,
        19 => Scalar::Bang,
        20 => Scalar::Question,
        21 => Scalar::Tilde,
        22 => Scalar::Colon,
        23 => Scalar::Semicolon,
        24 => Scalar::Or,
        25 => Scalar::And,
        26 => Scalar::PlusAssign,
        27 => Scalar::MinusAssign,
        28 => Scalar::TimesAssign,
        29 => Scalar::DivAssign,
        30 => Scalar::ModuloAssign,
        31 => Scalar::OrAssign,
        32 => Scalar::AndAssign,
        33 => Scalar::XorAssign,
        34 => Scalar::Path,
        35 => Scalar::Range,
        36 => Scalar::Equal,
        37 => Scalar::NotEqual,
        38 => Scalar::GreaterEqual,
        39 => Scalar::LessEqual,
        40 => Scalar::Greater,
        41 => Scalar::Less,
        42 => Scalar::Let,
        43 => Scalar::Const,
        44 => Scalar::Global,
        45 => Scalar::Fn,
        46 => Scalar::Struct,
        47 => Scalar::If,
        48 => Scalar::Else,
        49 => Scalar::Loop,
        50 => Scalar::For,
        51 => Scalar::In,
        52 => Scalar::Mut,
        53 => Scalar::Import,
        54 => Scalar::Export,
        55 => Scalar::Use,
        56 => Scalar::Type,
        57 => Scalar::Constraint,
        58 => Scalar::Is,
        59 => Scalar::Return,
        60 => Scalar::Break,
        61 => Scalar::Continue,
        62 => Scalar::Comment,
        63 => Scalar::IntegerLiteral,
        64 => Scalar::HexIntegerLiteral,
        65 => Scalar::OctIntegerLiteral,
        66 => Scalar::BinIntegerLiteral,
        67 => Scalar::FloatLiteral,
        68 => Scalar::TrueLiteral,
        69 => Scalar::FalseLiteral,
        70 => Scalar::StringLiteral,
        71 => Scalar::CharLiteral,
        72 => Scalar::ByteStringLiteral,
        73 => Scalar::ByteLiteral,
        _ => Scalar::Identifier,
    }
}

/// The text of a rule that matches one fixed text.
pub fn text_of(kind: Scalar) -> (text: Option<&'static str>)
    ensures
        match text {
            Some(t) => fixed_text(kind) == Some(t@),
            None => fixed_text(kind) is None,
        },
{
    match kind {
        Scalar::LeftParen => Some("("),
        Scalar::RightParen => Some(")"),
        Scalar::LeftBrace => Some("{"),
        Scalar::RightBrace => Some("}"),
        Scalar::LeftBracket => Some("["),
        Scalar::RightBracket => Some("]"),
        Scalar::Plus => Some("+"),
        Scalar::Minus => Some("-"),
        Scalar::Star => Some("*"),
        Scalar::Slash => Some("/"),
        Scalar::Modulo => Some("%"),
        Scalar::Bar => Some("|"),
        Scalar::Ampersand => Some("&"),
        Scalar::Hat => Some("^"),
        Scalar::Dot => Some("."),
        Scalar::Comma => Some(","),
        Scalar::Underscore => Some("_"),
        Scalar::Assign => Some("="),
        Scalar::Bang => Some("!"),
        Scalar::Question => Some("?"),
        Scalar::Tilde => Some("~"),
        Scalar::Colon => Some(":"),
        Scalar::Semicolon => Some(";"),
        Scalar::Or => Some("||"),
        Scalar::And => Some("&&"),
        Scalar::PlusAssign => Some("+="),
        Scalar::MinusAssign => Some("-="),
        Scalar::TimesAssign => Some("*="),
        Scalar::DivAssign => Some("/="),
        Scalar::ModuloAssign => Some("%="),
        Scalar::OrAssign => Some("|="),
        Scalar::AndAssign => Some("&="),
        Scalar::XorAssign => Some("^="),
        Scalar::Path => Some("::"),
        Scalar::Range => Some(".."),
        Scalar::Equal => Some("=="),
        Scalar::NotEqual => Some("!="),
        Scalar::GreaterEqual => Some(">="),
        Scalar::LessEqual => Some("<="),
        Scalar::Greater => Some(">"),
        Scalar::Less => Some("<"),
        Scalar::Let => Some("let"),
        Scalar::Const => Some("const"),
        Scalar::Global => Some("global"),
        Scalar::Fn => Some("fn"),
        Scalar::Struct => Some("struct"),
        Scalar::If => Some("if"),
        Scalar::Else => Some("else"),
        Scalar::Loop => Some("loop"),
        Scalar::For => Some("for"),
        Scalar::In => Some("in"),
        Scalar::Mut => Some("mut"),
        Scalar::Import => Some("import"),
        Scalar::Export => Some("export"),
        Scalar::Use => Some("use"),
        Scalar::Type => Some("type"),
        Scalar::Constraint => Some("constraint"),
        Scalar::Is => Some("is"),
        Scalar::Return => Some("return"),
        Scalar::Break => Some("break"),
        Scalar::Continue => Some("continue"),
        Scalar::TrueLiteral => Some("true"),
        Scalar::FalseLiteral => Some("false"),
        _ => None,
    }
}

/// Where `text` ends if it stands at `pos`, and `pos` if it does not.
pub fn scan_text(bytes: &[u8], pos: usize, text: &str) -> (end: usize)
    requires
        pos <= bytes.len(),
    ensures
        pos <= end <= bytes.len(),
        pos < end ==> is_text(bytes@, pos as int, end as int, text@),
        forall|e: int| end < e ==> !#[trigger] is_text(bytes@, pos as int, e, text@),
{
    let t = text.as_bytes();
    let m: usize = t.len();
    let ghost b = bytes@;
    if m > bytes.len() - pos {
        assert forall|e: int| pos < e implies !#[trigger] is_text(b, pos as int, e, text@) by {
            if is_text(b, pos as int, e, text@) {
                assert(b.subrange(pos as int, e).len() == t@.len());
            }
        }
        return pos;
    }
    let mut i: usize = 0;
    while i < m
        invariant
            b == bytes@,
            m == t@.len(),
            t@ == text.spec_bytes(),
            pos + m <= bytes.len(),
            i <= m,
            forall|j: int| 0 <= j < i ==> #[trigger] t@[j] == b[pos + j],
        decreases m - i,
    {
        if bytes[pos + i] != t[i] {
            assert forall|e: int| pos < e implies !#[trigger] is_text(b, pos as int, e, text@) by {
                if is_text(b, pos as int, e, text@) {
                    assert(b.subrange(pos as int, e)[i as int] == t@[i as int]);
                }
            }
            return pos;
        }
        i = i + 1;
    }
    assert(b.subrange(pos as int, pos + m) =~= t@);
    assert forall|e: int| pos + m < e implies !#[trigger] is_text(b, pos as int, e, text@) by {
        if is_text(b, pos as int, e, text@) {
            assert(b.subrange(pos as int, e).len() == t@.len());
        }
    }
    pos + m
}

/// The longest lexeme at `pos` of the rules that match one fixed text: its
/// rule and its end, or `pos` where none of them matches.
pub fn scan_fixed(bytes: &[u8], pos: usize) -> (r: (Scalar, usize))
    requires
        pos <= bytes.len(),
    ensures
        pos <= r.1 <= bytes.len(),
        pos < r.1 ==> fixed_text(r.0) is Some && is_lexeme(bytes@, pos as int, r.1 as int, r.0),
        forall|k: Scalar, e: int|
            fixed_text(k) is Some && #[trigger] is_lexeme(bytes@, pos as int, e, k) ==> e <= r.1,
{
    let ghost b = bytes@;
    let mut kind = Scalar::Error;
    let mut end: usize = pos;
    let mut i: usize = 0;
    while i < RULES
        invariant
            b == bytes@,
            i <= RULES,
            pos <= end <= bytes.len(),
            pos < end ==> fixed_text(kind) is Some && is_lexeme(b, pos as int, end as int, kind),
            forall|k: Scalar, e: int|
                ordinal(k) < i && fixed_text(k) is Some && #[trigger] is_lexeme(b, pos as int, e, k)
                    ==> e <= end,
        decreases RULES - i,
    {
        let candidate = rule_at(i);
        match text_of(candidate) {
            Some(text) => {
                let e = scan_text(bytes, pos, text);
                if e > end {
                    kind = candidate;
                    end = e;
                }
            },
            None => {},
        }
        i = i + 1;
    }
    (kind, end)
}

/// The rule of the next lexeme at `pos` and the position where the lexeme
/// ends, by maximal munch. Where no rule matches, the rule is `Error` and the
/// lexeme the one character at `pos`.
pub fn next_lexeme(bytes: &[u8], pos: usize) -> (r: (Scalar, usize))
    requires
        pos < bytes.len(),
    ensures
        pos < r.1 <= bytes.len(),
        is_next_lexeme(bytes@, pos as int, r.1 as int, r.0),
{
    let ghost b = bytes@;
    let (fixed, fixed_end) = scan_fixed(bytes, pos);
    let mut kind = fixed;
    let mut end: usize = fixed_end;
    let comment = scan_comment(bytes, pos);
    if comment > end {
        kind = Scalar::Comment;
        end = comment;
    }
    let integer = scan_digits(bytes, pos, 10);
    if integer > end {
        kind = Scalar::IntegerLiteral;
        end = integer;
    }
    let hex = scan_prefixed(bytes, pos, 'x', 'X', 16);
    if hex > end {
        kind = Scalar::HexIntegerLiteral;
        end = hex;
    }
    let oct = scan_prefixed(bytes, pos, 'o', 'O', 8);
    if oct > end {
        kind = Scalar::OctIntegerLiteral;
        end = oct;
    }
    let bin = scan_prefixed(bytes, pos, 'b', 'B', 2);
    if bin > end {
        kind = Scalar::BinIntegerLiteral;
        end = bin;
    }
    let float = scan_float(bytes, pos);
    if float > end {
        kind = Scalar::FloatLiteral;
        end = float;
    }
    let string = scan_quoted(bytes, pos, false);
    if string > end {
        kind = Scalar::StringLiteral;
        end = string;
    }
    let character = scan_char(bytes, pos, false);
    if character > end {
        kind = Scalar::CharLiteral;
        end = character;
    }
    let mut byte_string: usize = pos;
    let mut byte_char: usize = pos;
    if bytes[pos] == 'b' as u8 {
        let closed = scan_quoted(bytes, pos + 1, true);
        if closed > pos + 1 {
            byte_string = closed;
        }
        let closed = scan_char(bytes, pos + 1, true);
        if closed > pos + 1 {
            byte_char = closed;
        }
    }
    if byte_string > end {
        kind = Scalar::ByteStringLiteral;
        end = byte_string;
    }
    if byte_char > end {
        kind = Scalar::ByteLiteral;
        end = byte_char;
    }
    let identifier = scan_identifier(bytes, pos);
    if identifier > end {
        kind = Scalar::Identifier;
        end = identifier;
    }
    if end == pos {
        kind = Scalar::Error;
        let width = width_of(bytes[pos]);
        end = if width <= bytes.len() - pos {
            pos + width
        } else {
            bytes.len()
        };
        assert forall|k: Scalar, e: int| !#[trigger] is_lexeme(b, pos as int, e, k) by {
            if is_lexeme(b, pos as int, e, k) {
                assert(rule_matches(k, b, pos as int, e));
                assert(fixed_text(k) is Some ==> e <= fixed_end);
            }
        }
    } else {
        assert(is_lexeme(b, pos as int, end as int, kind));
        assert forall|k: Scalar, e: int| #[trigger] is_lexeme(b, pos as int, e, k) implies e < end
            || (e == end && priority(k) <= priority(kind)) by {
            assert(rule_matches(k, b, pos as int, e));
            assert(fixed_text(k) is Some ==> e <= fixed_end);
        }
    }
    (kind, end)
}

} // verus!
