//! The lexical rules: which stretches of the source each rule matches, and
//! which rule wins where several match.
//!
//! A rule is stated over the bytes `b` of the source and a half-open range
//! `lo..hi` of offsets into them.

use crate::lexer::Scalar;
use crate::number::is_digit;
use crate::text::char_width;
use vstd::prelude::*;
use vstd::utf8::{encode_utf8, encode_utf8_decode_utf8, is_ascii_chars, is_ascii_chars_encode_utf8};

verus! {

/// The byte of an ASCII character.
pub open spec fn byte(c: char) -> u8 {
    c as u8
}

/// `[ \n\t\r]`
pub open spec fn is_space(x: u8) -> bool {
    x == byte(' ') || x == byte('\n') || x == byte('\t') || x == byte('\r')
}

/// `[A-Za-z]`
pub open spec fn is_alpha(x: u8) -> bool {
    byte('a') <= x <= byte('z') || byte('A') <= x <= byte('Z')
}

/// `[A-Za-z0-9_]`
pub open spec fn is_word(x: u8) -> bool {
    is_alpha(x) || byte('0') <= x <= byte('9') || x == byte('_')
}

/// `x` is a digit of the radix.
pub open spec fn in_radix(x: u8, radix: u32) -> bool {
    is_digit(x as char, radix)
}

/// The text of a rule that matches one fixed text: punctuation, operators and
/// keywords.
pub open spec fn fixed_text(kind: Scalar) -> Option<Seq<char>> {
    match kind {
        Scalar::LeftParen => Some("("@),
        Scalar::RightParen => Some(")"@),
        Scalar::LeftBrace => Some("{"@),
        Scalar::RightBrace => Some("}"@),
        Scalar::LeftBracket => Some("["@),
        Scalar::RightBracket => Some("]"@),
        Scalar::Plus => Some("+"@),
        Scalar::Minus => Some("-"@),
        Scalar::Star => Some("*"@),
        Scalar::Slash => Some("/"@),
        Scalar::Modulo => Some("%"@),
        Scalar::Bar => Some("|"@),
        Scalar::Ampersand => Some("&"@),
        Scalar::Hat => Some("^"@),
        Scalar::Dot => Some("."@),
        Scalar::Comma => Some(","@),
        Scalar::Underscore => Some("_"@),
        Scalar::Assign => Some("="@),
        Scalar::Bang => Some("!"@),
        Scalar::Question => Some("?"@),
        Scalar::Tilde => Some("~"@),
        Scalar::Colon => Some(":"@),
        Scalar::Semicolon => Some(";"@),
        Scalar::Or => Some("||"@),
        Scalar::And => Some("&&"@),
        Scalar::PlusAssign => Some("+="@),
        Scalar::MinusAssign => Some("-="@),
        Scalar::TimesAssign => Some("*="@),
        Scalar::DivAssign => Some("/="@),
        Scalar::ModuloAssign => Some("%="@),
        Scalar::OrAssign => Some("|="@),
        Scalar::AndAssign => Some("&="@),
        Scalar::XorAssign => Some("^="@),
        Scalar::Path => Some("::"@),
        Scalar::Range => Some(".."@),
        Scalar::Equal => Some("=="@),
        Scalar::NotEqual => Some("!="@),
        Scalar::GreaterEqual => Some(">="@),
        Scalar::LessEqual => Some("<="@),
        Scalar::Greater => Some(">"@),
        Scalar::Less => Some("<"@),
        Scalar::Let => Some("let"@),
        Scalar::Const => Some("const"@),
        Scalar::Global => Some("global"@),
        Scalar::Fn => Some("fn"@),
        Scalar::Struct => Some("struct"@),
        Scalar::If => Some("if"@),
        Scalar::Else => Some("else"@),
        Scalar::Loop => Some("loop"@),
        Scalar::For => Some("for"@),
        Scalar::In => Some("in"@),
        Scalar::Mut => Some("mut"@),
        Scalar::Import => Some("import"@),
        Scalar::Export => Some("export"@),
        Scalar::Use => Some("use"@),
        Scalar::Type => Some("type"@),
        Scalar::Constraint => Some("constraint"@),
        Scalar::Is => Some("is"@),
        Scalar::Return => Some("return"@),
        Scalar::Break => Some("break"@),
        Scalar::Continue => Some("continue"@),
        Scalar::TrueLiteral => Some("true"@),
        Scalar::FalseLiteral => Some("false"@),
        _ => None,
    }
}

/// `b[lo..hi]` is the text `t`.
pub open spec fn is_text(b: Seq<u8>, lo: int, hi: int, t: Seq<char>) -> bool {
    0 <= lo <= hi <= b.len() && b.subrange(lo, hi) == encode_utf8(t)
}

/// `D(_?D)*`, where `D` is a digit of the radix: digits and single
/// separators, with a digit at either end.
pub open spec fn is_digits(b: Seq<u8>, lo: int, hi: int, radix: u32) -> bool {
    &&& 0 <= lo < hi <= b.len()
    &&& in_radix(b[lo], radix)
    &&& in_radix(b[hi - 1], radix)
    &&& forall|i: int| lo <= i < hi ==> in_radix(#[trigger] b[i], radix) || b[i] == byte('_')
    &&& forall|i: int| lo <= i < hi - 1 ==> !(#[trigger] b[i] == byte('_') && b[i + 1] == byte('_'))
}

/// `0[Xx]` and the digits of a radix, where `lower` and `upper` are the letter
/// of the radix in either case.
pub open spec fn is_prefixed(
    b: Seq<u8>,
    lo: int,
    hi: int,
    lower: char,
    upper: char,
    radix: u32,
) -> bool {
    &&& 0 <= lo && lo + 2 < hi <= b.len()
    &&& b[lo] == byte('0')
    &&& (b[lo + 1] == byte(lower) || b[lo + 1] == byte(upper))
    &&& is_digits(b, lo + 2, hi, radix)
}

/// A float whose point stands at `dot` and whose fraction ends at `frac`:
/// `D.D` with an exponent `[Ee][+-]D` or none after it.
pub open spec fn is_float_at(b: Seq<u8>, lo: int, dot: int, frac: int, hi: int) -> bool {
    &&& is_digits(b, lo, dot, 10)
    &&& dot < frac <= hi <= b.len()
    &&& b[dot] == byte('.')
    &&& is_digits(b, dot + 1, frac, 10)
    &&& (frac == hi || {
        &&& frac + 2 < hi
        &&& (b[frac] == byte('e') || b[frac] == byte('E'))
        &&& (b[frac + 1] == byte('+') || b[frac + 1] == byte('-'))
        &&& is_digits(b, frac + 2, hi, 10)
    })
}

/// `D\.D([Ee][+-]D)?`, where `D` is a run of decimal digits with single
/// separators.
pub open spec fn is_float(b: Seq<u8>, lo: int, hi: int) -> bool {
    exists|dot: int, frac: int| is_float_at(b, lo, dot, frac, hi)
}

/// `"(\\"|X)*"`, where `X` is any character but the quote, and only an ASCII
/// one where `ascii` holds: the text runs from a quote to a quote, and every
/// quote between them follows a backslash.
pub open spec fn is_quoted(b: Seq<u8>, lo: int, hi: int, ascii: bool) -> bool {
    &&& 0 <= lo && lo + 2 <= hi <= b.len()
    &&& b[lo] == byte('"')
    &&& b[hi - 1] == byte('"')
    &&& forall|i: int|
        lo < i < hi - 1 ==> {
            &&& (#[trigger] b[i] == byte('"') ==> lo + 1 < i && b[i - 1] == byte('\\'))
            &&& (ascii ==> b[i] < 0x80)
        }
}

/// `b[lo..hi]` is one character other than the single quote, an ASCII one
/// where `ascii` holds.
pub open spec fn is_plain(b: Seq<u8>, lo: int, hi: int, ascii: bool) -> bool {
    &&& 0 <= lo < hi <= b.len()
    &&& b[lo] != byte('\'')
    &&& hi - lo == char_width(b[lo])
    &&& (ascii ==> b[lo] < 0x80)
}

/// What stands between the quotes of a character or byte literal:
/// `\\'|\\x[0-7]H|\\u\{H+\}|\\?X`, where `H` is a hexadecimal digit and `X` a
/// character other than the quote. Where `ascii` holds, `X` is an ASCII
/// character and there is no `\u` form.
pub open spec fn is_quoted_char(b: Seq<u8>, lo: int, hi: int, ascii: bool) -> bool {
    &&& 0 <= lo < hi <= b.len()
    &&& {
        ||| (hi - lo == 2 && b[lo] == byte('\\') && b[lo + 1] == byte('\''))
        ||| (hi - lo == 4 && b[lo] == byte('\\') && b[lo + 1] == byte('x') && in_radix(b[lo + 2], 8)
            && in_radix(b[lo + 3], 16))
        ||| (!ascii && hi - lo >= 5 && b[lo] == byte('\\') && b[lo + 1] == byte('u') && b[lo + 2]
            == byte('{') && b[hi - 1] == byte('}') && forall|i: int|
            lo + 3 <= i < hi - 1 ==> in_radix(#[trigger] b[i], 16))
        ||| is_plain(b, lo, hi, ascii)
        ||| (b[lo] == byte('\\') && is_plain(b, lo + 1, hi, ascii))
    }
}

/// A character literal, or a byte literal after its `b`: a quoted character
/// between single quotes.
pub open spec fn is_char_literal(b: Seq<u8>, lo: int, hi: int, ascii: bool) -> bool {
    &&& 0 <= lo && lo + 3 <= hi <= b.len()
    &&& b[lo] == byte('\'')
    &&& b[hi - 1] == byte('\'')
    &&& is_quoted_char(b, lo + 1, hi - 1, ascii)
}

/// `_*[A-Za-z][A-Za-z0-9_]*`, with the letter at `first`.
pub open spec fn is_identifier_at(b: Seq<u8>, lo: int, first: int, hi: int) -> bool {
    &&& 0 <= lo <= first < hi <= b.len()
    &&& is_alpha(b[first])
    &&& forall|i: int| lo <= i < first ==> #[trigger] b[i] == byte('_')
    &&& forall|i: int| first < i < hi ==> is_word(#[trigger] b[i])
}

/// `_*[A-Za-z][A-Za-z0-9_]*`
pub open spec fn is_identifier(b: Seq<u8>, lo: int, hi: int) -> bool {
    exists|first: int| is_identifier_at(b, lo, first, hi)
}

/// `//.*[\n\r]`: two slashes, any characters but a line feed, and a line feed
/// or a carriage return.
pub open spec fn is_comment(b: Seq<u8>, lo: int, hi: int) -> bool {
    &&& 0 <= lo && lo + 3 <= hi <= b.len()
    &&& b[lo] == byte('/')
    &&& b[lo + 1] == byte('/')
    &&& (b[hi - 1] == byte('\n') || b[hi - 1] == byte('\r'))
    &&& forall|i: int| lo + 2 <= i < hi - 1 ==> #[trigger] b[i] != byte('\n')
}

/// The rule `kind` matches `b[lo..hi]`.
pub open spec fn rule_matches(kind: Scalar, b: Seq<u8>, lo: int, hi: int) -> bool {
    match kind {
        Scalar::Error => false,
        Scalar::Comment => is_comment(b, lo, hi),
        Scalar::IntegerLiteral => is_digits(b, lo, hi, 10),
        Scalar::HexIntegerLiteral => is_prefixed(b, lo, hi, 'x', 'X', 16),
        Scalar::OctIntegerLiteral => is_prefixed(b, lo, hi, 'o', 'O', 8),
        Scalar::BinIntegerLiteral => is_prefixed(b, lo, hi, 'b', 'B', 2),
        Scalar::FloatLiteral => is_float(b, lo, hi),
        Scalar::StringLiteral => is_quoted(b, lo, hi, false),
        Scalar::CharLiteral => is_char_literal(b, lo, hi, false),
        Scalar::ByteStringLiteral => 0 <= lo < b.len() && b[lo] == byte('b') && is_quoted(
            b,
            lo + 1,
            hi,
            true,
        ),
        Scalar::ByteLiteral => 0 <= lo < b.len() && b[lo] == byte('b') && is_char_literal(
            b,
            lo + 1,
            hi,
            true,
        ),
        Scalar::Identifier => is_identifier(b, lo, hi),
        _ => fixed_text(kind) matches Some(t) && is_text(b, lo, hi, t),
    }
}

/// `b[lo..hi]` is a lexeme of the rule `kind`: the rule matches it, and it is
/// not empty.
pub open spec fn is_lexeme(b: Seq<u8>, lo: int, hi: int, kind: Scalar) -> bool {
    0 <= lo < hi <= b.len() && rule_matches(kind, b, lo, hi)
}

/// Where two rules match the same text, the one of higher priority wins: a
/// keyword is no identifier.
pub open spec fn priority(kind: Scalar) -> nat {
    if kind == Scalar::Identifier {
        1
    } else {
        2
    }
}

/// Where the character that begins at `lo` ends: at the end of the source
/// where ill-formed text breaks off within it.
pub open spec fn char_end(b: Seq<u8>, lo: int) -> int {
    if lo + char_width(b[lo]) <= b.len() {
        lo + char_width(b[lo])
    } else {
        b.len() as int
    }
}

/// Maximal munch: `b[lo..hi]` is the longest lexeme at `lo` of any rule, and
/// `kind` the rule of highest priority that matches it. Where no rule matches
/// at `lo`, `kind` is `Error` and `b[lo..hi]` the one character at `lo`.
pub open spec fn is_next_lexeme(b: Seq<u8>, lo: int, hi: int, kind: Scalar) -> bool {
    if exists|k: Scalar, e: int| is_lexeme(b, lo, e, k) {
        &&& is_lexeme(b, lo, hi, kind)
        &&& forall|k: Scalar, e: int| #[trigger]
            is_lexeme(b, lo, e, k) ==> e < hi || (e == hi && priority(k) <= priority(kind))
    } else {
        kind == Scalar::Error && 0 <= lo < b.len() && hi == char_end(b, lo)
    }
}

/// The length of a text and its first two characters.
pub open spec fn initial(t: Seq<char>) -> (nat, char, char) {
    (t.len(), t[0], t[1])
}

/// What every fixed text has in common: it is ASCII text of one to ten
/// characters, and so its own encoding; and it begins like no literal and no
/// comment.
pub open spec fn is_fixed_shape(t: Seq<char>) -> bool {
    &&& 1 <= t.len() <= 10
    &&& is_ascii_chars(t)
    &&& encode_utf8(t).len() == t.len()
    &&& forall|i: int| 0 <= i < t.len() ==> #[trigger] encode_utf8(t)[i] == t[i] as u8
    &&& !('0' <= t[0] <= '9') && t[0] != '"' && t[0] != '\'' && !is_space(t[0] as u8)
    &&& t.len() >= 2 && t[0] == 'b' ==> t[1] != '"' && t[1] != '\''
    &&& t.len() >= 3 ==> !(t[0] == '/' && t[1] == '/')
}

/// Every fixed text has the shape of one, and belongs to one rule only.
pub proof fn lemma_fixed_text(kind: Scalar)
    ensures
        fixed_text(kind) matches Some(t) ==> is_fixed_shape(t) && forall|other: Scalar|
            fixed_text(other) == Some(t) ==> other == kind,
{
    reveal_strlit("(");
    reveal_strlit(")");
    reveal_strlit("{");
    reveal_strlit("}");
    reveal_strlit("[");
    reveal_strlit("]");
    reveal_strlit("+");
    reveal_strlit("-");
    reveal_strlit("*");
    reveal_strlit("/");
    reveal_strlit("%");
    reveal_strlit("|");
    reveal_strlit("&");
    reveal_strlit("^");
    reveal_strlit(".");
    reveal_strlit(",");
    reveal_strlit("_");
    reveal_strlit("=");
    reveal_strlit("!");
    reveal_strlit("?");
    reveal_strlit("~");
    reveal_strlit(":");
    reveal_strlit(";");
    reveal_strlit("||");
    reveal_strlit("&&");
    reveal_strlit("+=");
    reveal_strlit("-=");
    reveal_strlit("*=");
    reveal_strlit("/=");
    reveal_strlit("%=");
    reveal_strlit("|=");
    reveal_strlit("&=");
    reveal_strlit("^=");
    reveal_strlit("::");
    reveal_strlit("..");
    reveal_strlit("==");
    reveal_strlit("!=");
    reveal_strlit(">=");
    reveal_strlit("<=");
    reveal_strlit(">");
    reveal_strlit("<");
    reveal_strlit("let");
    reveal_strlit("const");
    reveal_strlit("global");
    reveal_strlit("fn");
    reveal_strlit("struct");
    reveal_strlit("if");
    reveal_strlit("else");
    reveal_strlit("loop");
    reveal_strlit("for");
    reveal_strlit("in");
    reveal_strlit("mut");
    reveal_strlit("import");
    reveal_strlit("export");
    reveal_strlit("use");
    reveal_strlit("type");
    reveal_strlit("constraint");
    reveal_strlit("is");
    reveal_strlit("return");
    reveal_strlit("break");
    reveal_strlit("continue");
    reveal_strlit("true");
    reveal_strlit("false");
    match fixed_text(kind) {
        Some(t) => {
            is_ascii_chars_encode_utf8(t);
            assert(initial(t) == initial(t));
            assert forall|other: Scalar| fixed_text(other) == Some(t) implies other == kind by {
                assert(initial(fixed_text(other)->0) == initial(fixed_text(kind)->0));
            }
        },
        None => {},
    }
}

/// A lexeme begins and ends with an ASCII byte, and does not begin with white
/// space.
pub proof fn lemma_lexeme_ends(b: Seq<u8>, lo: int, hi: int, kind: Scalar)
    requires
        is_lexeme(b, lo, hi, kind),
    ensures
        b[lo] < 0x80,
        b[hi - 1] < 0x80,
        !is_space(b[lo]),
{
    match fixed_text(kind) {
        Some(t) => {
            lemma_fixed_text(kind);
            let sub = b.subrange(lo, hi);
            assert(sub[0] == b[lo]);
            assert(sub[hi - lo - 1] == b[hi - 1]);
            assert(encode_utf8(t)[0] == t[0] as u8);
            assert(encode_utf8(t)[t.len() - 1] == t[t.len() - 1] as u8);
        },
        None => {
            if kind == Scalar::FloatLiteral {
                let (dot, frac) = choose|dot: int, frac: int| is_float_at(b, lo, dot, frac, hi);
                assert(in_radix(b[lo], 10));
                assert(in_radix(b[hi - 1], 10));
            } else if kind == Scalar::Identifier {
                let first = choose|first: int| is_identifier_at(b, lo, first, hi);
                if lo < first {
                    assert(b[lo] == byte('_'));
                }
                if first < hi - 1 {
                    assert(is_word(b[hi - 1]));
                }
            }
        },
    }
}

/// A rule that matches a fixed text and a rule of another kind, the
/// identifiers aside, match no text in common.
proof fn lemma_pattern_not_fixed(b: Seq<u8>, lo: int, hi: int, pattern: Scalar, fixed: Scalar)
    requires
        is_lexeme(b, lo, hi, pattern),
        fixed_text(pattern) is None,
        fixed_text(fixed) is Some,
        pattern != Scalar::Identifier,
    ensures
        !is_lexeme(b, lo, hi, fixed),
{
    if is_lexeme(b, lo, hi, fixed) {
        lemma_fixed_text(fixed);
        let t = fixed_text(fixed)->0;
        let sub = b.subrange(lo, hi);
        assert(sub[0] == b[lo]);
        assert(encode_utf8(t)[0] == t[0] as u8);
        if t.len() >= 2 {
            assert(sub[1] == b[lo + 1]);
            assert(encode_utf8(t)[1] == t[1] as u8);
        }
        assert(sub.len() == hi - lo);
        if pattern == Scalar::FloatLiteral {
            let (dot, frac) = choose|dot: int, frac: int| is_float_at(b, lo, dot, frac, hi);
            assert(in_radix(b[lo], 10));
        }
    }
}

/// Two rules that match no fixed text, the identifiers aside, match no text
/// in common.
proof fn lemma_patterns_disjoint(b: Seq<u8>, lo: int, hi: int, k1: Scalar, k2: Scalar)
    requires
        is_lexeme(b, lo, hi, k1),
        is_lexeme(b, lo, hi, k2),
        fixed_text(k1) is None,
        fixed_text(k2) is None,
        k1 != Scalar::Identifier,
        k2 != Scalar::Identifier,
    ensures
        k1 == k2,
{
    if k1 == Scalar::FloatLiteral {
        lemma_float_shape(b, lo, hi);
    }
    if k2 == Scalar::FloatLiteral {
        lemma_float_shape(b, lo, hi);
    }
}

/// A float begins with a digit, holds a point, and its second byte is a
/// digit, a separator or the point.
proof fn lemma_float_shape(b: Seq<u8>, lo: int, hi: int)
    requires
        is_float(b, lo, hi),
    ensures
        in_radix(b[lo], 10),
        lo + 1 < hi,
        in_radix(b[lo + 1], 10) || b[lo + 1] == byte('_') || b[lo + 1] == byte('.'),
        exists|dot: int| lo < dot < hi && b[dot] == byte('.'),
{
    let (dot, frac) = choose|dot: int, frac: int| is_float_at(b, lo, dot, frac, hi);
    if lo + 1 < dot {
        let x = b[lo + 1];
        assert(in_radix(x, 10) || x == byte('_'));
    }
    assert(lo < dot < hi && b[dot] == byte('.'));
}

/// Two rules of one priority match no text in common.
pub proof fn lemma_rules_disjoint(b: Seq<u8>, lo: int, hi: int, k1: Scalar, k2: Scalar)
    requires
        is_lexeme(b, lo, hi, k1),
        is_lexeme(b, lo, hi, k2),
        priority(k1) == priority(k2),
    ensures
        k1 == k2,
{
    if k1 != Scalar::Identifier {
        match (fixed_text(k1), fixed_text(k2)) {
            (Some(t1), Some(t2)) => {
                encode_utf8_decode_utf8(t1);
                encode_utf8_decode_utf8(t2);
                lemma_fixed_text(k1);
            },
            (Some(_), None) => {
                lemma_pattern_not_fixed(b, lo, hi, k2, k1);
            },
            (None, Some(_)) => {
                lemma_pattern_not_fixed(b, lo, hi, k1, k2);
            },
            (None, None) => {
                lemma_patterns_disjoint(b, lo, hi, k1, k2);
            },
        }
    }
}

/// Maximal munch picks one lexeme and one rule.
pub proof fn lemma_next_unique(b: Seq<u8>, lo: int, e1: int, k1: Scalar, e2: int, k2: Scalar)
    requires
        is_next_lexeme(b, lo, e1, k1),
        is_next_lexeme(b, lo, e2, k2),
    ensures
        e1 == e2,
        k1 == k2,
{
    if exists|k: Scalar, e: int| is_lexeme(b, lo, e, k) {
        assert(is_lexeme(b, lo, e1, k1));
        assert(is_lexeme(b, lo, e2, k2));
        lemma_rules_disjoint(b, lo, e1, k1, k2);
    }
}

/// Where a lexeme ends at or before `bound`, there is a longest one among
/// those that do.
proof fn lemma_longest_below(b: Seq<u8>, lo: int, bound: int) -> (end: int)
    requires
        exists|k: Scalar, e: int| e <= bound && is_lexeme(b, lo, e, k),
    ensures
        end <= bound,
        exists|k: Scalar| is_lexeme(b, lo, end, k),
        forall|k: Scalar, e: int| e <= bound && #[trigger] is_lexeme(b, lo, e, k) ==> e <= end,
    decreases bound - lo,
{
    if exists|k: Scalar| is_lexeme(b, lo, bound, k) {
        bound
    } else {
        let (k, e) = choose|k: Scalar, e: int| e <= bound && is_lexeme(b, lo, e, k);
        assert(e <= bound - 1 && is_lexeme(b, lo, e, k));
        lemma_longest_below(b, lo, bound - 1)
    }
}

/// Maximal munch picks a lexeme wherever one can begin.
pub proof fn lemma_next_exists(b: Seq<u8>, lo: int)
    requires
        0 <= lo < b.len(),
    ensures
        exists|k: Scalar, e: int| is_next_lexeme(b, lo, e, k),
{
    if exists|k: Scalar, e: int| is_lexeme(b, lo, e, k) {
        let (k0, e0) = choose|k: Scalar, e: int| is_lexeme(b, lo, e, k);
        assert(e0 <= b.len() && is_lexeme(b, lo, e0, k0));
        let end = lemma_longest_below(b, lo, b.len() as int);
        let kind = if exists|k: Scalar| k != Scalar::Identifier && is_lexeme(b, lo, end, k) {
            choose|k: Scalar| k != Scalar::Identifier && is_lexeme(b, lo, end, k)
        } else {
            choose|k: Scalar| is_lexeme(b, lo, end, k)
        };
        assert(is_next_lexeme(b, lo, end, kind));
    } else {
        assert(is_next_lexeme(b, lo, char_end(b, lo), Scalar::Error));
    }
}

} // verus!
