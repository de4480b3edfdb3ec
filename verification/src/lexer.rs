//! Tokens, literals and lexical errors, with their mathematical views.

use crate::escape::{byte_str_value, byte_value, char_value, str_value};
pub use crate::escape::{
    is_ascii_octdigit, parse_byte, parse_byte_str, parse_char, parse_str, unescape,
};
pub use crate::number::{
    filter_underscores, parse_bin_int, parse_hex_int, parse_int, parse_oct_int,
};
use crate::number::{int_value, prefixed_int_value, strip_underscores};
use crate::rules::{
    is_lexeme, is_next_lexeme, lemma_lexeme_ends, lemma_next_exists, lemma_next_unique,
};
use crate::scan::{next_lexeme, skip_space, skip_whitespace};
use crate::text::{
    lemma_ascii_boundary, lemma_decoded_head, lemma_decoded_last, lemma_decoded_some,
    lemma_next_boundary, lemma_valid_between, substring,
};
use vstd::prelude::*;
use vstd::string::{StringExecFns, StringSliceAdditionalSpecFns};
use vstd::utf8::{
    decode_utf8, decode_utf8_encode_utf8, encode_utf8, encode_utf8_decode_utf8,
    encode_utf8_valid_utf8, is_char_boundary, is_char_boundary_start_end_of_seq, valid_utf8,
};

verus! {

/// A half-open range `[start, end)` of byte offsets into the source text.
#[derive(Debug, Clone, Copy, PartialEq, Eq, Structural)]
pub struct Span {
    pub start: usize,
    pub end: usize,
}

impl Span {
    /// A span is well formed when it does not end before it starts.
    pub open spec fn wf(self) -> bool {
        self.start <= self.end
    }

    /// `self` lies entirely inside `outer`.
    pub open spec fn within(self, outer: Span) -> bool {
        outer.start <= self.start && self.end <= outer.end
    }
}

/// The lexical rule that a lexeme matched.
///
/// Punctuation, operators and keywords are handed out as tokens under their
/// own tag. The tags of the literal rules and of `Identifier` name the rule
/// only: the token carries the decoded value. `Error` tags input that no rule
/// matches and `Comment` a line comment; neither is handed out as a token.
#[derive(Debug, Clone, Copy, PartialEq, Eq, Structural)]
pub enum Scalar {
    Error,
    LeftParen,
    RightParen,
    LeftBrace,
    RightBrace,
    LeftBracket,
    RightBracket,
    Plus,
    Minus,
    Star,
    Slash,
    Modulo,
    Bar,
    Ampersand,
    Hat,
    Dot,
    Comma,
    Underscore,
    Assign,
    Bang,
    Question,
    Tilde,
    Colon,
    Semicolon,
    Or,
    And,
    PlusAssign,
    MinusAssign,
    TimesAssign,
    DivAssign,
    ModuloAssign,
    OrAssign,
    AndAssign,
    XorAssign,
    Path,
    Range,
    Equal,
    NotEqual,
    GreaterEqual,
    LessEqual,
    Greater,
    Less,
    Let,
    Const,
    Global,
    Fn,
    Struct,
    If,
    Else,
    Loop,
    For,
    In,
    Mut,
    Import,
    Export,
    Use,
    Type,
    Constraint,
    Is,
    Return,
    Break,
    Continue,
    Comment,
    IntegerLiteral,
    HexIntegerLiteral,
    OctIntegerLiteral,
    BinIntegerLiteral,
    FloatLiteral,
    TrueLiteral,
    FalseLiteral,
    StringLiteral,
    CharLiteral,
    ByteStringLiteral,
    ByteLiteral,
    Identifier,
}

/// Why a run of digits is not an unsigned integer.
#[derive(Debug, Clone, Copy, PartialEq, Eq, Structural)]
pub enum IntegerError {
    /// There is nothing to parse.
    Empty,
    /// A character is not a digit of the radix.
    InvalidDigit,
    /// The value does not fit the integer type.
    PosOverflow,
}

impl IntegerError {
    /// What is wrong, in words.
    pub open spec fn text(self) -> Seq<char> {
        match self {
            IntegerError::Empty => "cannot parse integer from empty string"@,
            IntegerError::InvalidDigit => "invalid digit found in string"@,
            IntegerError::PosOverflow => "number too large to fit in target type"@,
        }
    }

    /// What is wrong, in words.
    pub fn message(&self) -> (r: &'static str)
        ensures
            r@ == self.text(),
    {
        match self {
            IntegerError::Empty => "cannot parse integer from empty string",
            IntegerError::InvalidDigit => "invalid digit found in string",
            IntegerError::PosOverflow => "number too large to fit in target type",
        }
    }
}

/// A lexical error.
#[derive(Debug)]
pub enum Error {
    /// No lexical rule matches at this position.
    InvalidToken,
    /// The text of an integer literal has no value in its radix.
    InvalidInteger(IntegerError),
    /// The text of a float literal has no value. The tokenizer keeps the text
    /// of a float literal and never reports this itself: it is for callers
    /// that convert the text to a binary float.
    InvalidFloat,
    /// An escape sequence is not one of the escape grammar; the offending text
    /// is kept.
    InvalidEscape(String),
}

/// The mathematical value of an [`Error`].
pub enum ErrorView {
    InvalidToken,
    InvalidInteger(IntegerError),
    InvalidFloat,
    InvalidEscape(Seq<char>),
}

impl View for Error {
    type V = ErrorView;

    open spec fn view(&self) -> ErrorView {
        match self {
            Error::InvalidToken => ErrorView::InvalidToken,
            Error::InvalidInteger(e) => ErrorView::InvalidInteger(*e),
            Error::InvalidFloat => ErrorView::InvalidFloat,
            Error::InvalidEscape(s) => ErrorView::InvalidEscape(s@),
        }
    }
}

impl ErrorView {
    /// The error in words, with the offending text where there is one.
    pub open spec fn message(self) -> Seq<char> {
        match self {
            ErrorView::InvalidToken => "invalid token"@,
            ErrorView::InvalidInteger(e) => "invalid integer: "@ + e.text(),
            ErrorView::InvalidFloat => "invalid float"@,
            ErrorView::InvalidEscape(text) => "invalid escape sequence: "@ + text,
        }
    }
}

impl Error {
    /// The error in words, with the offending text where there is one.
    pub fn message(&self) -> (r: String)
        ensures
            r@ == self@.message(),
    {
        match self {
            Error::InvalidToken => String::from_str("invalid token"),
            Error::InvalidInteger(e) => {
                let mut r = String::from_str("invalid integer: ");
                r.append(e.message());
                r
            },
            Error::InvalidFloat => String::from_str("invalid float"),
            Error::InvalidEscape(text) => {
                let mut r = String::from_str("invalid escape sequence: ");
                r.append(text.as_str());
                r
            },
        }
    }
}

impl Clone for Error {
    fn clone(&self) -> (r: Self)
        ensures
            r@ == self@,
    {
        match self {
            Error::InvalidToken => Error::InvalidToken,
            Error::InvalidInteger(e) => Error::InvalidInteger(*e),
            Error::InvalidFloat => Error::InvalidFloat,
            Error::InvalidEscape(text) => Error::InvalidEscape(text.clone()),
        }
    }
}

/// A decoded literal.
#[derive(Debug)]
pub enum Literal {
    Integer(u64),
    /// The decimal text of a float literal, digit separators removed.
    Float(String),
    Bool(bool),
    String(String),
    Char(char),
    ByteString(Vec<u8>),
    Byte(u8),
}

/// The mathematical value of a [`Literal`].
pub enum LiteralView {
    Integer(u64),
    Float(Seq<char>),
    Bool(bool),
    String(Seq<char>),
    Char(char),
    ByteString(Seq<u8>),
    Byte(u8),
}

impl View for Literal {
    type V = LiteralView;

    open spec fn view(&self) -> LiteralView {
        match self {
            Literal::Integer(n) => LiteralView::Integer(*n),
            Literal::Float(s) => LiteralView::Float(s@),
            Literal::Bool(b) => LiteralView::Bool(*b),
            Literal::String(s) => LiteralView::String(s@),
            Literal::Char(c) => LiteralView::Char(*c),
            Literal::ByteString(v) => LiteralView::ByteString(v@),
            Literal::Byte(b) => LiteralView::Byte(*b),
        }
    }
}

impl Clone for Literal {
    fn clone(&self) -> (r: Self)
        ensures
            r@ == self@,
    {
        match self {
            Literal::Integer(n) => Literal::Integer(*n),
            Literal::Float(text) => Literal::Float(text.clone()),
            Literal::Bool(b) => Literal::Bool(*b),
            Literal::String(text) => Literal::String(text.clone()),
            Literal::Char(c) => Literal::Char(*c),
            Literal::ByteString(bytes) => Literal::ByteString(bytes.clone()),
            Literal::Byte(b) => Literal::Byte(*b),
        }
    }
}

/// A token: a fixed symbol, a decoded literal, or an identifier that borrows
/// its text from the source.
#[derive(Debug)]
pub enum Token<'a> {
    Scalar(Scalar),
    Literal(Literal),
    Identifier(&'a str),
}

impl<'a> Clone for Token<'a> {
    fn clone(&self) -> (r: Self)
        ensures
            r@ == self@,
    {
        match self {
            Token::Scalar(tag) => Token::Scalar(*tag),
            Token::Literal(literal) => Token::Literal(literal.clone()),
            Token::Identifier(text) => Token::Identifier(*text),
        }
    }
}

/// The mathematical value of a [`Token`].
pub enum TokenView {
    Scalar(Scalar),
    Literal(LiteralView),
    Identifier(Seq<char>),
}

impl<'a> View for Token<'a> {
    type V = TokenView;

    open spec fn view(&self) -> TokenView {
        match self {
            Token::Scalar(s) => TokenView::Scalar(*s),
            Token::Literal(l) => TokenView::Literal(l@),
            Token::Identifier(i) => TokenView::Identifier(i@),
        }
    }
}

/// The token of an integer literal with the given value.
pub open spec fn integer_token(value: Result<nat, IntegerError>) -> Result<TokenView, ErrorView> {
    match value {
        Ok(v) => Ok(TokenView::Literal(LiteralView::Integer(v as u64))),
        Err(e) => Err(ErrorView::InvalidInteger(e)),
    }
}

/// The token of a literal whose body decodes to `value`.
pub open spec fn decoded_token(value: Result<LiteralView, Seq<char>>) -> Result<
    TokenView,
    ErrorView,
> {
    match value {
        Ok(v) => Ok(TokenView::Literal(v)),
        Err(e) => Err(ErrorView::InvalidEscape(e)),
    }
}

/// The token, or the error, that a lexeme of the rule `kind` with the text
/// `text` stands for.
pub open spec fn token_value(kind: Scalar, text: Seq<char>) -> Result<TokenView, ErrorView> {
    match kind {
        Scalar::Error => Err(ErrorView::InvalidToken),
        Scalar::IntegerLiteral => integer_token(int_value(text)),
        Scalar::HexIntegerLiteral => integer_token(prefixed_int_value(text, 16)),
        Scalar::OctIntegerLiteral => integer_token(prefixed_int_value(text, 8)),
        Scalar::BinIntegerLiteral => integer_token(prefixed_int_value(text, 2)),
        Scalar::FloatLiteral => Ok(TokenView::Literal(LiteralView::Float(strip_underscores(text)))),
        Scalar::TrueLiteral => Ok(TokenView::Literal(LiteralView::Bool(true))),
        Scalar::FalseLiteral => Ok(TokenView::Literal(LiteralView::Bool(false))),
        Scalar::StringLiteral => decoded_token(
            match str_value(text) {
                Ok(v) => Ok(LiteralView::String(v)),
                Err(e) => Err(e),
            },
        ),
        Scalar::CharLiteral => decoded_token(
            match char_value(text) {
                Ok(v) => Ok(LiteralView::Char(v)),
                Err(e) => Err(e),
            },
        ),
        Scalar::ByteStringLiteral => decoded_token(
            match byte_str_value(encode_utf8(text)) {
                Ok(v) => Ok(LiteralView::ByteString(v)),
                Err(e) => Err(e),
            },
        ),
        Scalar::ByteLiteral => decoded_token(
            match byte_value(encode_utf8(text)) {
                Ok(v) => Ok(LiteralView::Byte(v)),
                Err(e) => Err(e),
            },
        ),
        Scalar::Identifier => Ok(TokenView::Identifier(text)),
        _ => Ok(TokenView::Scalar(kind)),
    }
}

/// The text of a literal is long enough for its delimiters.
pub open spec fn is_sized(kind: Scalar, text: Seq<char>) -> bool {
    match kind {
        Scalar::HexIntegerLiteral | Scalar::OctIntegerLiteral | Scalar::BinIntegerLiteral
        | Scalar::StringLiteral => text.len() >= 2,
        Scalar::CharLiteral => text.len() >= 3,
        Scalar::ByteStringLiteral => encode_utf8(text).len() >= 3,
        Scalar::ByteLiteral => encode_utf8(text).len() >= 4,
        _ => true,
    }
}

/// The mathematical value of a token or an error.
pub open spec fn outcome<'a>(r: Result<Token<'a>, Error>) -> Result<TokenView, ErrorView> {
    match r {
        Ok(t) => Ok(t@),
        Err(e) => Err(e@),
    }
}

/// The token that a lexeme of the rule `kind` with the text `text` stands
/// for: the rule's tag for punctuation, operators and keywords, the decoded
/// value for a literal, the text itself for an identifier; or the error, where
/// no rule matched or the text of a literal has no value.
pub fn token_of<'a>(kind: Scalar, text: &'a str) -> (r: Result<Token<'a>, Error>)
    requires
        is_sized(kind, text@),
    ensures
        outcome(r) == token_value(kind, text@),
{
    match kind {
        Scalar::Error => Err(Error::InvalidToken),
        Scalar::IntegerLiteral => match parse_int(text) {
            Ok(i) => Ok(Token::Literal(Literal::Integer(i))),
            Err(e) => Err(e),
        },
        Scalar::HexIntegerLiteral => match parse_hex_int(text) {
            Ok(i) => Ok(Token::Literal(Literal::Integer(i))),
            Err(e) => Err(e),
        },
        Scalar::OctIntegerLiteral => match parse_oct_int(text) {
            Ok(i) => Ok(Token::Literal(Literal::Integer(i))),
            Err(e) => Err(e),
        },
        Scalar::BinIntegerLiteral => match parse_bin_int(text) {
            Ok(i) => Ok(Token::Literal(Literal::Integer(i))),
            Err(e) => Err(e),
        },
        Scalar::FloatLiteral => Ok(Token::Literal(Literal::Float(filter_underscores(text)))),
        Scalar::TrueLiteral => Ok(Token::Literal(Literal::Bool(true))),
        Scalar::FalseLiteral => Ok(Token::Literal(Literal::Bool(false))),
        Scalar::StringLiteral => match parse_str(text) {
            Ok(s) => Ok(Token::Literal(Literal::String(s))),
            Err(e) => Err(e),
        },
        Scalar::CharLiteral => match parse_char(text) {
            Ok(c) => Ok(Token::Literal(Literal::Char(c))),
            Err(e) => Err(e),
        },
        Scalar::ByteStringLiteral => match parse_byte_str(text) {
            Ok(bs) => Ok(Token::Literal(Literal::ByteString(bs))),
            Err(e) => Err(e),
        },
        Scalar::ByteLiteral => match parse_byte(text) {
            Ok(b) => Ok(Token::Literal(Literal::Byte(b))),
            Err(e) => Err(e),
        },
        Scalar::Identifier => Ok(Token::Identifier(text)),
        _ => Ok(Token::Scalar(kind)),
    }
}

/// The rule and the end of the lexeme that maximal munch picks at `pos`.
pub open spec fn lexeme_at(b: Seq<u8>, pos: int) -> (Scalar, int) {
    choose|kind: Scalar, end: int| is_next_lexeme(b, pos, end, kind)
}

/// The tokens and errors of the source bytes `b` from `pos` on, each with its
/// span: white space is skipped, the next lexeme is picked by maximal munch,
/// a comment is dropped, any other lexeme stands for its token or error, and
/// so on behind it.
pub open spec fn tokens_from(b: Seq<u8>, pos: int) -> Seq<(Result<TokenView, ErrorView>, Span)>
    decreases b.len() - pos,
    via tokens_from_decreases
{
    let start = skip_space(b, pos);
    if 0 <= pos <= start < b.len() {
        let (kind, end) = lexeme_at(b, start);
        let rest = tokens_from(b, end);
        if kind == Scalar::Comment {
            rest
        } else {
            seq![
                (
                    token_value(kind, decode_utf8(b.subrange(start, end))),
                    Span { start: start as usize, end: end as usize },
                ),
            ] + rest
        }
    } else {
        Seq::empty()
    }
}

#[via_fn]
proof fn tokens_from_decreases(b: Seq<u8>, pos: int) {
    let start = skip_space(b, pos);
    if 0 <= pos <= start < b.len() {
        lemma_lexeme_at(b, start);
        let (kind, end) = lexeme_at(b, start);
        assert(pos < end);
    }
}

/// Maximal munch picks a lexeme that is not empty and lies within the
/// source.
pub proof fn lemma_lexeme_at(b: Seq<u8>, pos: int)
    requires
        0 <= pos < b.len(),
    ensures
        is_next_lexeme(b, pos, lexeme_at(b, pos).1, lexeme_at(b, pos).0),
        pos < lexeme_at(b, pos).1 <= b.len(),
{
    lemma_next_exists(b, pos);
}

/// The tokens and errors of a source text, each with its span.
pub open spec fn tokens_of(b: Seq<u8>) -> Seq<(Result<TokenView, ErrorView>, Span)> {
    tokens_from(b, 0)
}

/// The mathematical values of a list of tokens and errors.
pub open spec fn outcomes<'a>(out: Seq<(Result<Token<'a>, Error>, Span)>) -> Seq<
    (Result<TokenView, ErrorView>, Span),
> {
    Seq::new(out.len(), |i: int| (outcome(out[i].0), out[i].1))
}

/// A lexeme that begins at a boundary of well-formed text ends at one, is
/// well-formed text itself, and is long enough for its delimiters.
pub proof fn lemma_lexeme_text(b: Seq<u8>, lo: int, hi: int, kind: Scalar)
    requires
        valid_utf8(b),
        is_char_boundary(b, lo),
        is_lexeme(b, lo, hi, kind),
    ensures
        is_char_boundary(b, hi),
        valid_utf8(b.subrange(lo, hi)),
        is_sized(kind, decode_utf8(b.subrange(lo, hi))),
{
    lemma_lexeme_ends(b, lo, hi, kind);
    lemma_ascii_boundary(b, hi - 1);
    lemma_valid_between(b, lo, hi);
    let s = b.subrange(lo, hi);
    let n = s.len() as int;
    decode_utf8_encode_utf8(s);
    assert(s[0] == b[lo]);
    assert(s[n - 1] == b[hi - 1]);
    match kind {
        Scalar::HexIntegerLiteral | Scalar::OctIntegerLiteral | Scalar::BinIntegerLiteral => {
            lemma_decoded_head(s);
            let rest = s.subrange(1, n);
            assert(rest[0] == b[lo + 1]);
            lemma_decoded_some(rest);
        },
        Scalar::StringLiteral => {
            lemma_decoded_last(s);
            lemma_decoded_some(s.subrange(0, n - 1));
        },
        Scalar::CharLiteral => {
            lemma_decoded_last(s);
            let front = s.subrange(0, n - 1);
            assert(front[0] == b[lo]);
            lemma_decoded_head(front);
            lemma_decoded_some(front.subrange(1, n - 1));
        },
        _ => {},
    }
}

/// The first token or lexical error of the source at or after the byte
/// offset `pos`, with its span; `None` where only white space and comments are
/// left. The scan goes on at the end of the span.
pub fn next_token<'a>(source: &'a str, pos: usize) -> (r: Option<
    (Result<Token<'a>, Error>, Span),
>)
    requires
        is_char_boundary(source.spec_bytes(), pos as int),
    ensures
        match r {
            None => tokens_from(source.spec_bytes(), pos as int) == Seq::<
                (Result<TokenView, ErrorView>, Span),
            >::empty(),
            Some(item) => {
                &&& pos <= item.1.start < item.1.end <= source.spec_bytes().len()
                &&& is_char_boundary(source.spec_bytes(), item.1.end as int)
                &&& tokens_from(source.spec_bytes(), pos as int) == seq![
                    (outcome(item.0), item.1),
                ] + tokens_from(source.spec_bytes(), item.1.end as int)
            },
        },
{
    let bytes = source.as_bytes();
    let n: usize = bytes.len();
    let ghost b = source.spec_bytes();
    proof {
        encode_utf8_valid_utf8(source@);
    }
    let mut at: usize = pos;
    loop
        invariant
            b == source.spec_bytes(),
            bytes@ == b,
            n == b.len(),
            valid_utf8(b),
            pos <= at,
            is_char_boundary(b, at as int),
            tokens_from(b, pos as int) == tokens_from(b, at as int),
        decreases n - at,
    {
        let start = skip_whitespace(bytes, at);
        if start >= n {
            return None;
        }
        let (kind, end) = next_lexeme(bytes, start);
        proof {
            if start > at {
                lemma_ascii_boundary(b, start - 1);
            }
            lemma_lexeme_at(b, start as int);
            lemma_next_unique(
                b,
                start as int,
                end as int,
                kind,
                lexeme_at(b, start as int).1,
                lexeme_at(b, start as int).0,
            );
            if kind == Scalar::Error {
                lemma_next_boundary(b, start as int);
                lemma_valid_between(b, start as int, end as int);
            } else {
                lemma_lexeme_text(b, start as int, end as int, kind);
            }
        }
        match kind {
            Scalar::Comment => {
                at = end;
            },
            _ => {
                let text = substring(source, start, end);
                proof {
                    encode_utf8_decode_utf8(text@);
                }
                return Some((token_of(kind, text), Span { start, end }));
            },
        }
    }
}

/// Tokenizes a source text: its tokens and lexical errors in the order of
/// the text, each with the span of bytes it was read from. White space and
/// comments yield nothing. Where no rule matches, one character is skipped
/// and reported as an invalid token, and the scan goes on behind it.
pub fn lex<'a>(source: &'a str) -> (out: Vec<(Result<Token<'a>, Error>, Span)>)
    ensures
        outcomes(out@) == tokens_of(source.spec_bytes()),
{
    let ghost b = source.spec_bytes();
    proof {
        encode_utf8_valid_utf8(source@);
        is_char_boundary_start_end_of_seq(b);
    }
    let mut out: Vec<(Result<Token<'a>, Error>, Span)> = Vec::new();
    let mut pos: usize = 0;
    assert(outcomes(out@) + tokens_from(b, 0) =~= tokens_from(b, 0));
    loop
        invariant
            b == source.spec_bytes(),
            pos <= b.len(),
            is_char_boundary(b, pos as int),
            tokens_of(b) == outcomes(out@) + tokens_from(b, pos as int),
        ensures
            outcomes(out@) == tokens_of(b),
        decreases b.len() - pos,
    {
        match next_token(source, pos) {
            None => {
                assert(outcomes(out@) + Seq::empty() =~= outcomes(out@));
                break ;
            },
            Some(item) => {
                let ghost before = out@;
                let ghost view = (outcome(item.0), item.1);
                pos = item.1.end;
                out.push(item);
                assert(outcomes(out@) =~= outcomes(before).push(view));
                assert(outcomes(before).push(view) + tokens_from(b, pos as int) =~= outcomes(before)
                    + (seq![view] + tokens_from(b, pos as int)));
            },
        }
    }
    out
}

/// The spans are not empty, lie between `from` and `to`, and follow one
/// another without overlap.
pub open spec fn spans_in_order(
    out: Seq<(Result<TokenView, ErrorView>, Span)>,
    from: int,
    to: int,
) -> bool {
    &&& forall|i: int|
        0 <= i < out.len() ==> from <= (#[trigger] out[i]).1.start < out[i].1.end <= to
    &&& forall|i: int, j: int|
        0 <= i < j < out.len() ==> (#[trigger] out[i]).1.end <= (#[trigger] out[j]).1.start
}

/// The span of every token and error of a source is a stretch of the source
/// that is not empty, and the spans follow one another in the order of the
/// tokens without overlap.
pub proof fn lemma_spans_in_order(b: Seq<u8>, pos: int)
    requires
        0 <= pos,
        b.len() <= usize::MAX,
    ensures
        spans_in_order(tokens_from(b, pos), pos, b.len() as int),
    decreases b.len() - pos,
{
    let start = skip_space(b, pos);
    if pos <= start < b.len() {
        lemma_lexeme_at(b, start);
        let (kind, end) = lexeme_at(b, start);
        let rest = tokens_from(b, end);
        lemma_spans_in_order(b, end);
        if kind != Scalar::Comment {
            let first = (
                token_value(kind, decode_utf8(b.subrange(start, end))),
                Span { start: start as usize, end: end as usize },
            );
            let out = seq![first] + rest;
            assert forall|i: int| 0 <= i < out.len() implies pos <= (#[trigger] out[i]).1.start
                < out[i].1.end <= b.len() by {
                if i > 0 {
                    assert(out[i] == rest[i - 1]);
                }
            }
            assert forall|i: int, j: int| 0 <= i < j < out.len() implies (#[trigger] out[i]).1.end
                <= (#[trigger] out[j]).1.start by {
                assert(out[j] == rest[j - 1]);
                if i > 0 {
                    assert(out[i] == rest[i - 1]);
                }
            }
        }
    }
}

/// Tokenizing is a function of the source: two sources with the same bytes
/// have the same tokens, errors and spans.
pub proof fn lemma_deterministic<'a, 'b>(
    first: Seq<(Result<Token<'a>, Error>, Span)>,
    second: Seq<(Result<Token<'b>, Error>, Span)>,
    b: Seq<u8>,
)
    requires
        outcomes(first) == tokens_of(b),
        outcomes(second) == tokens_of(b),
    ensures
        first.len() == second.len(),
        forall|i: int|
            0 <= i < first.len() ==> outcome(#[trigger] first[i].0) == outcome(second[i].0)
                && first[i].1 == second[i].1,
{
    assert(outcomes(first).len() == first.len());
    assert(outcomes(second).len() == second.len());
    assert forall|i: int| 0 <= i < first.len() implies outcome(#[trigger] first[i].0) == outcome(
        second[i].0,
    ) && first[i].1 == second[i].1 by {
        assert(outcomes(first)[i] == outcomes(second)[i]);
    }
}

} // verus!
