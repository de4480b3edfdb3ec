//! Literals written out, and read back by the tokenizer.

use crate::lexer::{
    lemma_lexeme_at, lexeme_at, token_value, tokens_from, tokens_of, ErrorView, LiteralView,
    Scalar, Span, TokenView,
};
use crate::escape::{
    escaped, escaped_text, lemma_bytes_round_trip, lemma_escaped_ascii, lemma_text_round_trip,
    narrow,
};
use crate::number::{is_digit, lemma_render, lemma_rendered_value, render};
use crate::rules::{
    byte, fixed_text, in_radix, is_char_literal, is_digits, is_float_at, is_identifier_at,
    is_lexeme, is_next_lexeme, is_plain, is_quoted, is_quoted_char, is_word, lemma_lexeme_ends,
    lemma_next_unique,
};
use crate::text::{char_width, widen};
use crate::scan::skip_space;
use vstd::prelude::*;
use vstd::utf8::{
    decode_utf8, decode_utf8_encode_utf8, encode_utf8, encode_utf8_decode_utf8,
    encode_utf8_first_scalar, encode_utf8_valid_utf8, is_ascii_chars, is_ascii_chars_encode_utf8,
};

verus! {

/// The one token or error of a source that holds nothing else.
pub open spec fn single(value: Result<TokenView, ErrorView>, b: Seq<u8>) -> Seq<
    (Result<TokenView, ErrorView>, Span),
> {
    seq![(value, Span { start: 0, end: b.len() as usize })]
}

/// A source that is one lexeme of a rule, from end to end, has one token:
/// that of the lexeme. (An identifier is set aside, since the same text may
/// be a keyword, and a comment, which has no token.)
pub proof fn lemma_single_lexeme(b: Seq<u8>, kind: Scalar)
    requires
        is_lexeme(b, 0, b.len() as int, kind),
        kind != Scalar::Identifier,
        kind != Scalar::Comment,
    ensures
        tokens_of(b) == single(token_value(kind, decode_utf8(b)), b),
{
    let n = b.len() as int;
    lemma_lexeme_ends(b, 0, n, kind);
    assert(skip_space(b, 0) == 0);
    assert(is_next_lexeme(b, 0, n, kind));
    lemma_lexeme_at(b, 0);
    lemma_next_unique(b, 0, n, kind, lexeme_at(b, 0).1, lexeme_at(b, 0).0);
    assert(b.subrange(0, n) =~= b);
    assert(skip_space(b, n) == n);
    assert(tokens_from(b, n) =~= Seq::empty());
    assert(tokens_from(b, 0) =~= single(token_value(kind, decode_utf8(b)), b));
}

/// A source that is the text of one punctuation mark, operator or keyword,
/// and nothing else, has one token: that of the rule with this text. No
/// shorter text is split off from it.
pub proof fn lemma_fixed_token(kind: Scalar)
    requires
        fixed_text(kind) is Some,
    ensures
        ({
            let text = fixed_text(kind)->0;
            tokens_of(encode_utf8(text)) == single(token_value(kind, text), encode_utf8(text))
        }),
{
    let text = fixed_text(kind)->0;
    let b = encode_utf8(text);
    crate::rules::lemma_fixed_text(kind);
    assert(b.subrange(0, b.len() as int) =~= b);
    encode_utf8_decode_utf8(text);
    lemma_single_lexeme(b, kind);
}

/// A source that is one identifier from end to end, and the text of no
/// keyword, has one token: the identifier with the source as its text. No
/// keyword is split off from its start.
pub proof fn lemma_identifier_token(b: Seq<u8>)
    requires
        is_lexeme(b, 0, b.len() as int, Scalar::Identifier),
        forall|k: Scalar| fixed_text(k) is Some ==> !is_lexeme(b, 0, b.len() as int, k),
    ensures
        tokens_of(b) == single(Ok(TokenView::Identifier(decode_utf8(b))), b),
{
    let n = b.len() as int;
    let first = choose|first: int| is_identifier_at(b, 0, first, n);
    assert(is_word(b[0])) by {
        if 0 < first {
            assert(b[0] == byte('_'));
        }
    }
    assert forall|k: Scalar, e: int| #[trigger] is_lexeme(b, 0, e, k) && e == n implies k
        == Scalar::Identifier by {
        if k != Scalar::Identifier && fixed_text(k) is None {
            if k == Scalar::FloatLiteral {
                let (dot, frac) = choose|dot: int, frac: int| is_float_at(b, 0, dot, frac, e);
                assert(in_radix(b[0], 10));
            }
            if 1 < n {
                assert(is_word(b[1])) by {
                    if 1 < first {
                        assert(b[1] == byte('_'));
                    }
                }
            }
        }
    }
    lemma_lexeme_ends(b, 0, n, Scalar::Identifier);
    assert(skip_space(b, 0) == 0);
    assert(is_next_lexeme(b, 0, n, Scalar::Identifier));
    lemma_lexeme_at(b, 0);
    lemma_next_unique(b, 0, n, Scalar::Identifier, lexeme_at(b, 0).1, lexeme_at(b, 0).0);
    assert(b.subrange(0, n) =~= b);
    assert(skip_space(b, n) == n);
    assert(tokens_from(b, n) =~= Seq::empty());
    assert(tokens_from(b, 0) =~= single(Ok(TokenView::Identifier(decode_utf8(b))), b));
}

/// The encoding of a run of digits without separators is a run of digits.
pub proof fn lemma_digits_encoded(text: Seq<char>, radix: u32, lead: Seq<char>)
    requires
        2 <= radix <= 36,
        text.len() >= 1,
        forall|i: int| 0 <= i < text.len() ==> is_digit(#[trigger] text[i], radix),
        is_ascii_chars(lead),
    ensures
        is_ascii_chars(lead + text),
        encode_utf8(lead + text).len() == lead.len() + text.len(),
        forall|i: int|
            0 <= i < lead.len() ==> #[trigger] encode_utf8(lead + text)[i] == lead[i] as u8,
        is_digits(
            encode_utf8(lead + text),
            lead.len() as int,
            (lead.len() + text.len()) as int,
            radix,
        ),
{
    let all = lead + text;
    assert forall|i: int| 0 <= i < all.len() implies '\0' <= #[trigger] all[i] <= '\u{7f}' by {
        if i >= lead.len() {
            let c = text[i - lead.len()];
            assert(all[i] == c);
            assert(is_digit(c, radix));
            assert(c as u32 <= 'z' as u32);
            vstd::utf8::char_u32_cast(c, c as u32);
        } else {
            assert(all[i] == lead[i]);
            assert('\0' <= lead[i] <= '\u{7f}');
        }
    }
    is_ascii_chars_encode_utf8(all);
    let b = encode_utf8(all);
    assert forall|i: int| lead.len() <= i < all.len() implies in_radix(#[trigger] b[i], radix) by {
        assert(b[i] == all[i] as u8);
        assert(is_digit(text[i - lead.len()], radix));
    }
}

/// Round trip of integer literals through the tokenizer: a source that holds
/// the digits of a 64-bit number in base ten, or its digits in base sixteen,
/// eight or two behind the prefix of that base, has one token, the integer
/// literal with the number as its value.
pub proof fn lemma_integer_tokens(n: u64)
    ensures
        ({
            let b = encode_utf8(render(n as nat, 10));
            tokens_of(b) == single(Ok(TokenView::Literal(LiteralView::Integer(n))), b)
        }),
        ({
            let b = encode_utf8(seq!['0', 'x'] + render(n as nat, 16));
            tokens_of(b) == single(Ok(TokenView::Literal(LiteralView::Integer(n))), b)
        }),
        ({
            let b = encode_utf8(seq!['0', 'o'] + render(n as nat, 8));
            tokens_of(b) == single(Ok(TokenView::Literal(LiteralView::Integer(n))), b)
        }),
        ({
            let b = encode_utf8(seq!['0', 'b'] + render(n as nat, 2));
            tokens_of(b) == single(Ok(TokenView::Literal(LiteralView::Integer(n))), b)
        }),
{
    let text = render(n as nat, 10);
    lemma_render(n as nat, 10, u64::MAX as nat);
    lemma_rendered_value(n as nat, 10);
    lemma_digits_encoded(text, 10, Seq::empty());
    assert(Seq::<char>::empty() + text =~= text);
    encode_utf8_decode_utf8(text);
    lemma_single_lexeme(encode_utf8(text), Scalar::IntegerLiteral);
    lemma_prefixed_token(n, 'x', 16, Scalar::HexIntegerLiteral);
    lemma_prefixed_token(n, 'o', 8, Scalar::OctIntegerLiteral);
    lemma_prefixed_token(n, 'b', 2, Scalar::BinIntegerLiteral);
}

/// A source that holds the digits of a 64-bit number behind the prefix of
/// their base has one token, the integer literal with the number as its
/// value.
proof fn lemma_prefixed_token(n: u64, letter: char, radix: u32, kind: Scalar)
    requires
        (letter == 'x' && radix == 16 && kind == Scalar::HexIntegerLiteral) || (letter == 'o'
            && radix == 8 && kind == Scalar::OctIntegerLiteral) || (letter == 'b' && radix == 2
            && kind == Scalar::BinIntegerLiteral),
    ensures
        ({
            let b = encode_utf8(seq!['0', letter] + render(n as nat, radix));
            tokens_of(b) == single(Ok(TokenView::Literal(LiteralView::Integer(n))), b)
        }),
{
    let lead = seq!['0', letter];
    let digits = render(n as nat, radix);
    let text = lead + digits;
    let b = encode_utf8(text);
    lemma_render(n as nat, radix, u64::MAX as nat);
    lemma_rendered_value(n as nat, radix);
    lemma_digits_encoded(digits, radix, lead);
    assert(b[0] == lead[0] as u8);
    assert(b[1] == lead[1] as u8);
    assert(text.skip(2) =~= digits);
    encode_utf8_decode_utf8(text);
    lemma_single_lexeme(b, kind);
}

/// The encoding of two texts, one after the other, is the encoding of the
/// first and then that of the second.
pub proof fn lemma_encode_concat(x: Seq<char>, y: Seq<char>)
    ensures
        encode_utf8(x + y) == encode_utf8(x) + encode_utf8(y),
    decreases x.len(),
{
    if x.len() == 0 {
        assert(x + y =~= y);
        assert(encode_utf8(x) + encode_utf8(y) =~= encode_utf8(y));
    } else {
        assert((x + y).drop_first() =~= x.drop_first() + y);
        assert((x + y)[0] == x[0]);
        lemma_encode_concat(x.drop_first(), y);
        assert(encode_utf8(x + y) =~= encode_utf8(x) + encode_utf8(y));
    }
}

/// The encoding of one character: an ASCII character is its own byte, and
/// any other character two to four bytes, none of them ASCII, as many as its
/// first byte tells.
pub proof fn lemma_encode_char(c: char)
    ensures
        ({
            let e = encode_utf8(seq![c]);
            &&& 1 <= e.len() <= 4
            &&& e.len() == char_width(e[0])
            &&& c <= '\u{7f}' ==> e == seq![c as u8]
            &&& c > '\u{7f}' ==> forall|i: int| 0 <= i < e.len() ==> #[trigger] e[i] >= 0x80
        }),
{
    let text = seq![c];
    let e = encode_utf8(text);
    encode_utf8_first_scalar(text);
    assert(text.drop_first() =~= Seq::<char>::empty());
    assert(encode_utf8(text.drop_first()) =~= Seq::<u8>::empty());
    if c <= '\u{7f}' {
        is_ascii_chars_encode_utf8(text);
        assert(e =~= seq![c as u8]);
    }
}

/// Every double quote of `m` follows a backslash.
pub open spec fn quotes_escaped(m: Seq<u8>) -> bool {
    forall|i: int|
        0 <= i < m.len() && #[trigger] m[i] == byte('"') ==> 1 <= i && m[i - 1] == byte('\\')
}

/// The escaped form of a text holds no double quote but behind a backslash,
/// and so does its encoding.
pub proof fn lemma_escaped_quotes(text: Seq<char>)
    ensures
        quotes_escaped(encode_utf8(escaped_text(text))),
    decreases text.len(),
{
    if text.len() > 0 {
        let c = text[0];
        let head = encode_utf8(escaped(c));
        let tail = encode_utf8(escaped_text(text.skip(1)));
        lemma_escaped_quotes(text.skip(1));
        lemma_encode_concat(escaped(c), escaped_text(text.skip(1)));
        if escaped(c).len() == 2 {
            let pair = escaped(c);
            assert(is_ascii_chars(pair)) by {
                assert forall|i: int| 0 <= i < pair.len() implies '\0' <= #[trigger] pair[i]
                    <= '\u{7f}' by {
                    assert(i == 0 || i == 1);
                }
            }
            is_ascii_chars_encode_utf8(pair);
            assert(head[0] == pair[0] as u8);
            assert(head[0] == byte('\\'));
            assert(head.len() == 2);
        } else {
            assert(escaped(c) =~= seq![c]);
            lemma_encode_char(c);
            if c <= '\u{7f}' {
                vstd::utf8::char_u32_cast(c, c as u32);
                assert(head[0] == c as u8);
                assert(head[0] != byte('"'));
            }
        }
        assert(quotes_escaped(head)) by {
            assert forall|i: int| 0 <= i < head.len() && #[trigger] head[i] == byte('"') implies 1
                <= i && head[i - 1] == byte('\\') by {
                if escaped(c).len() == 2 {
                    assert(i == 0 || i == 1);
                }
            }
        }
        assert forall|i: int| 0 <= i < (head + tail).len() && #[trigger] (head + tail)[i] == byte(
            '"',
        ) implies 1 <= i && (head + tail)[i - 1] == byte('\\') by {
            if i >= head.len() {
                assert(tail[i - head.len()] == byte('"'));
            } else {
                assert(head[i] == byte('"'));
            }
        }
    }
}

/// Round trip of string literals through the tokenizer: a source that holds
/// the escaped form of a text between double quotes has one token, the string
/// literal with the text as its value.
pub proof fn lemma_string_token(text: Seq<char>)
    ensures
        ({
            let b = encode_utf8(seq!['"'] + escaped_text(text) + seq!['"']);
            tokens_of(b) == single(Ok(TokenView::Literal(LiteralView::String(text))), b)
        }),
{
    let quote = seq!['"'];
    let body = escaped_text(text);
    let source = quote + body + quote;
    let b = encode_utf8(source);
    let inner = encode_utf8(body);
    lemma_encode_char('"');
    lemma_encode_concat(quote + body, quote);
    lemma_encode_concat(quote, body);
    assert(b =~= seq![byte('"')] + inner + seq![byte('"')]);
    lemma_escaped_quotes(text);
    assert forall|i: int| 0 < i < b.len() - 1 && #[trigger] b[i] == byte('"') implies 1 < i && b[i
        - 1] == byte('\\') by {
        assert(b[i] == inner[i - 1]);
        assert(inner[i - 2] == b[i - 1]);
    }
    assert(is_quoted(b, 0, b.len() as int, false));
    encode_utf8_decode_utf8(source);
    lemma_text_round_trip(text, 'a');
    lemma_single_lexeme(b, Scalar::StringLiteral);
}

/// Round trip of character literals through the tokenizer: a source that
/// holds the escaped form of a character between single quotes has one token,
/// the character literal with the character as its value.
pub proof fn lemma_char_token(c: char)
    ensures
        ({
            let b = encode_utf8(seq!['\''] + escaped(c) + seq!['\'']);
            tokens_of(b) == single(Ok(TokenView::Literal(LiteralView::Char(c))), b)
        }),
{
    let quote = seq!['\''];
    let body = escaped(c);
    let source = quote + body + quote;
    let b = encode_utf8(source);
    let inner = encode_utf8(body);
    lemma_encode_char('\'');
    lemma_encode_concat(quote + body, quote);
    lemma_encode_concat(quote, body);
    assert(b =~= seq![byte('\'')] + inner + seq![byte('\'')]);
    let hi = b.len() - 1;
    if body.len() == 2 {
        assert(is_ascii_chars(body)) by {
            assert forall|i: int| 0 <= i < body.len() implies '\0' <= #[trigger] body[i]
                <= '\u{7f}' by {
                assert(i == 0 || i == 1);
            }
        }
        is_ascii_chars_encode_utf8(body);
        assert(b[1] == inner[0] && inner[0] == body[0] as u8);
        assert(b[2] == inner[1] && inner[1] == body[1] as u8);
        if body[1] != '\'' {
            assert(is_plain(b, 2, hi, false));
        }
    } else {
        assert(body =~= seq![c]);
        lemma_encode_char(c);
        assert(b[1] == inner[0]);
        if c <= '\u{7f}' {
            vstd::utf8::char_u32_cast(c, c as u32);
        }
        assert(is_plain(b, 1, hi, false));
    }
    assert(is_quoted_char(b, 1, hi, false));
    assert(is_char_literal(b, 0, b.len() as int, false));
    encode_utf8_decode_utf8(source);
    lemma_text_round_trip(Seq::empty(), c);
    lemma_single_lexeme(b, Scalar::CharLiteral);
}

/// ASCII bytes are the encoding of the ASCII text with those bytes.
pub proof fn lemma_ascii_bytes(bytes: Seq<u8>)
    requires
        forall|i: int| 0 <= i < bytes.len() ==> bytes[i] < 0x80,
    ensures
        is_ascii_chars(widen(bytes)),
        encode_utf8(widen(bytes)) == bytes,
        decode_utf8(bytes) == widen(bytes),
{
    let text = widen(bytes);
    assert forall|i: int| 0 <= i < text.len() implies '\0' <= #[trigger] text[i] <= '\u{7f}' by {
        assert(bytes[i] < 0x80);
    }
    is_ascii_chars_encode_utf8(text);
    assert(encode_utf8(text) =~= bytes);
    encode_utf8_decode_utf8(text);
}

/// Round trip of byte string literals through the tokenizer: a source that
/// holds the escaped form of ASCII bytes between `b"` and a double quote has
/// one token, the byte string literal with the bytes as its value.
pub proof fn lemma_byte_string_token(bytes: Seq<u8>)
    requires
        forall|i: int| 0 <= i < bytes.len() ==> bytes[i] < 0x80,
    ensures
        ({
            let b = seq!['b' as u8, '"' as u8] + narrow(escaped_text(widen(bytes))) + seq![
                '"' as u8,
            ];
            tokens_of(b) == single(Ok(TokenView::Literal(LiteralView::ByteString(bytes))), b)
        }),
{
    let body = escaped_text(widen(bytes));
    let inner = narrow(body);
    let b = seq!['b' as u8, '"' as u8] + inner + seq!['"' as u8];
    lemma_ascii_bytes(bytes);
    lemma_escaped_ascii(widen(bytes));
    is_ascii_chars_encode_utf8(body);
    assert(encode_utf8(body) =~= inner);
    lemma_escaped_quotes(widen(bytes));
    assert forall|i: int| 0 <= i < b.len() implies #[trigger] b[i] < 0x80 by {
        if 2 <= i < b.len() - 1 {
            assert(b[i] == inner[i - 2]);
            assert('\0' <= body[i - 2] <= '\u{7f}');
        }
    }
    assert forall|i: int| 1 < i < b.len() - 1 && #[trigger] b[i] == byte('"') implies 2 < i && b[i
        - 1] == byte('\\') by {
        assert(b[i] == inner[i - 2]);
        assert(inner[i - 3] == b[i - 1]);
    }
    assert(is_quoted(b, 1, b.len() as int, true));
    lemma_ascii_bytes(b);
    encode_utf8_valid_utf8(widen(b));
    decode_utf8_encode_utf8(b);
    lemma_bytes_round_trip(bytes, 0);
    lemma_single_lexeme(b, Scalar::ByteStringLiteral);
}

/// Round trip of byte literals through the tokenizer: a source that holds
/// the escaped form of an ASCII byte between `b'` and a single quote has one
/// token, the byte literal with the byte as its value.
pub proof fn lemma_byte_token(x: u8)
    requires
        x < 0x80,
    ensures
        ({
            let b = seq!['b' as u8, '\'' as u8] + narrow(escaped(x as char)) + seq!['\'' as u8];
            tokens_of(b) == single(Ok(TokenView::Literal(LiteralView::Byte(x))), b)
        }),
{
    let body = escaped(x as char);
    let inner = narrow(body);
    let b = seq!['b' as u8, '\'' as u8] + inner + seq!['\'' as u8];
    let hi = b.len() - 1;
    assert(b[2] == inner[0]);
    if body.len() == 2 {
        assert(b[3] == inner[1]);
        if body[1] != '\'' {
            assert(is_plain(b, 3, hi, true));
        }
    } else {
        assert(is_plain(b, 2, hi, true));
    }
    assert(is_quoted_char(b, 2, hi, true));
    assert(is_char_literal(b, 1, b.len() as int, true));
    assert forall|i: int| 0 <= i < b.len() implies #[trigger] b[i] < 0x80 by {
        if 2 <= i < b.len() - 1 {
            assert(b[i] == inner[i - 2]);
        }
    }
    lemma_ascii_bytes(b);
    encode_utf8_valid_utf8(widen(b));
    decode_utf8_encode_utf8(b);
    lemma_bytes_round_trip(Seq::empty(), x);
    lemma_single_lexeme(b, Scalar::ByteLiteral);
}

} // verus!
