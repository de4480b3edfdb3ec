//! Escape sequences, and the bodies of string, character and byte literals.

use crate::lexer::{Error, ErrorView};
use crate::number::{accumulate_digits, digit_of, is_digit, radix_value, to_digit};
use crate::text::{chars_of, chars_of_bytes, widen};
use vstd::prelude::*;
use vstd::slice::slice_subrange;
use vstd::string::StringSliceAdditionalSpecFns;
use vstd::utf8::is_ascii_chars;

verus! {

/// The offending text of an escape that fails after `k` characters of
/// `rest`: the backslash and those characters.
pub open spec fn offending(rest: Seq<char>, k: int) -> Seq<char> {
    seq!['\\'] + rest.take(k)
}

/// The index of the first `}` of `s` at or after `from`, or the length of `s`
/// where there is none.
pub open spec fn closing_brace(s: Seq<char>, from: int) -> int
    decreases s.len() - from,
{
    if from < 0 || from >= s.len() {
        s.len() as int
    } else if s[from] == '}' {
        from
    } else {
        closing_brace(s, from + 1)
    }
}

/// `v` is a Unicode scalar value.
pub open spec fn is_scalar_value(v: nat) -> bool {
    v <= 0xD7FF || 0xE000 <= v <= 0x10FFFF
}

/// The escape `\xOH`, an octal and a hexadecimal digit: the ASCII character
/// with that value. `rest` begins with the `x`.
pub open spec fn hex_escape(rest: Seq<char>) -> Result<(char, nat), Seq<char>> {
    if rest.len() < 2 {
        Err(offending(rest, 1))
    } else if !is_digit(rest[1], 8) {
        Err(offending(rest, 2))
    } else if rest.len() < 3 {
        Err(offending(rest, 2))
    } else if !is_digit(rest[2], 16) {
        Err(offending(rest, 3))
    } else {
        Ok((((digit_of(rest[1]) * 16 + digit_of(rest[2])) as u8) as char, 3))
    }
}

/// The escape `\u{H..}`: the character whose scalar value the hexadecimal
/// digits between the braces denote. `rest` begins with the `u`.
pub open spec fn unicode_escape(rest: Seq<char>) -> Result<(char, nat), Seq<char>> {
    if rest.len() < 2 || rest[1] != '{' {
        Err(offending(rest, 1))
    } else {
        let close = closing_brace(rest, 2);
        if close >= rest.len() {
            Err(offending(rest, rest.len() as int))
        } else {
            match radix_value(rest.subrange(2, close), 16, u32::MAX as nat) {
                Ok(v) => if is_scalar_value(v) {
                    Ok(((v as u32) as char, (close + 1) as nat))
                } else {
                    Err(offending(rest, close + 1))
                },
                Err(_) => Err(offending(rest, close + 1)),
            }
        }
    }
}

/// What an escape decodes to, and how many characters it takes, given the
/// characters `rest` that follow its backslash; or the offending text. The
/// Unicode form is part of the grammar only where `unicode` holds.
pub open spec fn escape_value(rest: Seq<char>, unicode: bool) -> Result<(char, nat), Seq<char>> {
    if rest.len() == 0 {
        Err(offending(rest, 0))
    } else if rest[0] == '"' || rest[0] == '\'' || rest[0] == '\\' {
        Ok((rest[0], 1))
    } else if rest[0] == 'n' {
        Ok(('\n', 1))
    } else if rest[0] == 't' {
        Ok(('\t', 1))
    } else if rest[0] == 'r' {
        Ok(('\r', 1))
    } else if rest[0] == '0' {
        Ok(('\0', 1))
    } else if rest[0] == 'x' {
        hex_escape(rest)
    } else if rest[0] == 'u' && unicode {
        unicode_escape(rest)
    } else {
        Err(offending(rest, 1))
    }
}

/// `c` is one of `0` to `7`.
pub fn is_ascii_octdigit(c: char) -> (r: bool)
    ensures
        r == is_digit(c, 8),
{
    c >= '0' && c <= '7'
}

/// The error for an escape that fails after `k` characters of
/// `chars[pos..]`.
fn invalid_escape(chars: &[char], pos: usize, k: usize) -> (e: Error)
    requires
        pos + k <= chars.len(),
    ensures
        e@ == ErrorView::InvalidEscape(offending(chars@.skip(pos as int), k as int)),
{
    let mut text = String::new();
    text.push('\\');
    let mut i: usize = 0;
    while i < k
        invariant
            i <= k,
            pos + k <= chars.len(),
            text@ == offending(chars@.skip(pos as int), i as int),
        decreases k - i,
    {
        text.push(chars[pos + i]);
        i = i + 1;
        assert(text@ =~= offending(chars@.skip(pos as int), i as int));
    }
    Error::InvalidEscape(text)
}

/// A closing brace is found at or after the place where the search starts,
/// and no brace stands before it.
pub proof fn lemma_closing_brace(s: Seq<char>, from: int)
    requires
        0 <= from <= s.len(),
    ensures
        from <= closing_brace(s, from) <= s.len(),
        closing_brace(s, from) < s.len() ==> s[closing_brace(s, from)] == '}',
        forall|i: int| from <= i < closing_brace(s, from) ==> s[i] != '}',
    decreases s.len() - from,
{
    if from < s.len() && s[from] != '}' {
        lemma_closing_brace(s, from + 1);
    }
}

/// An escape that decodes takes at least one character and no more than
/// there are.
pub proof fn lemma_escape_takes(rest: Seq<char>, unicode: bool)
    ensures
        escape_value(rest, unicode) matches Ok((_, n)) ==> 1 <= n <= rest.len(),
{
    if rest.len() >= 2 {
        lemma_closing_brace(rest, 2);
    }
}

/// Decodes the escape whose backslash stands just before `chars[pos]`: the
/// character it denotes and the position after it, or the offending text.
pub fn unescape(chars: &[char], pos: usize, unicode: bool) -> (r: Result<(char, usize), Error>)
    requires
        pos <= chars.len(),
    ensures
        match r {
            Ok((c, next)) => pos < next <= chars.len() && escape_value(
                chars@.skip(pos as int),
                unicode,
            ) == Ok::<(char, nat), Seq<char>>((c, (next - pos) as nat)),
            Err(e) => escape_value(chars@.skip(pos as int), unicode) is Err && e@
                == ErrorView::InvalidEscape(escape_value(chars@.skip(pos as int), unicode)->Err_0),
        },
{
    let ghost rest = chars@.skip(pos as int);
    let n: usize = chars.len();
    if pos >= n {
        return Err(invalid_escape(chars, pos, 0));
    }
    let c = chars[pos];
    assert(rest[0] == c);
    if c == '"' || c == '\'' || c == '\\' {
        Ok((c, pos + 1))
    } else if c == 'n' {
        Ok(('\n', pos + 1))
    } else if c == 't' {
        Ok(('\t', pos + 1))
    } else if c == 'r' {
        Ok(('\r', pos + 1))
    } else if c == '0' {
        Ok(('\0', pos + 1))
    } else if c == 'x' {
        if n - pos < 2 {
            return Err(invalid_escape(chars, pos, 1));
        }
        let n1 = chars[pos + 1];
        assert(rest[1] == n1);
        if !is_ascii_octdigit(n1) {
            return Err(invalid_escape(chars, pos, 2));
        }
        if n - pos < 3 {
            return Err(invalid_escape(chars, pos, 2));
        }
        let n2 = chars[pos + 2];
        assert(rest[2] == n2);
        let high = to_digit(n1, 8);
        match to_digit(n2, 16) {
            None => Err(invalid_escape(chars, pos, 3)),
            Some(low) => {
                let value: u32 = high.unwrap() * 16 + low;
                Ok(((value as u8) as char, pos + 3))
            },
        }
    } else if c == 'u' && unicode {
        if n - pos < 2 || chars[pos + 1] != '{' {
            assert(n - pos >= 2 ==> rest[1] == chars@[pos + 1]);
            return Err(invalid_escape(chars, pos, 1));
        }
        assert(rest[1] == chars@[pos + 1]);
        let mut close: usize = pos + 2;
        proof {
            lemma_closing_brace(rest, 2);
        }
        while close < n && chars[close] != '}'
            invariant
                pos + 2 <= close <= n == chars.len(),
                rest == chars@.skip(pos as int),
                closing_brace(rest, 2) == closing_brace(rest, close - pos),
            decreases n - close,
        {
            assert(rest[close - pos] == chars@[close as int]);
            close = close + 1;
        }
        proof {
            assert(close < n ==> rest[close - pos] == chars@[close as int]);
            assert(closing_brace(rest, 2) == close - pos);
            assert(rest.subrange(2, close - pos) =~= chars@.subrange(pos + 2, close as int));
        }
        if close >= n {
            return Err(invalid_escape(chars, pos, n - pos));
        }
        match accumulate_scalar(chars, pos + 2, close) {
            Some(ch) => Ok((ch, close + 1)),
            None => Err(invalid_escape(chars, pos, close + 1 - pos)),
        }
    } else {
        Err(invalid_escape(chars, pos, 1))
    }
}

/// The character whose scalar value `chars[from..to]` denotes in
/// hexadecimal, where it denotes one.
fn accumulate_scalar(chars: &[char], from: usize, to: usize) -> (r: Option<char>)
    requires
        from <= to <= chars.len(),
    ensures
        match radix_value(chars@.subrange(from as int, to as int), 16, u32::MAX as nat) {
            Ok(v) => if is_scalar_value(v) {
                r == Some((v as u32) as char)
            } else {
                r is None
            },
            Err(_) => r is None,
        },
{
    let ghost digits = chars@.subrange(from as int, to as int);
    let value = if from == to {
        return None;
    } else if to - from == 1 && (chars[from] == '+' || chars[from] == '-') {
        assert(digits[0] == chars@[from as int]);
        return None;
    } else if chars[from] == '+' {
        assert(digits[0] == chars@[from as int]);
        assert(digits.skip(1) =~= chars@.subrange(from + 1, to as int));
        accumulate_digits(chars, from + 1, to, 16, 0xFFFF_FFFF)
    } else {
        assert(digits[0] == chars@[from as int]);
        accumulate_digits(chars, from, to, 16, 0xFFFF_FFFF)
    };
    match value {
        Ok(v) => {
            let ch = char::from_u32(v as u32);
            proof {
                if ch is Some {
                    vstd::utf8::char_u32_cast(ch->0, v as u32);
                }
            }
            ch
        },
        Err(_) => None,
    }
}

/// `c` put before what `rest` decodes to.
pub open spec fn prepend(c: char, rest: Result<Seq<char>, Seq<char>>) -> Result<
    Seq<char>,
    Seq<char>,
> {
    match rest {
        Ok(t) => Ok(seq![c] + t),
        Err(e) => Err(e),
    }
}

/// What the body of a literal decodes to: each escape replaced by the
/// character it denotes, every other character kept; or the offending text of
/// the first escape that fails.
pub open spec fn decode_chars(body: Seq<char>, unicode: bool) -> Result<Seq<char>, Seq<char>>
    decreases body.len(),
    via decode_chars_decreases
{
    if body.len() == 0 {
        Ok(Seq::empty())
    } else if body[0] != '\\' {
        prepend(body[0], decode_chars(body.skip(1), unicode))
    } else {
        match escape_value(body.skip(1), unicode) {
            Ok((c, n)) => prepend(c, decode_chars(body.skip(1 + n as int), unicode)),
            Err(e) => Err(e),
        }
    }
}

#[via_fn]
proof fn decode_chars_decreases(body: Seq<char>, unicode: bool) {
    if body.len() > 0 {
        lemma_escape_takes(body.skip(1), unicode);
    }
}

/// What the first character or escape of the body of a literal decodes to.
pub open spec fn decode_first(body: Seq<char>, unicode: bool) -> Result<char, Seq<char>> {
    if body[0] != '\\' {
        Ok(body[0])
    } else {
        match escape_value(body.skip(1), unicode) {
            Ok((c, _)) => Ok(c),
            Err(e) => Err(e),
        }
    }
}

/// Each character as the byte of its low eight bits.
pub open spec fn narrow(chars: Seq<char>) -> Seq<u8> {
    Seq::new(chars.len(), |i: int| chars[i] as u8)
}

/// The value of a string literal: what stands between its first and its
/// last character, decoded.
pub open spec fn str_value(slice: Seq<char>) -> Result<Seq<char>, Seq<char>> {
    decode_chars(slice.subrange(1, slice.len() - 1), true)
}

/// The value of a character literal: the first character or escape after the
/// opening quote.
pub open spec fn char_value(slice: Seq<char>) -> Result<char, Seq<char>> {
    decode_first(slice.subrange(1, slice.len() - 1), true)
}

/// The value of a byte string literal: what stands between its two-byte
/// opening `b"` and its last byte, read byte by byte and decoded without the
/// Unicode escape.
pub open spec fn byte_str_value(bytes: Seq<u8>) -> Result<Seq<u8>, Seq<char>> {
    match decode_chars(widen(bytes.subrange(2, bytes.len() - 1)), false) {
        Ok(t) => Ok(narrow(t)),
        Err(e) => Err(e),
    }
}

/// The value of a byte literal: the first byte or escape after the opening
/// `b'`.
pub open spec fn byte_value(bytes: Seq<u8>) -> Result<u8, Seq<char>> {
    match decode_first(widen(bytes.subrange(2, bytes.len() - 1)), false) {
        Ok(c) => Ok(c as u8),
        Err(e) => Err(e),
    }
}

/// An executable result against a decoded value, a failure being an invalid
/// escape with the offending text.
pub open spec fn is_decoded<T, V>(r: Result<T, Error>, view: spec_fn(T) -> V, value: Result<
    V,
    Seq<char>,
>) -> bool {
    match r {
        Ok(t) => value == Ok::<V, Seq<char>>(view(t)),
        Err(e) => value is Err && e@ == ErrorView::InvalidEscape(value->Err_0),
    }
}

/// `acc` followed by what `rest` decodes to.
pub open spec fn extend(acc: Seq<char>, rest: Result<Seq<char>, Seq<char>>) -> Result<
    Seq<char>,
    Seq<char>,
> {
    match rest {
        Ok(t) => Ok(acc + t),
        Err(e) => Err(e),
    }
}

/// Decodes the body of a literal.
pub fn decode(body: &[char], unicode: bool) -> (r: Result<Vec<char>, Error>)
    ensures
        is_decoded(r, |v: Vec<char>| v@, decode_chars(body@, unicode)),
{
    let mut res: Vec<char> = Vec::new();
    let mut i: usize = 0;
    assert(body@.skip(0) =~= body@);
    while i < body.len()
        invariant
            i <= body.len(),
            decode_chars(body@, unicode) == extend(
                res@,
                decode_chars(body@.skip(i as int), unicode),
            ),
        decreases body.len() - i,
    {
        let ghost tail = body@.skip(i as int);
        let ghost before = res@;
        let c = body[i];
        assert(tail[0] == c);
        if c == '\\' {
            assert(tail.skip(1) =~= body@.skip(i + 1));
            match unescape(body, i + 1, unicode) {
                Err(e) => {
                    return Err(e);
                },
                Ok((d, next)) => {
                    res.push(d);
                    assert(tail.skip(1 + (next - (i + 1))) =~= body@.skip(next as int));
                    i = next;
                    assert(forall|t: Seq<char>| before + (seq![d] + t) =~= before.push(d) + t);
                },
            }
        } else {
            res.push(c);
            assert(tail.skip(1) =~= body@.skip(i + 1));
            i = i + 1;
            assert(forall|t: Seq<char>| before + (seq![c] + t) =~= before.push(c) + t);
        }
    }
    assert(res@ + Seq::<char>::empty() =~= res@);
    Ok(res)
}

/// Decodes the first character or escape of the body of a literal.
pub fn decode_one(body: &[char], unicode: bool) -> (r: Result<char, Error>)
    requires
        body.len() >= 1,
    ensures
        is_decoded(r, |c: char| c, decode_first(body@, unicode)),
{
    let c = body[0];
    if c == '\\' {
        match unescape(body, 1, unicode) {
            Ok((d, _)) => Ok(d),
            Err(e) => Err(e),
        }
    } else {
        Ok(c)
    }
}

/// Decodes a string literal: the text between its quotes, with each escape
/// replaced by the character it denotes.
pub fn parse_str(slice: &str) -> (r: Result<String, Error>)
    requires
        slice@.len() >= 2,
    ensures
        is_decoded(r, |s: String| s@, str_value(slice@)),
{
    let chars = chars_of(slice);
    let body = slice_subrange(chars.as_slice(), 1, chars.len() - 1);
    match decode(body, true) {
        Err(e) => Err(e),
        Ok(decoded) => {
            let mut res = String::new();
            let mut i: usize = 0;
            while i < decoded.len()
                invariant
                    i <= decoded.len(),
                    res@ == decoded@.take(i as int),
                decreases decoded.len() - i,
            {
                res.push(decoded[i]);
                i = i + 1;
                assert(res@ =~= decoded@.take(i as int));
            }
            assert(decoded@.take(i as int) =~= decoded@);
            Ok(res)
        },
    }
}

/// Decodes a character literal: the character or escape after its opening
/// quote.
pub fn parse_char(slice: &str) -> (r: Result<char, Error>)
    requires
        slice@.len() >= 3,
    ensures
        is_decoded(r, |c: char| c, char_value(slice@)),
{
    let chars = chars_of(slice);
    let body = slice_subrange(chars.as_slice(), 1, chars.len() - 1);
    decode_one(body, true)
}

/// Decodes a byte string literal: the bytes between `b"` and the closing
/// quote, with each escape replaced by the byte it denotes.
pub fn parse_byte_str(slice: &str) -> (r: Result<Vec<u8>, Error>)
    requires
        slice.spec_bytes().len() >= 3,
    ensures
        is_decoded(r, |v: Vec<u8>| v@, byte_str_value(slice.spec_bytes())),
{
    let bytes = slice.as_bytes();
    let chars = chars_of_bytes(slice_subrange(bytes, 2, bytes.len() - 1));
    match decode(chars.as_slice(), false) {
        Err(e) => Err(e),
        Ok(decoded) => {
            let mut res: Vec<u8> = Vec::new();
            let mut i: usize = 0;
            while i < decoded.len()
                invariant
                    i <= decoded.len(),
                    res@ == narrow(decoded@.take(i as int)),
                decreases decoded.len() - i,
            {
                res.push(#[verifier::truncate] (decoded[i] as u8));
                i = i + 1;
                assert(res@ =~= narrow(decoded@.take(i as int)));
            }
            assert(decoded@.take(i as int) =~= decoded@);
            Ok(res)
        },
    }
}

/// Decodes a byte literal: the byte or escape after its opening `b'`.
pub fn parse_byte(slice: &str) -> (r: Result<u8, Error>)
    requires
        slice.spec_bytes().len() >= 4,
    ensures
        is_decoded(r, |b: u8| b, byte_value(slice.spec_bytes())),
{
    let bytes = slice.as_bytes();
    let chars = chars_of_bytes(slice_subrange(bytes, 2, bytes.len() - 1));
    match decode_one(chars.as_slice(), false) {
        Ok(c) => Ok(#[verifier::truncate] (c as u8)),
        Err(e) => Err(e),
    }
}

/// The escaped form of a character: the quotes, the backslash, the line
/// feed, the tabulator, the carriage return and the null character behind a
/// backslash, any other character as it is.
pub open spec fn escaped(c: char) -> Seq<char> {
    if c == '"' || c == '\'' || c == '\\' {
        seq!['\\', c]
    } else if c == '\n' {
        seq!['\\', 'n']
    } else if c == '\t' {
        seq!['\\', 't']
    } else if c == '\r' {
        seq!['\\', 'r']
    } else if c == '\0' {
        seq!['\\', '0']
    } else {
        seq![c]
    }
}

/// The escaped form of a text: that of its characters, one after another.
pub open spec fn escaped_text(text: Seq<char>) -> Seq<char>
    decreases text.len(),
{
    if text.len() == 0 {
        Seq::empty()
    } else {
        escaped(text[0]) + escaped_text(text.skip(1))
    }
}

/// The escaped form of a character decodes to the character, whatever
/// follows it.
pub proof fn lemma_decode_escaped(c: char, tail: Seq<char>, unicode: bool)
    ensures
        decode_chars(escaped(c) + tail, unicode) == prepend(c, decode_chars(tail, unicode)),
        decode_first(escaped(c) + tail, unicode) == Ok::<char, Seq<char>>(c),
{
    let body = escaped(c) + tail;
    if escaped(c).len() == 2 {
        assert(body[0] == '\\');
        assert(body.skip(1)[0] == escaped(c)[1]);
        assert(body.skip(2) =~= tail);
    } else {
        assert(body[0] == c);
        assert(body.skip(1) =~= tail);
    }
}

/// The escaped form of a text decodes to the text.
pub proof fn lemma_decode_escaped_text(text: Seq<char>, unicode: bool)
    ensures
        decode_chars(escaped_text(text), unicode) == Ok::<Seq<char>, Seq<char>>(text),
    decreases text.len(),
{
    if text.len() > 0 {
        lemma_decode_escaped(text[0], escaped_text(text.skip(1)), unicode);
        lemma_decode_escaped_text(text.skip(1), unicode);
        assert(seq![text[0]] + text.skip(1) =~= text);
    } else {
        assert(text =~= Seq::<char>::empty());
    }
}

/// The escaped form of ASCII text is ASCII text.
pub proof fn lemma_escaped_ascii(text: Seq<char>)
    requires
        is_ascii_chars(text),
    ensures
        is_ascii_chars(escaped_text(text)),
    decreases text.len(),
{
    if text.len() > 0 {
        let head = escaped(text[0]);
        let tail = escaped_text(text.skip(1));
        assert(is_ascii_chars(text.skip(1))) by {
            assert forall|i: int| 0 <= i < text.skip(1).len() implies '\0' <= #[trigger] text.skip(
                1,
            )[i] <= '\u{7f}' by {
                assert(text.skip(1)[i] == text[i + 1]);
            }
        }
        lemma_escaped_ascii(text.skip(1));
        assert forall|i: int| 0 <= i < (head + tail).len() implies '\0' <= #[trigger] (head
            + tail)[i] <= '\u{7f}' by {
            assert('\0' <= text[0] <= '\u{7f}');
            if i >= head.len() {
                assert((head + tail)[i] == tail[i - head.len()]);
            }
        }
    }
}

/// Round trip of string and character literals: the escaped form of a text
/// between double quotes decodes to the text, and the escaped form of a
/// character between single quotes to the character.
pub proof fn lemma_text_round_trip(text: Seq<char>, c: char)
    ensures
        str_value(seq!['"'] + escaped_text(text) + seq!['"']) == Ok::<Seq<char>, Seq<char>>(text),
        char_value(seq!['\''] + escaped(c) + seq!['\'']) == Ok::<char, Seq<char>>(c),
{
    let s = seq!['"'] + escaped_text(text) + seq!['"'];
    assert(s.subrange(1, s.len() - 1) =~= escaped_text(text));
    lemma_decode_escaped_text(text, true);
    let q = seq!['\''] + escaped(c) + seq!['\''];
    assert(q.subrange(1, q.len() - 1) =~= escaped(c) + Seq::<char>::empty());
    lemma_decode_escaped(c, Seq::empty(), true);
}

/// Round trip of byte string and byte literals: the escaped form of ASCII
/// bytes between `b"` and a double quote decodes to the bytes, and the escaped
/// form of an ASCII byte between `b'` and a single quote to the byte.
pub proof fn lemma_bytes_round_trip(bytes: Seq<u8>, x: u8)
    requires
        forall|i: int| 0 <= i < bytes.len() ==> bytes[i] < 0x80,
        x < 0x80,
    ensures
        byte_str_value(
            seq!['b' as u8, '"' as u8] + narrow(escaped_text(widen(bytes))) + seq!['"' as u8],
        ) == Ok::<Seq<u8>, Seq<char>>(bytes),
        byte_value(
            seq!['b' as u8, '\'' as u8] + narrow(escaped(x as char)) + seq!['\'' as u8],
        ) == Ok::<u8, Seq<char>>(x),
{
    let text = widen(bytes);
    let body = escaped_text(text);
    let s = seq!['b' as u8, '"' as u8] + narrow(body) + seq!['"' as u8];
    assert(is_ascii_chars(text));
    lemma_escaped_ascii(text);
    assert(s.subrange(2, s.len() - 1) =~= narrow(body));
    assert(widen(narrow(body)) =~= body) by {
        assert forall|i: int| 0 <= i < body.len() implies widen(narrow(body))[i] == body[i] by {
            assert('\0' <= body[i] <= '\u{7f}');
        }
    }
    lemma_decode_escaped_text(text, false);
    assert(narrow(text) =~= bytes);
    let one = escaped(x as char);
    let q = seq!['b' as u8, '\'' as u8] + narrow(one) + seq!['\'' as u8];
    assert(q.subrange(2, q.len() - 1) =~= narrow(one));
    assert(widen(narrow(one)) =~= one + Seq::<char>::empty());
    lemma_decode_escaped(x as char, Seq::empty(), false);
}

} // verus!
