//! Unsigned integers from their text in a radix.

use crate::lexer::{Error, ErrorView, IntegerError};
use crate::text::chars_of;
use vstd::prelude::*;
use vstd::string::StrSliceExecFns;

verus! {

/// The value of `c` as a digit: `0` to `9`, then the letters of either case
/// from `10` on. A character that is no digit in any radix has the value 36.
pub open spec fn digit_of(c: char) -> nat {
    let v = c as u32;
    if '0' as u32 <= v <= '9' as u32 {
        (v - '0' as u32) as nat
    } else if 'a' as u32 <= v <= 'z' as u32 {
        (v - 'a' as u32 + 10) as nat
    } else if 'A' as u32 <= v <= 'Z' as u32 {
        (v - 'A' as u32 + 10) as nat
    } else {
        36
    }
}

/// `c` is a digit of the radix.
pub open spec fn is_digit(c: char, radix: u32) -> bool {
    digit_of(c) < radix
}

/// The value of a run of digits read from the left, or the first thing that
/// is wrong with it: a character that is no digit of the radix, or a digit
/// that takes the value above `max`.
pub open spec fn accumulate(digits: Seq<char>, radix: u32, max: nat) -> Result<nat, IntegerError>
    decreases digits.len(),
{
    if digits.len() == 0 {
        Ok(0)
    } else {
        match accumulate(digits.drop_last(), radix, max) {
            Err(e) => Err(e),
            Ok(v) => if !is_digit(digits.last(), radix) {
                Err(IntegerError::InvalidDigit)
            } else if v * radix + digit_of(digits.last()) > max {
                Err(IntegerError::PosOverflow)
            } else {
                Ok((v * radix + digit_of(digits.last())) as nat)
            },
        }
    }
}

/// The unsigned integer that `text` denotes in the radix: digits, after an
/// optional `+`. Empty text and a sign without digits have no value.
pub open spec fn radix_value(text: Seq<char>, radix: u32, max: nat) -> Result<nat, IntegerError> {
    if text.len() == 0 {
        Err(IntegerError::Empty)
    } else if text.len() == 1 && (text[0] == '+' || text[0] == '-') {
        Err(IntegerError::InvalidDigit)
    } else if text[0] == '+' {
        accumulate(text.skip(1), radix, max)
    } else {
        accumulate(text, radix, max)
    }
}

/// `text` without its digit separators.
pub open spec fn strip_underscores(text: Seq<char>) -> Seq<char> {
    text.filter(|c: char| c != '_')
}

/// An executable result against the value that the text denotes.
pub open spec fn is_value(r: Result<u64, IntegerError>, value: Result<nat, IntegerError>) -> bool {
    match r {
        Ok(v) => value == Ok::<nat, IntegerError>(v as nat),
        Err(e) => value == Err::<nat, IntegerError>(e),
    }
}

/// An executable result against the value that the text of a literal
/// denotes, a failure being an invalid integer.
pub open spec fn is_integer(r: Result<u64, Error>, value: Result<nat, IntegerError>) -> bool {
    match r {
        Ok(v) => value == Ok::<nat, IntegerError>(v as nat),
        Err(e) => value is Err && e@ == ErrorView::InvalidInteger(value->Err_0),
    }
}

/// The value of `c` as a digit of the radix.
pub fn to_digit(c: char, radix: u32) -> (r: Option<u32>)
    requires
        2 <= radix <= 36,
    ensures
        r is Some <==> is_digit(c, radix),
        r matches Some(d) ==> d == digit_of(c),
{
    let v: u32 = c as u32;
    let d: u32 = if v >= '0' as u32 && v <= '9' as u32 {
        v - '0' as u32
    } else if v >= 'a' as u32 && v <= 'z' as u32 {
        v - 'a' as u32 + 10
    } else if v >= 'A' as u32 && v <= 'Z' as u32 {
        v - 'A' as u32 + 10
    } else {
        36
    };
    if d < radix {
        Some(d)
    } else {
        None
    }
}

/// Reads `chars[from..to]` as a run of digits of the radix.
pub fn accumulate_digits(chars: &[char], from: usize, to: usize, radix: u32, max: u64) -> (r:
    Result<u64, IntegerError>)
    requires
        2 <= radix <= 36,
        from <= to <= chars.len(),
    ensures
        is_value(r, accumulate(chars@.subrange(from as int, to as int), radix, max as nat)),
{
    let ghost digits = chars@.subrange(from as int, to as int);
    let mut acc: u64 = 0;
    let mut i: usize = from;
    while i < to
        invariant
            2 <= radix <= 36,
            from <= i <= to <= chars.len(),
            digits == chars@.subrange(from as int, to as int),
            accumulate(digits.take(i - from), radix, max as nat) == Ok::<nat, IntegerError>(
                acc as nat,
            ),
            acc <= max,
        decreases to - i,
    {
        proof {
            assert(digits.take(i - from + 1).drop_last() =~= digits.take(i - from));
            assert(digits.take(i - from + 1).last() == chars@[i as int]);
        }
        match to_digit(chars[i], radix) {
            None => {
                proof {
                    lemma_accumulate_prefix(digits, i - from + 1, radix, max as nat);
                }
                return Err(IntegerError::InvalidDigit);
            },
            Some(d) => {
                assert(acc * radix + d <= u64::MAX * 36 + 36) by (nonlinear_arith)
                    requires
                        acc <= u64::MAX,
                        radix <= 36,
                        d < 36,
                ;
                let wide: u128 = (acc as u128) * (radix as u128) + (d as u128);
                if wide > max as u128 {
                    proof {
                        lemma_accumulate_prefix(digits, i - from + 1, radix, max as nat);
                    }
                    return Err(IntegerError::PosOverflow);
                }
                acc = wide as u64;
            },
        }
        i = i + 1;
    }
    assert(digits.take(to - from) =~= digits);
    Ok(acc)
}

/// A failure in a prefix of a run of digits is the failure of the whole run.
pub proof fn lemma_accumulate_prefix(digits: Seq<char>, n: int, radix: u32, max: nat)
    requires
        0 <= n <= digits.len(),
        accumulate(digits.take(n), radix, max) is Err,
    ensures
        accumulate(digits, radix, max) == accumulate(digits.take(n), radix, max),
    decreases digits.len() - n,
{
    if n < digits.len() {
        assert(digits.take(n + 1).drop_last() =~= digits.take(n));
        lemma_accumulate_prefix(digits, n + 1, radix, max);
    } else {
        assert(digits.take(n) =~= digits);
    }
}

/// Reads `text` as an unsigned integer of the radix that is at most `max`.
pub fn parse_radix(text: &str, radix: u32, max: u64) -> (r: Result<u64, IntegerError>)
    requires
        2 <= radix <= 36,
    ensures
        is_value(r, radix_value(text@, radix, max as nat)),
{
    let chars = chars_of(text);
    let n: usize = chars.len();
    if n == 0 {
        Err(IntegerError::Empty)
    } else if n == 1 && (chars[0] == '+' || chars[0] == '-') {
        Err(IntegerError::InvalidDigit)
    } else if chars[0] == '+' {
        assert(chars@.subrange(1, n as int) =~= text@.skip(1));
        accumulate_digits(chars.as_slice(), 1, n, radix, max)
    } else {
        assert(chars@.subrange(0, n as int) =~= text@);
        accumulate_digits(chars.as_slice(), 0, n, radix, max)
    }
}

/// Removes the digit separators from `slice`.
pub fn filter_underscores(slice: &str) -> (r: String)
    ensures
        r@ == strip_underscores(slice@),
{
    let chars = chars_of(slice);
    let mut r = String::new();
    let mut i: usize = 0;
    proof {
        reveal(Seq::filter);
    }
    while i < chars.len()
        invariant
            i <= chars.len(),
            r@ == strip_underscores(chars@.take(i as int)),
        decreases chars.len() - i,
    {
        proof {
            reveal(Seq::filter);
            assert(chars@.take(i + 1).drop_last() =~= chars@.take(i as int));
        }
        if chars[i] != '_' {
            r.push(chars[i]);
        }
        i = i + 1;
    }
    assert(chars@.take(i as int) =~= chars@);
    r
}

/// The error of an integer literal whose text has no value.
fn invalid(r: Result<u64, IntegerError>) -> (e: Result<u64, Error>)
    ensures
        forall|value: Result<nat, IntegerError>| is_value(r, value) ==> is_integer(e, value),
{
    match r {
        Ok(v) => Ok(v),
        Err(k) => Err(Error::InvalidInteger(k)),
    }
}

/// The value of a decimal integer literal.
pub open spec fn int_value(slice: Seq<char>) -> Result<nat, IntegerError> {
    radix_value(strip_underscores(slice), 10, u64::MAX as nat)
}

/// The value of an integer literal that begins with a two-character radix
/// prefix, such as `0x`.
pub open spec fn prefixed_int_value(slice: Seq<char>, radix: u32) -> Result<nat, IntegerError> {
    radix_value(strip_underscores(slice.skip(2)), radix, u64::MAX as nat)
}

/// Decodes a decimal integer literal, which may hold digit separators.
pub fn parse_int(slice: &str) -> (r: Result<u64, Error>)
    ensures
        is_integer(r, int_value(slice@)),
{
    let digits = filter_underscores(slice);
    invalid(parse_radix(digits.as_str(), 10, u64::MAX))
}

/// The digits of a literal after its two-character radix prefix, read in the
/// radix.
fn parse_prefixed(slice: &str, radix: u32) -> (r: Result<u64, Error>)
    requires
        slice@.len() >= 2,
        2 <= radix <= 36,
    ensures
        is_integer(r, prefixed_int_value(slice@, radix)),
{
    let rest = slice.substring_char(2, slice.unicode_len());
    assert(rest@ =~= slice@.skip(2));
    let digits = filter_underscores(rest);
    invalid(parse_radix(digits.as_str(), radix, u64::MAX))
}

/// Decodes a hexadecimal integer literal: `0x`, then digits and separators.
pub fn parse_hex_int(slice: &str) -> (r: Result<u64, Error>)
    requires
        slice@.len() >= 2,
    ensures
        is_integer(r, prefixed_int_value(slice@, 16)),
{
    parse_prefixed(slice, 16)
}

/// Decodes an octal integer literal: `0o`, then digits and separators.
pub fn parse_oct_int(slice: &str) -> (r: Result<u64, Error>)
    requires
        slice@.len() >= 2,
    ensures
        is_integer(r, prefixed_int_value(slice@, 8)),
{
    parse_prefixed(slice, 8)
}

/// Decodes a binary integer literal: `0b`, then digits and separators.
pub fn parse_bin_int(slice: &str) -> (r: Result<u64, Error>)
    requires
        slice@.len() >= 2,
    ensures
        is_integer(r, prefixed_int_value(slice@, 2)),
{
    parse_prefixed(slice, 2)
}

/// The character of the digit `d`: `0` to `9`, then the lower-case letters.
pub open spec fn digit_char(d: nat) -> char {
    if d < 10 {
        ('0' as u32 + d) as char
    } else {
        ('a' as u32 + d - 10) as char
    }
}

/// The digits of `n` in the radix, without leading zeros.
pub open spec fn render(n: nat, radix: u32) -> Seq<char>
    decreases n,
    via render_decreases
{
    if n < radix || radix < 2 {
        seq![digit_char(n)]
    } else {
        render(n / (radix as nat), radix).push(digit_char(n % (radix as nat)))
    }
}

#[via_fn]
proof fn render_decreases(n: nat, radix: u32) {
    if !(n < radix || radix < 2) {
        assert(n / (radix as nat) < n) by (nonlinear_arith)
            requires
                radix >= 2,
                n >= radix,
        ;
    }
}

/// Text without separators stays as it is when the separators are removed.
pub proof fn lemma_strip_nothing(text: Seq<char>)
    requires
        forall|i: int| 0 <= i < text.len() ==> text[i] != '_',
    ensures
        strip_underscores(text) == text,
    decreases text.len(),
{
    reveal(Seq::filter);
    if text.len() > 0 {
        lemma_strip_nothing(text.drop_last());
        assert(text.drop_last().push(text.last()) =~= text);
    }
}

/// The digits of a number are digits of the radix, and read back as the
/// number.
pub proof fn lemma_render(n: nat, radix: u32, max: nat)
    requires
        2 <= radix <= 36,
        n <= max,
    ensures
        render(n, radix).len() >= 1,
        forall|i: int|
            0 <= i < render(n, radix).len() ==> is_digit(#[trigger] render(n, radix)[i], radix),
        accumulate(render(n, radix), radix, max) == Ok::<nat, IntegerError>(n),
    decreases n,
{
    let r = radix as nat;
    let text = render(n, radix);
    if n < r {
        assert(digit_of(digit_char(n)) == n);
        assert(text =~= seq![digit_char(n)]);
        assert(text.last() == digit_char(n));
        assert(text.drop_last() =~= Seq::<char>::empty());
        assert(accumulate(text.drop_last(), radix, max) == Ok::<nat, IntegerError>(0));
        assert(0 * radix + n == n);
    } else {
        let q = n / r;
        let d = n % r;
        assert(q < n && q * r + d == n && d < r) by (nonlinear_arith)
            requires
                q == n / r,
                d == n % r,
                r >= 2,
                n >= r,
        ;
        lemma_render(q, radix, max);
        assert(digit_of(digit_char(d)) == d);
        assert(text =~= render(q, radix).push(digit_char(d)));
        assert(text.drop_last() =~= render(q, radix));
        assert(text.last() == digit_char(d));
        assert(q * radix + d == n);
    }
}

/// Round trip of integer literals: the digits of a 64-bit number in base
/// ten, and its digits in base sixteen, eight or two behind the prefix of that
/// base, decode to the number.
pub proof fn lemma_integer_round_trip(n: u64)
    ensures
        int_value(render(n as nat, 10)) == Ok::<nat, IntegerError>(n as nat),
        prefixed_int_value(seq!['0', 'x'] + render(n as nat, 16), 16) == Ok::<nat, IntegerError>(
            n as nat,
        ),
        prefixed_int_value(seq!['0', 'o'] + render(n as nat, 8), 8) == Ok::<nat, IntegerError>(
            n as nat,
        ),
        prefixed_int_value(seq!['0', 'b'] + render(n as nat, 2), 2) == Ok::<nat, IntegerError>(
            n as nat,
        ),
{
    lemma_rendered_value(n as nat, 10);
    lemma_rendered_value(n as nat, 16);
    lemma_rendered_value(n as nat, 8);
    lemma_rendered_value(n as nat, 2);
    assert((seq!['0', 'x'] + render(n as nat, 16)).skip(2) =~= render(n as nat, 16));
    assert((seq!['0', 'o'] + render(n as nat, 8)).skip(2) =~= render(n as nat, 8));
    assert((seq!['0', 'b'] + render(n as nat, 2)).skip(2) =~= render(n as nat, 2));
}

/// The digits of a 64-bit number, taken as the text of a literal, denote the
/// number.
pub proof fn lemma_rendered_value(n: nat, radix: u32)
    requires
        2 <= radix <= 36,
        n <= u64::MAX,
    ensures
        radix_value(strip_underscores(render(n, radix)), radix, u64::MAX as nat) == Ok::<
            nat,
            IntegerError,
        >(n),
{
    let text = render(n, radix);
    lemma_render(n, radix, u64::MAX as nat);
    assert forall|i: int| 0 <= i < text.len() implies text[i] != '_' && text[i] != '+' && text[i]
        != '-' by {
        assert(is_digit(text[i], radix));
    }
    lemma_strip_nothing(text);
}

} // verus!
