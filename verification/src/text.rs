//! Text as characters and as bytes: the characters of a string slice, parts
//! of a string slice between boundaries of characters, and what well-formed
//! UTF-8 tells of those boundaries.

use vstd::prelude::*;
use vstd::string::StringSliceAdditionalSpecFns;
use vstd::utf8::{
    decode_utf8, decode_utf8_split, encode_utf8_valid_utf8, is_char_boundary,
    is_char_boundary_iff_not_is_continuation_byte, is_char_boundary_start_end_of_seq,
    length_of_first_scalar, pop_first_scalar, valid_first_scalar, valid_utf8, valid_utf8_split,
};

verus! {

/// `String::push` appends one character to the string.
pub assume_specification[ std::string::String::push ](s: &mut std::string::String, ch: char)
    ensures
        final(s)@ == old(s)@.push(ch),
;

/// `char::from_u32` gives the character with the scalar value `i`, and
/// `None` where `i` is a surrogate or lies above `0x10FFFF`.
pub assume_specification[ char::from_u32 ](i: u32) -> (r: Option<char>)
    ensures
        r is Some <==> (i <= 0xD7FF || 0xE000 <= i <= 0x10FFFF),
        r matches Some(c) ==> c as u32 == i,
;

/// The characters of `s`, in order.
pub fn chars_of(s: &str) -> (v: Vec<char>)
    ensures
        v@ == s@,
{
    let mut v: Vec<char> = Vec::new();
    let it = s.chars();
    for c in iter: it
        invariant
            v@ == iter.seq().take(iter.index() as int),
    {
        v.push(c);
    }
    v
}

/// Each byte of `bytes` as the character with that scalar value.
pub open spec fn widen(bytes: Seq<u8>) -> Seq<char> {
    Seq::new(bytes.len(), |i: int| bytes[i] as char)
}

/// The bytes of `bytes`, each as the character with that scalar value.
pub fn chars_of_bytes(bytes: &[u8]) -> (v: Vec<char>)
    ensures
        v@ == widen(bytes@),
{
    let mut v: Vec<char> = Vec::new();
    let mut i: usize = 0;
    while i < bytes.len()
        invariant
            i <= bytes.len(),
            v@ == widen(bytes@.take(i as int)),
        decreases bytes.len() - i,
    {
        v.push(bytes[i] as char);
        i = i + 1;
        assert(v@ =~= widen(bytes@.take(i as int)));
    }
    assert(bytes@.take(i as int) =~= bytes@);
    v
}

/// The number of bytes in the encoding of the character whose first byte is
/// `lead`.
pub open spec fn char_width(lead: u8) -> int {
    if lead < 0x80 {
        1
    } else if lead < 0xE0 {
        2
    } else if lead < 0xF0 {
        3
    } else {
        4
    }
}

/// In well-formed text the character that begins at a boundary lies within
/// the text, and a boundary follows it.
pub proof fn lemma_next_boundary(b: Seq<u8>, pos: int)
    requires
        valid_utf8(b),
        is_char_boundary(b, pos),
        0 <= pos < b.len(),
    ensures
        pos + char_width(b[pos]) <= b.len(),
        is_char_boundary(b, pos + char_width(b[pos])),
{
    let n = b.len() as int;
    let tail = b.subrange(pos, n);
    valid_utf8_split(b, pos);
    assert(tail[0] == b[pos]);
    assert(valid_first_scalar(tail));
    let w = length_of_first_scalar(tail);
    assert(w == char_width(b[pos]));
    let rest = pop_first_scalar(tail);
    assert(rest =~= b.subrange(pos + w, n));
    if pos + w < n {
        reveal_with_fuel(valid_utf8, 2);
        assert(rest.len() > 0);
        assert(valid_utf8(rest));
        assert(valid_first_scalar(rest));
        assert(rest[0] == b[pos + w]);
        is_char_boundary_iff_not_is_continuation_byte(b, pos + w);
    } else {
        is_char_boundary_start_end_of_seq(b);
    }
}

/// In well-formed text a boundary stands before and after an ASCII byte.
pub proof fn lemma_ascii_boundary(b: Seq<u8>, i: int)
    requires
        valid_utf8(b),
        0 <= i < b.len(),
        b[i] < 0x80,
    ensures
        is_char_boundary(b, i),
        is_char_boundary(b, i + 1),
{
    is_char_boundary_iff_not_is_continuation_byte(b, i);
    lemma_next_boundary(b, i);
}

/// The part of well-formed text between two boundaries is well-formed text.
pub proof fn lemma_valid_between(b: Seq<u8>, lo: int, hi: int)
    requires
        valid_utf8(b),
        0 <= lo <= hi <= b.len(),
        is_char_boundary(b, lo),
        is_char_boundary(b, hi),
    ensures
        valid_utf8(b.subrange(0, hi)),
        is_char_boundary(b.subrange(0, hi), lo),
        valid_utf8(b.subrange(lo, hi)),
{
    let head = b.subrange(0, hi);
    valid_utf8_split(b, hi);
    if lo < hi {
        is_char_boundary_iff_not_is_continuation_byte(b, lo);
        assert(head[lo] == b[lo]);
        is_char_boundary_iff_not_is_continuation_byte(head, lo);
    } else {
        is_char_boundary_start_end_of_seq(head);
    }
    valid_utf8_split(head, lo);
    assert(head.subrange(lo, hi) =~= b.subrange(lo, hi));
}

/// The part of `source` between the byte offsets `lo` and `hi`, which are
/// boundaries of characters.
pub fn substring<'a>(source: &'a str, lo: usize, hi: usize) -> (part: &'a str)
    requires
        lo <= hi <= source.spec_bytes().len(),
        is_char_boundary(source.spec_bytes(), lo as int),
        is_char_boundary(source.spec_bytes(), hi as int),
    ensures
        part.spec_bytes() == source.spec_bytes().subrange(lo as int, hi as int),
{
    proof {
        encode_utf8_valid_utf8(source@);
        lemma_valid_between(source.spec_bytes(), lo as int, hi as int);
    }
    let (head, _) = source.split_at(hi);
    let (_, part) = head.split_at(lo);
    assert(part.spec_bytes() =~= source.spec_bytes().subrange(lo as int, hi as int));
    part
}

/// Well-formed text that is not empty holds a character.
pub proof fn lemma_decoded_some(s: Seq<u8>)
    requires
        valid_utf8(s),
        s.len() > 0,
    ensures
        decode_utf8(s).len() >= 1,
{
}

/// Well-formed text that begins with an ASCII byte holds one character more
/// than the text after that byte, which is well formed.
pub proof fn lemma_decoded_head(s: Seq<u8>)
    requires
        valid_utf8(s),
        s.len() > 0,
        s[0] < 0x80,
    ensures
        valid_utf8(s.subrange(1, s.len() as int)),
        decode_utf8(s).len() == 1 + decode_utf8(s.subrange(1, s.len() as int)).len(),
{
}

/// Well-formed text that ends with an ASCII byte holds one character more
/// than the text before that byte, which is well formed.
pub proof fn lemma_decoded_last(s: Seq<u8>)
    requires
        valid_utf8(s),
        s.len() > 0,
        s[s.len() - 1] < 0x80,
    ensures
        valid_utf8(s.subrange(0, s.len() - 1)),
        decode_utf8(s).len() == decode_utf8(s.subrange(0, s.len() - 1)).len() + 1,
{
    let n = s.len() as int;
    lemma_ascii_boundary(s, n - 1);
    valid_utf8_split(s, n - 1);
    decode_utf8_split(s, n - 1);
    let last = s.subrange(n - 1, n);
    lemma_decoded_head(last);
    assert(last.subrange(1, 1) =~= Seq::<u8>::empty());
}

} // verus!
