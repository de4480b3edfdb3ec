//! White space and comments between lexemes leave the tokens as they are.

use crate::lexer::{
    lemma_lexeme_at, lexeme_at, token_value, tokens_from, tokens_of, ErrorView, Scalar, Span,
    TokenView,
};
use crate::rules::{
    byte, char_end, fixed_text, in_radix, is_char_literal, is_comment, is_digits, is_float,
    is_float_at, is_identifier, is_identifier_at, is_lexeme, is_next_lexeme, is_plain,
    is_quoted, is_quoted_char, is_space, is_word, lemma_fixed_text, lemma_next_unique,
    lemma_rules_disjoint, priority,
};
use crate::scan::skip_space;
use vstd::prelude::*;
use vstd::utf8::{decode_utf8, encode_utf8};

verus! {

/// The bytes of `b1` from `lo` up to `hi` stand in `b2` as well, `by` bytes
/// further on.
pub open spec fn agree(b1: Seq<u8>, b2: Seq<u8>, lo: int, hi: int, by: int) -> bool {
    &&& 0 <= lo <= hi <= b1.len()
    &&& 0 <= lo + by
    &&& hi + by <= b2.len()
    &&& forall|i: int| lo <= i < hi ==> #[trigger] b1[i] == b2[i + by]
}

/// Where two sources agree, they agree the other way round.
pub proof fn lemma_agree_back(b1: Seq<u8>, b2: Seq<u8>, lo: int, hi: int, by: int)
    requires
        agree(b1, b2, lo, hi, by),
    ensures
        agree(b2, b1, lo + by, hi + by, -by),
{
    assert forall|j: int| lo + by <= j < hi + by implies #[trigger] b2[j] == b1[j + (-by)] by {
        assert(b1[j - by] == b2[j - by + by]);
    }
}

/// A run of digits is one wherever its bytes stand.
proof fn lemma_digits_move(b1: Seq<u8>, b2: Seq<u8>, lo: int, hi: int, by: int, radix: u32)
    requires
        agree(b1, b2, lo, hi, by),
        is_digits(b1, lo, hi, radix),
    ensures
        is_digits(b2, lo + by, hi + by, radix),
{
    assert(b1[lo] == b2[lo + by]);
    assert(b1[hi - 1] == b2[hi - 1 + by]);
    assert forall|j: int| lo + by <= j < hi + by implies in_radix(#[trigger] b2[j], radix) || b2[j]
        == byte('_') by {
        assert(b1[j - by] == b2[j - by + by]);
    }
    assert forall|j: int| lo + by <= j < hi + by - 1 implies !(#[trigger] b2[j] == byte('_') && b2[j
        + 1] == byte('_')) by {
        assert(b1[j - by] == b2[j - by + by]);
        assert(b1[j - by + 1] == b2[j - by + 1 + by]);
    }
}

/// A float is one wherever its bytes stand.
proof fn lemma_float_moves(b1: Seq<u8>, b2: Seq<u8>, lo: int, hi: int, by: int)
    requires
        agree(b1, b2, lo, hi, by),
        is_float(b1, lo, hi),
    ensures
        is_float(b2, lo + by, hi + by),
{
    let (dot, frac) = choose|dot: int, frac: int| is_float_at(b1, lo, dot, frac, hi);
    lemma_digits_move(b1, b2, lo, dot, by, 10);
    lemma_digits_move(b1, b2, dot + 1, frac, by, 10);
    assert(b1[dot] == b2[dot + by]);
    if frac != hi {
        assert(b1[frac] == b2[frac + by]);
        assert(b1[frac + 1] == b2[frac + 1 + by]);
        lemma_digits_move(b1, b2, frac + 2, hi, by, 10);
    }
    assert(is_float_at(b2, lo + by, dot + by, frac + by, hi + by));
}

/// Quoted text is quoted text wherever its bytes stand.
proof fn lemma_quoted_moves(b1: Seq<u8>, b2: Seq<u8>, lo: int, hi: int, by: int, ascii: bool)
    requires
        agree(b1, b2, lo, hi, by),
        is_quoted(b1, lo, hi, ascii),
    ensures
        is_quoted(b2, lo + by, hi + by, ascii),
{
    assert(b1[lo] == b2[lo + by]);
    assert(b1[hi - 1] == b2[hi - 1 + by]);
    assert forall|j: int| lo + by < j < hi + by - 1 implies {
        &&& (#[trigger] b2[j] == byte('"') ==> lo + by + 1 < j && b2[j - 1] == byte('\\'))
        &&& (ascii ==> b2[j] < 0x80)
    } by {
        assert(b1[j - by] == b2[j - by + by]);
        assert(b1[j - by - 1] == b2[j - by - 1 + by]);
    }
}

/// A character literal is one wherever its bytes stand.
proof fn lemma_char_moves(b1: Seq<u8>, b2: Seq<u8>, lo: int, hi: int, by: int, ascii: bool)
    requires
        agree(b1, b2, lo, hi, by),
        is_char_literal(b1, lo, hi, ascii),
    ensures
        is_char_literal(b2, lo + by, hi + by, ascii),
{
    assert(b1[lo] == b2[lo + by]);
    assert(b1[hi - 1] == b2[hi - 1 + by]);
    assert(b1[lo + 1] == b2[lo + 1 + by]);
    assert(b1[lo + 2] == b2[lo + 2 + by]);
    let from = lo + 1;
    let to = hi - 1;
    if to - from >= 3 {
        assert(b1[from + 2] == b2[from + 2 + by]);
    }
    if to - from >= 4 {
        assert(b1[from + 3] == b2[from + 3 + by]);
        assert(b1[to - 1] == b2[to - 1 + by]);
    }
    if is_plain(b1, from, to, ascii) {
        assert(is_plain(b2, from + by, to + by, ascii));
    } else if b1[from] == byte('\\') && is_plain(b1, from + 1, to, ascii) {
        assert(is_plain(b2, from + 1 + by, to + by, ascii));
    } else if !ascii && to - from >= 5 && b1[from + 1] == byte('u') {
        assert forall|j: int| from + by + 3 <= j < to + by - 1 implies in_radix(
            #[trigger] b2[j],
            16,
        ) by {
            assert(b1[j - by] == b2[j - by + by]);
        }
    }
    assert(is_quoted_char(b2, from + by, to + by, ascii));
}

/// An identifier is one wherever its bytes stand.
proof fn lemma_identifier_moves(b1: Seq<u8>, b2: Seq<u8>, lo: int, hi: int, by: int)
    requires
        agree(b1, b2, lo, hi, by),
        is_identifier(b1, lo, hi),
    ensures
        is_identifier(b2, lo + by, hi + by),
{
    let first = choose|first: int| is_identifier_at(b1, lo, first, hi);
    assert(b1[first] == b2[first + by]);
    assert forall|j: int| lo + by <= j < first + by implies #[trigger] b2[j] == byte('_') by {
        assert(b1[j - by] == b2[j - by + by]);
    }
    assert forall|j: int| first + by < j < hi + by implies is_word(#[trigger] b2[j]) by {
        assert(b1[j - by] == b2[j - by + by]);
    }
    assert(is_identifier_at(b2, lo + by, first + by, hi + by));
}

/// A comment is one wherever its bytes stand.
pub proof fn lemma_comment_moves(b1: Seq<u8>, b2: Seq<u8>, lo: int, hi: int, by: int)
    requires
        agree(b1, b2, lo, hi, by),
        is_comment(b1, lo, hi),
    ensures
        is_comment(b2, lo + by, hi + by),
        b2[hi + by - 1] == b1[hi - 1],
{
    assert(b1[lo] == b2[lo + by]);
    assert(b1[lo + 1] == b2[lo + 1 + by]);
    assert(b1[hi - 1] == b2[hi - 1 + by]);
    assert forall|j: int| lo + by + 2 <= j < hi + by - 1 implies #[trigger] b2[j] != byte('\n') by {
        assert(b1[j - by] == b2[j - by + by]);
    }
}

/// A rule that matches a stretch of bytes matches it wherever the bytes
/// stand: what a rule matches depends on nothing before or behind.
pub proof fn lemma_lexeme_moves(b1: Seq<u8>, b2: Seq<u8>, lo: int, hi: int, by: int, kind: Scalar)
    requires
        agree(b1, b2, lo, hi, by),
        is_lexeme(b1, lo, hi, kind),
    ensures
        is_lexeme(b2, lo + by, hi + by, kind),
{
    assert(b1[lo] == b2[lo + by]);
    match kind {
        Scalar::Comment => lemma_comment_moves(b1, b2, lo, hi, by),
        Scalar::IntegerLiteral => lemma_digits_move(b1, b2, lo, hi, by, 10),
        Scalar::HexIntegerLiteral => {
            assert(b1[lo + 1] == b2[lo + 1 + by]);
            lemma_digits_move(b1, b2, lo + 2, hi, by, 16);
        },
        Scalar::OctIntegerLiteral => {
            assert(b1[lo + 1] == b2[lo + 1 + by]);
            lemma_digits_move(b1, b2, lo + 2, hi, by, 8);
        },
        Scalar::BinIntegerLiteral => {
            assert(b1[lo + 1] == b2[lo + 1 + by]);
            lemma_digits_move(b1, b2, lo + 2, hi, by, 2);
        },
        Scalar::FloatLiteral => lemma_float_moves(b1, b2, lo, hi, by),
        Scalar::StringLiteral => lemma_quoted_moves(b1, b2, lo, hi, by, false),
        Scalar::CharLiteral => lemma_char_moves(b1, b2, lo, hi, by, false),
        Scalar::ByteStringLiteral => lemma_quoted_moves(b1, b2, lo + 1, hi, by, true),
        Scalar::ByteLiteral => lemma_char_moves(b1, b2, lo + 1, hi, by, true),
        Scalar::Identifier => lemma_identifier_moves(b1, b2, lo, hi, by),
        _ => {
            assert(b2.subrange(lo + by, hi + by) =~= b1.subrange(lo, hi)) by {
                assert forall|i: int| 0 <= i < hi - lo implies b2.subrange(lo + by, hi + by)[i]
                    == b1.subrange(lo, hi)[i] by {
                    assert(b1[lo + i] == b2[lo + i + by]);
                }
            }
        },
    }
}

/// The tokens and errors of a list, without their spans.
pub open spec fn values(out: Seq<(Result<TokenView, ErrorView>, Span)>) -> Seq<
    Result<TokenView, ErrorView>,
> {
    Seq::new(out.len(), |i: int| out[i].0)
}

/// White space is skipped to a place at or behind the start, within the
/// source, and all that is skipped is white space.
pub proof fn lemma_skip_space(b: Seq<u8>, pos: int)
    requires
        0 <= pos <= b.len(),
    ensures
        pos <= skip_space(b, pos) <= b.len(),
        forall|i: int| pos <= i < skip_space(b, pos) ==> is_space(#[trigger] b[i]),
        skip_space(b, pos) < b.len() ==> !is_space(b[skip_space(b, pos)]),
        skip_space(b, skip_space(b, pos)) == skip_space(b, pos),
    decreases b.len() - pos,
{
    if pos < b.len() && is_space(b[pos]) {
        lemma_skip_space(b, pos + 1);
    }
}

/// The scan goes on behind white space as if it began there.
pub proof fn lemma_space_skipped(b: Seq<u8>, pos: int)
    requires
        0 <= pos <= b.len(),
    ensures
        tokens_from(b, pos) == tokens_from(b, skip_space(b, pos)),
{
    lemma_skip_space(b, pos);
}

/// White space is skipped alike wherever the bytes behind a position stand.
proof fn lemma_skip_moves(b1: Seq<u8>, b2: Seq<u8>, pos: int, by: int)
    requires
        agree(b1, b2, pos, b1.len() as int, by),
        b1.len() + by == b2.len(),
    ensures
        skip_space(b2, pos + by) == skip_space(b1, pos) + by,
    decreases b1.len() - pos,
{
    if pos < b1.len() {
        assert(b1[pos] == b2[pos + by]);
        if is_space(b1[pos]) {
            lemma_skip_moves(b1, b2, pos + 1, by);
        }
    }
}

/// What maximal munch picks, it picks wherever the bytes behind a position
/// stand.
proof fn lemma_munch_moves(b1: Seq<u8>, b2: Seq<u8>, pos: int, by: int, end: int, kind: Scalar)
    requires
        agree(b1, b2, pos, b1.len() as int, by),
        b1.len() + by == b2.len(),
        pos < b1.len(),
        is_next_lexeme(b1, pos, end, kind),
    ensures
        is_next_lexeme(b2, pos + by, end + by, kind),
{
    lemma_agree_back(b1, b2, pos, b1.len() as int, by);
    assert(b1[pos] == b2[pos + by]);
    assert forall|k: Scalar, e: int| #[trigger] is_lexeme(b2, pos + by, e, k) implies is_lexeme(
        b1,
        pos,
        e - by,
        k,
    ) by {
        lemma_lexeme_moves(b2, b1, pos + by, e, -by, k);
    }
    if exists|k: Scalar, e: int| is_lexeme(b1, pos, e, k) {
        lemma_lexeme_moves(b1, b2, pos, end, by, kind);
        assert forall|k: Scalar, e: int| #[trigger] is_lexeme(b2, pos + by, e, k) implies e < end
            + by || (e == end + by && priority(k) <= priority(kind)) by {
            assert(is_lexeme(b1, pos, e - by, k));
        }
    } else {
        assert(char_end(b2, pos + by) == char_end(b1, pos) + by);
        assert forall|k: Scalar, e: int| !#[trigger] is_lexeme(b2, pos + by, e, k) by {
            if is_lexeme(b2, pos + by, e, k) {
                assert(is_lexeme(b1, pos, e - by, k));
            }
        }
    }
}

/// Maximal munch picks the same lexeme wherever the bytes behind a position
/// stand.
pub proof fn lemma_next_moves(b1: Seq<u8>, b2: Seq<u8>, pos: int, by: int)
    requires
        agree(b1, b2, pos, b1.len() as int, by),
        b1.len() + by == b2.len(),
        pos < b1.len(),
    ensures
        lexeme_at(b2, pos + by) == (lexeme_at(b1, pos).0, lexeme_at(b1, pos).1 + by),
{
    lemma_lexeme_at(b1, pos);
    lemma_lexeme_at(b2, pos + by);
    let (kind, end) = lexeme_at(b1, pos);
    lemma_munch_moves(b1, b2, pos, by, end, kind);
    lemma_next_unique(
        b2,
        pos + by,
        end + by,
        kind,
        lexeme_at(b2, pos + by).1,
        lexeme_at(b2, pos + by).0,
    );
}

/// The tokens and errors from a position on are the same wherever the bytes
/// behind the position stand.
pub proof fn lemma_tokens_move(b1: Seq<u8>, b2: Seq<u8>, pos: int, by: int)
    requires
        agree(b1, b2, pos, b1.len() as int, by),
        b1.len() + by == b2.len(),
    ensures
        values(tokens_from(b2, pos + by)) == values(tokens_from(b1, pos)),
    decreases b1.len() - pos,
{
    lemma_skip_space(b1, pos);
    lemma_skip_moves(b1, b2, pos, by);
    let start = skip_space(b1, pos);
    if start < b1.len() {
        lemma_lexeme_at(b1, start);
        lemma_next_moves(b1, b2, start, by);
        let (kind, end) = lexeme_at(b1, start);
        lemma_tokens_move(b1, b2, end, by);
        assert(b2.subrange(start + by, end + by) =~= b1.subrange(start, end)) by {
            assert forall|i: int| 0 <= i < end - start implies b2.subrange(start + by, end + by)[i]
                == b1.subrange(start, end)[i] by {
                assert(b1[start + i] == b2[start + i + by]);
            }
        }
        lemma_values_step(b1, pos);
        lemma_values_step(b2, pos + by);
    } else {
        assert(values(tokens_from(b2, pos + by)) =~= values(tokens_from(b1, pos)));
    }
}

/// The tokens and errors from a position on: what the first lexeme behind
/// the white space stands for, unless it is a comment, and then those behind
/// it.
pub proof fn lemma_values_step(b: Seq<u8>, pos: int)
    requires
        0 <= pos <= skip_space(b, pos) < b.len(),
    ensures
        ({
            let start = skip_space(b, pos);
            let (kind, end) = lexeme_at(b, start);
            values(tokens_from(b, pos)) == if kind == Scalar::Comment {
                values(tokens_from(b, end))
            } else {
                seq![token_value(kind, decode_utf8(b.subrange(start, end)))] + values(
                    tokens_from(b, end),
                )
            }
        }),
{
    let start = skip_space(b, pos);
    let (kind, end) = lexeme_at(b, start);
    if kind != Scalar::Comment {
        let first = token_value(kind, decode_utf8(b.subrange(start, end)));
        assert(values(tokens_from(b, pos)) =~= seq![first] + values(tokens_from(b, end)));
    }
}

/// `b[lo..hi]` is a gap: white space and comments that end with a line
/// feed, in any number and order.
pub open spec fn is_gap(b: Seq<u8>, lo: int, hi: int) -> bool
    decreases hi - lo,
{
    if lo >= hi {
        lo == hi
    } else if is_space(b[lo]) {
        is_gap(b, lo + 1, hi)
    } else {
        exists|end: int|
            lo < end <= hi && #[trigger] is_comment(b, lo, end) && b[end - 1] == byte('\n')
                && is_gap(b, end, hi)
    }
}

/// A comment that ends with a line feed is the lexeme that maximal munch
/// picks where it begins, whatever stands behind it.
pub proof fn lemma_comment_wins(b: Seq<u8>, lo: int, end: int)
    requires
        is_comment(b, lo, end),
        b[end - 1] == byte('\n'),
    ensures
        lexeme_at(b, lo) == (Scalar::Comment, end),
{
    assert(is_lexeme(b, lo, end, Scalar::Comment));
    assert forall|k: Scalar, e: int| #[trigger] is_lexeme(b, lo, e, k) implies e <= end by {
        match fixed_text(k) {
            Some(t) => {
                lemma_fixed_text(k);
                let sub = b.subrange(lo, e);
                assert(sub[0] == b[lo]);
                assert(encode_utf8(t)[0] == t[0] as u8);
                if t.len() >= 2 {
                    assert(sub[1] == b[lo + 1]);
                    assert(encode_utf8(t)[1] == t[1] as u8);
                }
                assert(sub.len() == e - lo);
            },
            None => {
                if k == Scalar::FloatLiteral {
                    let (dot, frac) = choose|dot: int, frac: int| is_float_at(b, lo, dot, frac, e);
                    assert(in_radix(b[lo], 10));
                } else if k == Scalar::Identifier {
                    let first = choose|first: int| is_identifier_at(b, lo, first, e);
                    if lo < first {
                        assert(b[lo] == byte('_'));
                    }
                } else if k == Scalar::Comment {
                    if e > end {
                        assert(b[end - 1] != byte('\n'));
                    }
                }
            },
        }
    }
    assert(is_next_lexeme(b, lo, end, Scalar::Comment));
    lemma_lexeme_at(b, lo);
    lemma_next_unique(b, lo, end, Scalar::Comment, lexeme_at(b, lo).1, lexeme_at(b, lo).0);
}

/// A gap yields nothing: the scan goes on behind it as if it began there.
pub proof fn lemma_gap_skipped(b: Seq<u8>, lo: int, hi: int)
    requires
        0 <= lo <= hi <= b.len(),
        is_gap(b, lo, hi),
    ensures
        tokens_from(b, lo) == tokens_from(b, hi),
    decreases hi - lo,
{
    if lo < hi {
        if is_space(b[lo]) {
            lemma_gap_skipped(b, lo + 1, hi);
            lemma_space_skipped(b, lo);
            lemma_space_skipped(b, lo + 1);
        } else {
            let end = choose|end: int|
                lo < end <= hi && #[trigger] is_comment(b, lo, end) && b[end - 1] == byte('\n')
                    && is_gap(b, end, hi);
            lemma_comment_wins(b, lo, end);
            lemma_gap_skipped(b, end, hi);
        }
    }
}

/// A gap is one wherever its bytes stand.
pub proof fn lemma_gap_moves(b1: Seq<u8>, b2: Seq<u8>, lo: int, hi: int, by: int)
    requires
        agree(b1, b2, lo, hi, by),
        is_gap(b1, lo, hi),
    ensures
        is_gap(b2, lo + by, hi + by),
    decreases hi - lo,
{
    if lo < hi {
        assert(b1[lo] == b2[lo + by]);
        if is_space(b1[lo]) {
            lemma_gap_moves(b1, b2, lo + 1, hi, by);
        } else {
            let end = choose|end: int|
                lo < end <= hi && #[trigger] is_comment(b1, lo, end) && b1[end - 1] == byte('\n')
                    && is_gap(b1, end, hi);
            lemma_comment_moves(b1, b2, lo, end, by);
            lemma_gap_moves(b1, b2, end, hi, by);
            assert(is_comment(b2, lo + by, end + by));
        }
    }
}

/// The scan of `b` that begins at `from` comes to `to`: a lexeme or white
/// space begins there, or the source ends there.
pub open spec fn reaches(b: Seq<u8>, from: int, to: int) -> bool
    decreases to - from,
{
    if from >= to {
        from == to
    } else if from < 0 || from >= b.len() {
        false
    } else if is_space(b[from]) {
        reaches(b, from + 1, to)
    } else if from < lexeme_at(b, from).1 <= to {
        reaches(b, lexeme_at(b, from).1, to)
    } else {
        false
    }
}

/// The source `b` with `gap` put in at the offset `at`.
pub open spec fn with_gap(b: Seq<u8>, at: int, gap: Seq<u8>) -> Seq<u8> {
    b.take(at) + gap + b.skip(at)
}

/// Where two sources agree up to `to`, and maximal munch picks in both a
/// lexeme at `pos` that ends at or before `to`, it picks the same one.
proof fn lemma_same_lexeme(b1: Seq<u8>, b2: Seq<u8>, pos: int, to: int)
    requires
        agree(b1, b2, 0, to, 0),
        0 <= pos < to,
        lexeme_at(b1, pos).1 <= to,
        lexeme_at(b2, pos).1 <= to,
    ensures
        lexeme_at(b1, pos) == lexeme_at(b2, pos),
{
    lemma_lexeme_at(b1, pos);
    lemma_lexeme_at(b2, pos);
    let (k1, e1) = lexeme_at(b1, pos);
    let (k2, e2) = lexeme_at(b2, pos);
    lemma_agree_back(b1, b2, 0, to, 0);
    assert(b1[pos] == b2[pos + 0]);
    if exists|k: Scalar, e: int| is_lexeme(b1, pos, e, k) {
        lemma_lexeme_moves(b1, b2, pos, e1, 0, k1);
        assert(is_lexeme(b2, pos, e1, k1));
        lemma_lexeme_moves(b2, b1, pos, e2, 0, k2);
        assert(is_lexeme(b1, pos, e2, k2));
        lemma_rules_disjoint(b1, pos, e1, k1, k2);
    } else {
        if exists|k: Scalar, e: int| is_lexeme(b2, pos, e, k) {
            lemma_lexeme_moves(b2, b1, pos, e2, 0, k2);
            assert(is_lexeme(b1, pos, e2, k2));
        }
    }
}

/// Transparency of white space and comments: a gap that is put in between
/// lexemes leaves the tokens and errors of the source as they are, spans
/// aside. The gap stands between lexemes where the scan comes to its place
/// both in the source without it and in the source with it: it splits no
/// lexeme, and it closes none that was open.
pub proof fn lemma_gap_transparent(b: Seq<u8>, gap: Seq<u8>, from: int, at: int)
    requires
        0 <= from <= at <= b.len(),
        is_gap(gap, 0, gap.len() as int),
        reaches(b, from, at),
        reaches(with_gap(b, at, gap), from, at),
    ensures
        values(tokens_from(with_gap(b, at, gap), from)) == values(tokens_from(b, from)),
    decreases at - from,
{
    let b2 = with_gap(b, at, gap);
    let n = gap.len() as int;
    if from == at {
        assert(agree(gap, b2, 0, n, at)) by {
            assert forall|i: int| 0 <= i < n implies #[trigger] gap[i] == b2[i + at] by {}
        }
        lemma_gap_moves(gap, b2, 0, n, at);
        lemma_gap_skipped(b2, at, at + n);
        assert(agree(b, b2, at, b.len() as int, n)) by {
            assert forall|i: int| at <= i < b.len() implies #[trigger] b[i] == b2[i + n] by {}
        }
        lemma_tokens_move(b, b2, at, n);
    } else {
        assert(agree(b, b2, 0, at, 0)) by {
            assert forall|i: int| 0 <= i < at implies #[trigger] b[i] == b2[i + 0] by {}
        }
        assert(b[from] == b2[from + 0]);
        if is_space(b[from]) {
            lemma_gap_transparent(b, gap, from + 1, at);
            lemma_space_skipped(b, from);
            lemma_space_skipped(b, from + 1);
            lemma_space_skipped(b2, from);
            lemma_space_skipped(b2, from + 1);
        } else {
            lemma_same_lexeme(b, b2, from, at);
            let (kind, end) = lexeme_at(b, from);
            lemma_gap_transparent(b, gap, end, at);
            assert(b2.subrange(from, end) =~= b.subrange(from, end)) by {
                assert forall|i: int| 0 <= i < end - from implies b2.subrange(from, end)[i]
                    == b.subrange(from, end)[i] by {
                    assert(b[from + i] == b2[from + i + 0]);
                }
            }
            lemma_values_step(b, from);
            lemma_values_step(b2, from);
        }
    }
}

/// Transparency of a gap at the start of a source: white space and comments
/// before the first lexeme leave the tokens and errors as they are, spans
/// aside.
pub proof fn lemma_leading_gap(b: Seq<u8>, gap: Seq<u8>)
    requires
        is_gap(gap, 0, gap.len() as int),
    ensures
        values(tokens_of(gap + b)) == values(tokens_of(b)),
{
    assert(with_gap(b, 0, gap) =~= gap + b);
    lemma_gap_transparent(b, gap, 0, 0);
}

/// The scan of a source comes to the end of the source.
pub proof fn lemma_reaches_end(b: Seq<u8>, from: int)
    requires
        0 <= from <= b.len(),
    ensures
        reaches(b, from, b.len() as int),
    decreases b.len() - from,
{
    if from < b.len() {
        if is_space(b[from]) {
            lemma_reaches_end(b, from + 1);
        } else {
            lemma_lexeme_at(b, from);
            lemma_reaches_end(b, lexeme_at(b, from).1);
        }
    }
}

/// Transparency of a gap at the end of a source: white space and comments
/// behind the last lexeme leave the tokens and errors as they are, spans
/// aside, where they close no lexeme that the end of the source left open.
pub proof fn lemma_trailing_gap(b: Seq<u8>, gap: Seq<u8>)
    requires
        is_gap(gap, 0, gap.len() as int),
        reaches(b + gap, 0, b.len() as int),
    ensures
        values(tokens_of(b + gap)) == values(tokens_of(b)),
{
    assert(with_gap(b, b.len() as int, gap) =~= b + gap);
    lemma_reaches_end(b, 0);
    lemma_gap_transparent(b, gap, 0, b.len() as int);
}

/// No token stands for a comment or for white space: none has the tag of a
/// comment or of an error, and each begins with a byte that is no white
/// space.
pub proof fn lemma_no_trivia(b: Seq<u8>, pos: int)
    requires
        0 <= pos,
        b.len() <= usize::MAX,
    ensures
        forall|i: int|
            0 <= i < tokens_from(b, pos).len() ==> {
                let item = #[trigger] tokens_from(b, pos)[i];
                &&& item.0 != Ok::<TokenView, ErrorView>(TokenView::Scalar(Scalar::Comment))
                &&& item.0 != Ok::<TokenView, ErrorView>(TokenView::Scalar(Scalar::Error))
                &&& pos <= item.1.start < b.len()
                &&& !is_space(b[item.1.start as int])
            },
    decreases b.len() - pos,
{
    let start = skip_space(b, pos);
    if pos <= start < b.len() {
        lemma_skip_space(b, pos);
        lemma_lexeme_at(b, start);
        let (kind, end) = lexeme_at(b, start);
        let rest = tokens_from(b, end);
        lemma_no_trivia(b, end);
        if kind != Scalar::Comment {
            let out = tokens_from(b, pos);
            assert forall|i: int| 0 <= i < out.len() implies {
                let item = #[trigger] out[i];
                &&& item.0 != Ok::<TokenView, ErrorView>(TokenView::Scalar(Scalar::Comment))
                &&& item.0 != Ok::<TokenView, ErrorView>(TokenView::Scalar(Scalar::Error))
                &&& pos <= item.1.start < b.len()
                &&& !is_space(b[item.1.start as int])
            } by {
                if i > 0 {
                    assert(out[i] == rest[i - 1]);
                }
            }
        }
    }
}

} // verus!
