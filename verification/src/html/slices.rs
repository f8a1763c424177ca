//! Borrowing a byte range of a string slice, and the facts about UTF-8
//! character boundaries that make such a range a string again.

use vstd::prelude::*;
use vstd::string::StringSliceAdditionalSpecFns;
use vstd::utf8::*;

verus! {

/// The characters encoded by the bytes `start..end` of `bytes`.
pub open spec fn span_text(bytes: Seq<u8>, start: int, end: int) -> Seq<char> {
    decode_utf8(bytes.subrange(start, end))
}

/// Both ends of `start..end` lie inside `bytes` and on character
/// boundaries.
pub open spec fn is_char_span(bytes: Seq<u8>, start: int, end: int) -> bool {
    &&& 0 <= start <= end <= bytes.len()
    &&& is_char_boundary(bytes, start)
    &&& is_char_boundary(bytes, end)
}

/// The position of a one-byte character is a character boundary.
pub proof fn lemma_boundary_at_ascii(bytes: Seq<u8>, i: int)
    requires
        valid_utf8(bytes),
        0 <= i < bytes.len(),
        bytes[i] < 0x80,
    ensures
        is_char_boundary(bytes, i),
{
    is_char_boundary_iff_not_is_continuation_byte(bytes, i);
}

/// The position right after a one-byte character is a character boundary.
pub proof fn lemma_boundary_after_ascii(bytes: Seq<u8>, i: int)
    requires
        valid_utf8(bytes),
        0 <= i < bytes.len(),
        bytes[i] < 0x80,
    ensures
        is_char_boundary(bytes, i + 1),
    decreases bytes.len(),
{
    let width = length_of_first_scalar(bytes);
    let rest = pop_first_scalar(bytes);
    if i < width {
        assert(i == 0);
        assert(width == 1);
        assert(is_char_boundary(rest, 0));
    } else {
        assert(rest[i - width] == bytes[i]);
        lemma_boundary_after_ascii(rest, i - width);
    }
}

/// A character span of valid UTF-8 is valid UTF-8, and a boundary of the
/// whole that lies inside the span is a boundary of the span.
pub proof fn lemma_char_span_valid(bytes: Seq<u8>, start: int, end: int)
    requires
        valid_utf8(bytes),
        is_char_span(bytes, start, end),
    ensures
        valid_utf8(bytes.subrange(start, end)),
        valid_utf8(bytes.subrange(0, end)),
        is_char_boundary(bytes.subrange(0, end), start),
{
    let head = bytes.subrange(0, end);
    valid_utf8_split(bytes, end);
    if start < end {
        is_char_boundary_iff_not_is_continuation_byte(bytes, start);
        is_char_boundary_iff_not_is_continuation_byte(head, start);
    } else {
        is_char_boundary_start_end_of_seq(head);
    }
    valid_utf8_split(head, start);
    assert(head.subrange(start, head.len() as int) =~= bytes.subrange(start, end));
}

/// A non-empty character span holds at least one character.
pub proof fn lemma_span_text_nonempty(bytes: Seq<u8>, start: int, end: int)
    requires
        valid_utf8(bytes),
        is_char_span(bytes, start, end),
        start < end,
    ensures
        span_text(bytes, start, end).len() > 0,
{
    lemma_char_span_valid(bytes, start, end);
}

/// The part of `s` between the byte offsets `from` and `to`, borrowed from
/// `s`.
pub(crate) fn slice<'a>(s: &'a str, from: usize, to: usize) -> (part: &'a str)
    requires
        is_char_span(s.spec_bytes(), from as int, to as int),
    ensures
        part.spec_bytes() == s.spec_bytes().subrange(from as int, to as int),
        part@ == span_text(s.spec_bytes(), from as int, to as int),
{
    proof {
        broadcast use {encode_utf8_valid_utf8, encode_utf8_decode_utf8};

        lemma_char_span_valid(s.spec_bytes(), from as int, to as int);
    }
    let (head, _) = s.split_at(to);
    let (_, part) = head.split_at(from);
    proof {
        broadcast use encode_utf8_decode_utf8;

        assert(head.spec_bytes().subrange(from as int, head.spec_bytes().len() as int)
            =~= s.spec_bytes().subrange(from as int, to as int));
        assert(decode_utf8(encode_utf8(part@)) == part@);
    }
    part
}

} // verus!
