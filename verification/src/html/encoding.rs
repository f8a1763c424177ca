//! Facts about the UTF-8 encoding of a text that is put together from
//! parts: which bytes it holds, and where each part lies in it.

use vstd::prelude::*;
use vstd::utf8::*;

verus! {

/// Two characters are the same exactly if their numbers are.
pub proof fn lemma_char_number(c: char, d: char)
    ensures
        (c as u32 == d as u32) == (c == d),
{
}

/// A character below 128 is encoded as the one byte of its number; any
/// other character is encoded as bytes from 128 up.
pub proof fn lemma_encode_char(c: char)
    ensures
        (c as u32) < 0x80 ==> encode_scalar(c as u32) == seq![c as u8] && c as u8 == c as u32,
        (c as u32) >= 0x80 ==> forall|i: int|
            0 <= i < encode_scalar(c as u32).len() ==> #[trigger] encode_scalar(c as u32)[i]
                >= 0x80,
        1 <= encode_scalar(c as u32).len() <= 4,
{
    let v = c as u32;
    assert(v <= 0x7f ==> leading_byte_width_1(v) == v as u8) by (bit_vector);
    assert(leading_byte_width_2(v) >= 0x80) by (bit_vector);
    assert(leading_byte_width_3(v) >= 0x80) by (bit_vector);
    assert(leading_byte_width_4(v) >= 0x80) by (bit_vector);
    assert(last_continuation_byte(v) >= 0x80) by (bit_vector);
    assert(second_last_continuation_byte(v) >= 0x80) by (bit_vector);
    assert(third_last_continuation_byte(v) >= 0x80) by (bit_vector);
}

/// The encoding of two texts put together is the two encodings put
/// together.
pub proof fn lemma_encode_concat(a: Seq<char>, b: Seq<char>)
    ensures
        encode_utf8(a + b) == encode_utf8(a) + encode_utf8(b),
    decreases a.len(),
{
    if a.len() == 0 {
        assert(a + b =~= b);
        assert(encode_utf8(a) + encode_utf8(b) =~= encode_utf8(b));
    } else {
        lemma_encode_concat(a.drop_first(), b);
        assert((a + b).drop_first() =~= a.drop_first() + b);
        assert(encode_utf8(a + b) =~= encode_utf8(a) + encode_utf8(b));
    }
}

/// The encoding of one character.
pub proof fn lemma_encode_one(c: char)
    ensures
        encode_utf8(seq![c]) == encode_scalar(c as u32),
{
    assert(seq![c][0] == c);
    assert(seq![c].drop_first() =~= Seq::<char>::empty());
    assert(encode_utf8(Seq::<char>::empty()) =~= Seq::<u8>::empty());
    assert(encode_utf8(seq![c]) =~= encode_scalar(c as u32) + Seq::<u8>::empty());
}

/// A one-character text of a character below 128 is encoded as that one
/// byte.
pub proof fn lemma_encode_ascii_char(c: char)
    requires
        (c as u32) < 0x80,
    ensures
        encode_utf8(seq![c]) == seq![c as u8],
{
    lemma_encode_char(c);
    lemma_encode_one(c);
}

/// A byte below 128 stands in the encoding of a text only where the
/// text holds the character of that number.
pub proof fn lemma_ascii_byte_is_char(text: Seq<char>, i: int)
    requires
        0 <= i < encode_utf8(text).len(),
        encode_utf8(text)[i] < 0x80,
    ensures
        exists|j: int| 0 <= j < text.len() && #[trigger] text[j] as u32 == encode_utf8(text)[i],
    decreases text.len(),
{
    let first = encode_scalar(text[0] as u32);
    let rest = text.drop_first();
    lemma_encode_char(text[0]);
    if i < first.len() {
        assert(encode_utf8(text)[i] == first[i]);
        assert(text[0] as u32 == encode_utf8(text)[i]);
    } else {
        assert(encode_utf8(text)[i] == encode_utf8(rest)[i - first.len()]);
        lemma_ascii_byte_is_char(rest, i - first.len());
        let j = choose|j: int|
            0 <= j < rest.len() && #[trigger] rest[j] as u32 == encode_utf8(rest)[i - first.len()];
        assert(text[j + 1] == rest[j]);
    }
}

/// The first byte of the encoding of a text is the number of the first
/// character if that is below 128, and is 128 or more if not.
pub proof fn lemma_first_byte(text: Seq<char>)
    requires
        text.len() > 0,
    ensures
        encode_utf8(text).len() > 0,
        (text[0] as u32) < 0x80 ==> encode_utf8(text)[0] == text[0] as u32,
        (text[0] as u32) >= 0x80 ==> encode_utf8(text)[0] >= 0x80,
{
    lemma_encode_char(text[0]);
    assert(encode_utf8(text)[0] == encode_scalar(text[0] as u32)[0]);
}

/// The encoding of a text of at least one character has at least one
/// byte.
pub proof fn lemma_encode_nonempty(text: Seq<char>)
    requires
        text.len() > 0,
    ensures
        encode_utf8(text).len() > 0,
{
    lemma_first_byte(text);
}

/// Decoding two valid encodings put together gives the two texts put
/// together.
pub proof fn lemma_decode_concat(a: Seq<u8>, b: Seq<u8>)
    requires
        valid_utf8(a),
        valid_utf8(b),
    ensures
        valid_utf8(a + b),
        decode_utf8(a + b) == decode_utf8(a) + decode_utf8(b),
{
    decode_utf8_encode_utf8(a);
    decode_utf8_encode_utf8(b);
    lemma_encode_concat(decode_utf8(a), decode_utf8(b));
    encode_utf8_decode_utf8(decode_utf8(a) + decode_utf8(b));
    encode_utf8_valid_utf8(decode_utf8(a) + decode_utf8(b));
}

/// A text without the character of a number below 128 is encoded
/// without the byte of that number.
pub proof fn lemma_encoding_lacks_byte(text: Seq<char>, byte: u8)
    requires
        byte < 0x80,
        forall|j: int| 0 <= j < text.len() ==> #[trigger] text[j] as u32 != byte,
    ensures
        forall|i: int| 0 <= i < encode_utf8(text).len() ==> #[trigger] encode_utf8(text)[i] != byte,
{
    assert forall|i: int| 0 <= i < encode_utf8(text).len() implies #[trigger] encode_utf8(text)[i]
        != byte by {
        if encode_utf8(text)[i] == byte {
            lemma_ascii_byte_is_char(text, i);
        }
    }
}

} // verus!
