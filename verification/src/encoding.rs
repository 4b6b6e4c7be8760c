//! Facts about the UTF-8 encoding of a text that let byte-level scanning
//! answer character-level questions.
//!
//! A `&str` is viewed as its sequence of characters, but it is stored as the
//! UTF-8 encoding of that sequence. The lemmas here relate the two: encoding
//! distributes over concatenation, a character boundary in the bytes splits
//! the characters, and a text whose encoding begins another's encoding
//! begins that text.

use vstd::prelude::*;
use vstd::utf8::*;

verus! {

/// The bytes of `encode_scalar(v)`: their count, and what the first one tells.
proof fn lemma_scalar_bytes(v: u32)
    requires
        is_scalar(v),
    ensures
        1 <= encode_scalar(v).len() <= 4,
        v < 0x80 ==> encode_scalar(v).len() == 1 && encode_scalar(v)[0] == v,
        v >= 0x80 ==> encode_scalar(v)[0] >= 0x80,
{
    if has_width_1_encoding(v) {
        assert(leading_byte_width_1(v) == v as u8) by (bit_vector)
            requires
                has_width_1_encoding(v),
        ;
    } else if has_width_2_encoding(v) {
        assert(leading_byte_width_2(v) >= 0x80) by (bit_vector);
    } else if has_width_3_encoding(v) {
        assert(leading_byte_width_3(v) >= 0x80) by (bit_vector);
    } else {
        assert(leading_byte_width_4(v) >= 0x80) by (bit_vector);
    }
}

/// Encoding a text yields at least one byte for each character.
pub proof fn lemma_encoding_len(text: Seq<char>)
    ensures
        encode_utf8(text).len() >= text.len(),
    decreases text.len(),
{
    if text.len() > 0 {
        char_is_scalar(text[0]);
        lemma_scalar_bytes(text[0] as u32);
        lemma_encoding_len(text.drop_first());
    }
}

/// Encoding distributes over concatenation.
pub proof fn lemma_encoding_concat(a: Seq<char>, b: Seq<char>)
    ensures
        encode_utf8(a + b) == encode_utf8(a) + encode_utf8(b),
    decreases a.len(),
{
    if a.len() == 0 {
        assert(a + b =~= b);
        assert(encode_utf8(a) + encode_utf8(b) =~= encode_utf8(b));
    } else {
        assert((a + b).drop_first() =~= a.drop_first() + b);
        lemma_encoding_concat(a.drop_first(), b);
        assert(encode_utf8(a + b) =~= encode_utf8(a) + encode_utf8(b));
    }
}

/// A text that starts with an ASCII character is encoded starting with that
/// character's code, and a text whose encoding starts with an ASCII byte
/// starts with the character of that code.
pub proof fn lemma_first_byte(text: Seq<char>)
    requires
        text.len() > 0,
    ensures
        encode_utf8(text).len() > 0,
        (text[0] as u32) < 0x80 <==> encode_utf8(text)[0] < 0x80,
        (text[0] as u32) < 0x80 ==> encode_utf8(text)[0] == text[0] as u32,
        (text[0] as u32) < 0x80 ==> encode_utf8(text).skip(1) == encode_utf8(text.drop_first()),
{
    char_is_scalar(text[0]);
    lemma_scalar_bytes(text[0] as u32);
    if (text[0] as u32) < 0x80 {
        assert(encode_utf8(text).skip(1) =~= encode_utf8(text.drop_first()));
    }
}

/// The encoding of a single ASCII character is the one byte of its code.
pub proof fn lemma_encoding_of_ascii(c: char)
    requires
        (c as u32) < 0x80,
    ensures
        encode_utf8(seq![c]).len() == 1,
        encode_utf8(seq![c])[0] == c as u32,
{
    char_is_scalar(c);
    lemma_scalar_bytes(c as u32);
    assert(seq![c].drop_first() =~= Seq::<char>::empty());
    assert(encode_utf8(Seq::<char>::empty()) =~= Seq::<u8>::empty());
}

/// An ASCII character at position `at` of a text shows as its code in the
/// encoding, as the one byte between the encodings of what precedes and of
/// what follows it.
pub proof fn lemma_ascii_char_shows(text: Seq<char>, at: int)
    requires
        0 <= at < text.len(),
        (text[at] as u32) < 0x80,
    ensures
        encode_utf8(text).len() == encode_utf8(text.take(at)).len() + 1 + encode_utf8(
            text.skip(at + 1),
        ).len(),
        encode_utf8(text)[encode_utf8(text.take(at)).len() as int] == text[at] as u32,
{
    let c = text[at];
    assert(text =~= text.take(at) + (seq![c] + text.skip(at + 1)));
    lemma_encoding_concat(text.take(at), seq![c] + text.skip(at + 1));
    lemma_encoding_concat(seq![c], text.skip(at + 1));
    lemma_encoding_of_ascii(c);
}

/// Texts with the same encoding are the same text.
pub proof fn lemma_encoding_injective(a: Seq<char>, b: Seq<char>)
    requires
        encode_utf8(a) == encode_utf8(b),
    ensures
        a == b,
{
    encode_utf8_decode_utf8(a);
    encode_utf8_decode_utf8(b);
}

/// Cutting the encoding of `whole` at a character boundary cuts `whole`:
/// the texts encoded by the two parts concatenate to it.
pub proof fn lemma_boundary_splits(whole: Seq<char>, head: Seq<char>, tail: Seq<char>, cut: int)
    requires
        is_char_boundary(encode_utf8(whole), cut),
        encode_utf8(head) == encode_utf8(whole).subrange(0, cut),
        encode_utf8(tail) == encode_utf8(whole).subrange(cut, encode_utf8(whole).len() as int),
    ensures
        whole == head + tail,
{
    let bytes = encode_utf8(whole);
    encode_utf8_valid_utf8(whole);
    decode_utf8_split(bytes, cut);
    encode_utf8_decode_utf8(whole);
    encode_utf8_decode_utf8(head);
    encode_utf8_decode_utf8(tail);
}

/// A position in the encoding of a text that holds a leading byte is where
/// the encoding of some suffix of the text starts.
pub proof fn lemma_leading_byte_starts_suffix(text: Seq<char>, at: int) -> (skipped: int)
    requires
        0 <= at < encode_utf8(text).len(),
        !is_continuation_byte(encode_utf8(text)[at]),
    ensures
        0 <= skipped <= text.len(),
        encode_utf8(text.take(skipped)) == encode_utf8(text).take(at),
        encode_utf8(text.skip(skipped)) == encode_utf8(text).skip(at),
{
    let bytes = encode_utf8(text);
    encode_utf8_valid_utf8(text);
    is_char_boundary_iff_not_is_continuation_byte(bytes, at);
    valid_utf8_split(bytes, at);
    let head = decode_utf8(bytes.subrange(0, at));
    let tail = decode_utf8(bytes.subrange(at, bytes.len() as int));
    decode_utf8_encode_utf8(bytes.subrange(0, at));
    decode_utf8_encode_utf8(bytes.subrange(at, bytes.len() as int));
    lemma_boundary_splits(text, head, tail, at);
    assert(text.take(head.len() as int) =~= head);
    assert(text.skip(head.len() as int) =~= tail);
    head.len() as int
}

/// A text whose encoding begins the encoding of another begins that other.
pub proof fn lemma_encoded_prefix(part: Seq<char>, whole: Seq<char>)
    requires
        encode_utf8(part).is_prefix_of(encode_utf8(whole)),
    ensures
        part.is_prefix_of(whole),
    decreases part.len(),
{
    if part.len() > 0 {
        let x = encode_utf8(part);
        let y = encode_utf8(whole);
        lemma_encoding_len(part);
        assert(whole.len() > 0);
        encode_utf8_first_scalar(part);
        encode_utf8_first_scalar(whole);
        char_is_scalar(part[0]);
        lemma_scalar_bytes(part[0] as u32);
        let width = length_of_first_scalar(x);
        assert(x =~= encode_scalar(part[0] as u32) + encode_utf8(part.drop_first()));
        assert(y =~= encode_scalar(whole[0] as u32) + encode_utf8(whole.drop_first()));
        assert(forall|k: int| 0 <= k < width ==> x[k] == y[k]);
        assert(decode_first_scalar(x) == decode_first_scalar(y));
        assert(part[0] == whole[0]) by {
            char_u32_cast(part[0], decode_first_scalar(x));
            char_u32_cast(whole[0], decode_first_scalar(y));
        }
        assert(encode_utf8(part.drop_first()) =~= x.skip(width));
        assert(encode_utf8(whole.drop_first()) =~= y.skip(width));
        assert(x.skip(width) =~= y.skip(width).subrange(0, x.len() - width));
        lemma_encoded_prefix(part.drop_first(), whole.drop_first());
        assert(part =~= whole.subrange(0, part.len() as int)) by {
            assert forall|k: int| 0 <= k < part.len() implies part[k] == whole[k] by {
                if k > 0 {
                    assert(part[k] == part.drop_first()[k - 1]);
                    assert(whole[k] == whole.drop_first()[k - 1]);
                    assert(part.drop_first()[k - 1] == whole.drop_first().subrange(
                        0,
                        part.drop_first().len() as int,
                    )[k - 1]);
                }
            }
        }
    }
}

} // verus!
