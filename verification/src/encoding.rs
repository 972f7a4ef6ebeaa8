//! How facts about the characters of a text carry over to its UTF-8 bytes and back.
//!
//! The executable code scans and compares bytes; the contracts of this crate
//! speak of characters. The lemmas here connect the two.

use vstd::prelude::*;
use vstd::utf8::*;
use crate::pattern::{occurs_at, occurs_in};

verus! {

/// Encoding a concatenation is concatenating the encodings.
pub proof fn lemma_encode_concat(a: Seq<char>, b: Seq<char>)
    ensures
        encode_utf8(a + b) == encode_utf8(a) + encode_utf8(b),
    decreases a.len(),
{
    if a.len() == 0 {
        assert(a + b =~= b);
        assert(encode_utf8(a) + encode_utf8(b) =~= encode_utf8(b));
    } else {
        assert((a + b).drop_first() =~= a.drop_first() + b);
        lemma_encode_concat(a.drop_first(), b);
        assert(encode_utf8(a + b) =~= encode_utf8(a) + encode_utf8(b));
    }
}

/// Only the empty text has an empty encoding.
pub proof fn lemma_encode_empty(a: Seq<char>)
    ensures
        encode_utf8(a).len() == 0 <==> a.len() == 0,
{
    if a.len() > 0 {
        encode_utf8_first_scalar(a);
    }
}

/// An occurrence among characters is an occurrence among the encoded bytes.
pub proof fn lemma_occurrence_encodes(needle: Seq<char>, hay: Seq<char>, at: int)
    requires
        occurs_at(needle, hay, at),
    ensures
        occurs_at(encode_utf8(needle), encode_utf8(hay), encode_utf8(hay.take(at)).len() as int),
{
    let before = hay.take(at);
    let after = hay.skip(at + needle.len());
    assert(hay =~= before + (needle + after));
    lemma_encode_concat(needle, after);
    lemma_encode_concat(before, needle + after);
    let start = encode_utf8(before).len() as int;
    assert(encode_utf8(hay).subrange(start, start + encode_utf8(needle).len()) =~= encode_utf8(
        needle,
    ));
}

/// A valid encoding that begins another valid encoding ends on a character boundary of it.
proof fn lemma_prefix_ends_on_boundary(whole: Seq<u8>, part: Seq<u8>)
    requires
        valid_utf8(whole),
        valid_utf8(part),
        part.len() <= whole.len(),
        whole.subrange(0, part.len() as int) == part,
    ensures
        is_char_boundary(whole, part.len() as int),
    decreases part.len(),
{
    if part.len() > 0 {
        let width = length_of_first_scalar(part);
        assert forall|j: int| 0 <= j < part.len() implies whole[j] == part[j] by {
            assert(whole.subrange(0, part.len() as int)[j] == whole[j]);
        }
        assert(length_of_first_scalar(whole) == width);
        let whole_rest = pop_first_scalar(whole);
        let part_rest = pop_first_scalar(part);
        assert(whole_rest.subrange(0, part_rest.len() as int) =~= part_rest);
        lemma_prefix_ends_on_boundary(whole_rest, part_rest);
    }
}

/// An occurrence among the encoded bytes is an occurrence among the characters.
pub proof fn lemma_occurrence_decodes(needle: Seq<char>, hay: Seq<char>, at: int)
    requires
        occurs_at(encode_utf8(needle), encode_utf8(hay), at),
    ensures
        occurs_in(needle, hay),
{
    let bytes = encode_utf8(hay);
    let part = encode_utf8(needle);
    encode_utf8_valid_utf8(hay);
    encode_utf8_valid_utf8(needle);
    encode_utf8_decode_utf8(hay);
    encode_utf8_decode_utf8(needle);
    if part.len() == 0 {
        lemma_encode_empty(needle);
        assert(hay.subrange(0, 0) =~= needle);
        assert(occurs_at(needle, hay, 0));
    } else {
        assert(bytes.subrange(at, at + part.len())[0] == bytes[at]);
        is_char_boundary_iff_not_is_continuation_byte(bytes, at);
        valid_utf8_split(bytes, at);
        decode_utf8_split(bytes, at);
        let tail = bytes.subrange(at, bytes.len() as int);
        assert(tail.subrange(0, part.len() as int) =~= part);
        lemma_prefix_ends_on_boundary(tail, part);
        decode_utf8_split(tail, part.len() as int);
        let before = decode_utf8(bytes.subrange(0, at));
        let after = decode_utf8(tail.subrange(part.len() as int, tail.len() as int));
        assert(hay =~= before + (needle + after));
        let start = before.len() as int;
        assert(hay.subrange(start, start + needle.len()) =~= needle);
        assert(occurs_at(needle, hay, start));
    }
}

/// A text contains another exactly when its encoding contains the other's encoding.
pub proof fn lemma_occurs_in_encoded(needle: Seq<char>, hay: Seq<char>)
    ensures
        occurs_in(encode_utf8(needle), encode_utf8(hay)) <==> occurs_in(needle, hay),
{
    if occurs_in(needle, hay) {
        let at = choose|at: int| occurs_at(needle, hay, at);
        lemma_occurrence_encodes(needle, hay, at);
    }
    if occurs_in(encode_utf8(needle), encode_utf8(hay)) {
        let at = choose|at: int| occurs_at(encode_utf8(needle), encode_utf8(hay), at);
        lemma_occurrence_decodes(needle, hay, at);
    }
}

/// The encoding of one ASCII character is the byte of the same value.
proof fn lemma_ascii_scalar(c: char)
    requires
        c <= '\u{7f}',
    ensures
        encode_scalar(c as u32) == seq![c as u8],
{
    let scalar = c as u32;
    assert((scalar & 0x7F) as u8 == scalar as u8) by (bit_vector)
        requires
            scalar < 0x80,
    ;
}

/// An ASCII character is encoded as the single byte of the same value.
pub proof fn lemma_ascii_char_encodes(text: Seq<char>, at: int)
    requires
        0 <= at < text.len(),
        text[at] <= '\u{7f}',
    ensures
        encode_utf8(text) == encode_utf8(text.take(at)) + seq![text[at] as u8] + encode_utf8(
            text.skip(at + 1),
        ),
{
    let one = seq![text[at]];
    let after = text.skip(at + 1);
    assert(text =~= text.take(at) + (one + after));
    lemma_encode_concat(one, after);
    lemma_encode_concat(text.take(at), one + after);
    assert(one.drop_first() =~= Seq::<char>::empty());
    assert(encode_utf8(Seq::<char>::empty()) =~= Seq::<u8>::empty());
    lemma_ascii_scalar(text[at]);
    assert(one[0] == text[at]);
    assert(encode_utf8(one) =~= seq![text[at] as u8]);
    assert(encode_utf8(text) =~= encode_utf8(text.take(at)) + seq![text[at] as u8] + encode_utf8(
        after,
    ));
}

/// An ASCII character whose byte is nowhere in the encoding is nowhere in the text.
pub proof fn lemma_absent_byte_absent_char(text: Seq<char>, c: char)
    requires
        c <= '\u{7f}',
        forall|j: int| 0 <= j < encode_utf8(text).len() ==> encode_utf8(text)[j] != c as u8,
    ensures
        forall|k: int| 0 <= k < text.len() ==> text[k] != c,
{
    assert forall|k: int| 0 <= k < text.len() implies text[k] != c by {
        if text[k] == c {
            lemma_ascii_char_encodes(text, k);
            let at = encode_utf8(text.take(k)).len() as int;
            assert(encode_utf8(text)[at] == c as u8);
        }
    }
}

/// A byte below 128 in an encoding is a character of its own: the text splits
/// around it into what the bytes before it and the bytes after it decode to.
pub proof fn lemma_ascii_byte_decodes(text: Seq<char>, at: int)
    requires
        0 <= at < encode_utf8(text).len(),
        encode_utf8(text)[at] < 0x80,
    ensures
        ({
            let bytes = encode_utf8(text);
            let before = bytes.subrange(0, at);
            let after = bytes.subrange(at + 1, bytes.len() as int);
            &&& is_char_boundary(bytes, at)
            &&& is_char_boundary(bytes, at + 1)
            &&& valid_utf8(before)
            &&& valid_utf8(after)
            &&& text == decode_utf8(before) + seq![bytes[at] as char] + decode_utf8(after)
        }),
{
    let bytes = encode_utf8(text);
    let byte = bytes[at];
    encode_utf8_valid_utf8(text);
    encode_utf8_decode_utf8(text);
    is_char_boundary_iff_not_is_continuation_byte(bytes, at);
    valid_utf8_split(bytes, at);
    decode_utf8_split(bytes, at);
    let tail = bytes.subrange(at, bytes.len() as int);
    assert(tail[0] == byte);
    assert((byte & 0x7F) as u32 == byte as u32) by (bit_vector)
        requires
            byte < 0x80,
    ;
    assert(valid_first_scalar(tail) && valid_utf8(pop_first_scalar(tail)));
    assert(pop_first_scalar(tail) =~= bytes.subrange(at + 1, bytes.len() as int));
    assert(decode_first_scalar(tail) == byte as u32);
    assert(decode_utf8(tail) =~= seq![byte as char] + decode_utf8(pop_first_scalar(tail)));
    assert(is_char_boundary(bytes, at));
    assert(text =~= decode_utf8(bytes.subrange(0, at)) + seq![byte as char] + decode_utf8(
        bytes.subrange(at + 1, bytes.len() as int),
    ));
    if at + 1 < bytes.len() {
        assert(pop_first_scalar(tail)[0] == bytes[at + 1]);
        is_char_boundary_iff_not_is_continuation_byte(bytes, at + 1);
    } else {
        is_char_boundary_start_end_of_seq(bytes);
    }
}

} // verus!
