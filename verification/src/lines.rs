//! The lines of a text.
//!
//! A line ends at a line feed, or at the end of the text. The line feed is not
//! part of the line, and neither is a carriage return that stands directly
//! before it. A text that ends in a line feed has no further, empty line after it.

use vstd::prelude::*;
use vstd::string::*;
use vstd::utf8::*;
use crate::encoding::{
    lemma_absent_byte_absent_char, lemma_ascii_byte_decodes, lemma_ascii_char_encodes,
    lemma_encode_empty,
};

verus! {

/// The byte of the line feed, which ends a line.
pub const LINE_FEED: u8 = 10;

/// The byte of the carriage return.
pub const CARRIAGE_RETURN: u8 = 13;

/// The number of characters before the first line feed of `text`,
/// or the length of `text` if it holds none.
pub open spec fn line_end(text: Seq<char>) -> nat
    decreases text.len(),
{
    if text.len() == 0 || text[0] == '\n' {
        0
    } else {
        1 + line_end(text.drop_first())
    }
}

/// `line` without the carriage return at its end, if it has one.
pub open spec fn trim_return(line: Seq<char>) -> Seq<char> {
    if line.len() > 0 && line.last() == '\r' {
        line.drop_last()
    } else {
        line
    }
}

/// The first line of a text that is not empty.
pub open spec fn first_line_of(text: Seq<char>) -> Seq<char> {
    let end = line_end(text) as int;
    if end < text.len() {
        trim_return(text.take(end))
    } else {
        text
    }
}

/// What follows the first line and its terminator.
pub open spec fn after_first_line(text: Seq<char>) -> Seq<char> {
    let end = line_end(text) as int;
    if end < text.len() {
        text.skip(end + 1)
    } else {
        Seq::empty()
    }
}

/// The lines of `text`, in order.
pub open spec fn lines_of(text: Seq<char>) -> Seq<Seq<char>>
    decreases text.len(),
{
    if text.len() == 0 {
        Seq::empty()
    } else {
        seq![first_line_of(text)] + lines_of(after_first_line(text))
    }
}

/// `line_end` is the position of the first line feed.
pub proof fn lemma_line_end(text: Seq<char>, at: int)
    requires
        0 <= at <= text.len(),
        forall|j: int| 0 <= j < at ==> text[j] != '\n',
        at < text.len() ==> text[at] == '\n',
    ensures
        line_end(text) == at,
    decreases at,
{
    if at > 0 {
        let rest = text.drop_first();
        assert forall|j: int| 0 <= j < at - 1 implies rest[j] != '\n' by {
            assert(rest[j] == text[j + 1]);
        }
        lemma_line_end(rest, at - 1);
    }
}

/// The index of the first byte of `bytes` that equals `value`, or the length of
/// `bytes` if none does.
fn find_byte(bytes: &[u8], value: u8) -> (at: usize)
    ensures
        at <= bytes@.len(),
        forall|j: int| 0 <= j < at ==> bytes@[j] != value,
        at < bytes@.len() ==> bytes@[at as int] == value,
{
    let len: usize = bytes.len();
    let mut at: usize = 0;
    while at < len && bytes[at] != value
        invariant
            len == bytes@.len(),
            at <= len,
            forall|j: int| 0 <= j < at ==> bytes@[j] != value,
        decreases len - at,
    {
        at += 1;
    }
    at
}

/// Cuts `text` in two at the byte offset `mid`.
fn cut<'a>(text: &'a str, mid: usize) -> (parts: (&'a str, &'a str))
    requires
        is_char_boundary(text.spec_bytes(), mid as int),
    ensures
        parts.0@ == decode_utf8(text.spec_bytes().subrange(0, mid as int)),
        parts.1@ == decode_utf8(
            text.spec_bytes().subrange(mid as int, text.spec_bytes().len() as int),
        ),
        parts.0.spec_bytes() == text.spec_bytes().subrange(0, mid as int),
        parts.1.spec_bytes() == text.spec_bytes().subrange(
            mid as int,
            text.spec_bytes().len() as int,
        ),
        text@ == parts.0@ + parts.1@,
{
    let parts = text.split_at(mid);
    proof {
        encode_utf8_valid_utf8(text@);
        encode_utf8_decode_utf8(text@);
        encode_utf8_decode_utf8(parts.0@);
        encode_utf8_decode_utf8(parts.1@);
        decode_utf8_split(text.spec_bytes(), mid as int);
    }
    parts
}

/// `line` without the carriage return at its end, if it has one.
fn without_return<'a>(line: &'a str) -> (trimmed: &'a str)
    ensures
        trimmed@ == trim_return(line@),
{
    let bytes = line.as_bytes();
    let len: usize = bytes.len();
    if len > 0 && bytes[len - 1] == CARRIAGE_RETURN {
        proof {
            lemma_ascii_byte_decodes(line@, len - 1);
            let kept = decode_utf8(bytes@.subrange(0, len - 1));
            assert(bytes@.subrange(len as int, len as int) =~= Seq::<u8>::empty());
            assert(decode_utf8(Seq::<u8>::empty()) =~= Seq::<char>::empty());
            assert(line@ =~= kept.push('\r'));
            assert(line@.drop_last() =~= kept);
        }
        cut(line, len - 1).0
    } else {
        proof {
            if line@.len() > 0 && line@.last() == '\r' {
                let at = line@.len() - 1;
                lemma_ascii_char_encodes(line@, at);
                assert(line@.skip(at + 1) =~= Seq::<char>::empty());
                assert(encode_utf8(Seq::<char>::empty()) =~= Seq::<u8>::empty());
                assert(bytes@ =~= encode_utf8(line@.take(at)).push(13u8));
                assert(bytes@[len - 1] == 13u8);
            }
        }
        line
    }
}

/// Splits off the first line of `text`: the line, and what follows its
/// terminator. An empty text has no line.
pub fn split_first_line<'a>(text: &'a str) -> (parts: Option<(&'a str, &'a str)>)
    ensures
        parts is None <==> text@.len() == 0,
        parts matches Some((line, rest)) ==> line@ == first_line_of(text@) && rest@
            == after_first_line(text@),
{
    let bytes = text.as_bytes();
    let len: usize = bytes.len();
    proof {
        lemma_encode_empty(text@);
        encode_utf8_valid_utf8(text@);
    }
    if len == 0 {
        return None;
    }
    let at = find_byte(bytes, LINE_FEED);
    if at == len {
        proof {
            lemma_absent_byte_absent_char(text@, '\n');
            lemma_line_end(text@, text@.len() as int);
            is_char_boundary_start_end_of_seq(bytes@);
            assert(bytes@.subrange(len as int, len as int) =~= Seq::<u8>::empty());
            assert(decode_utf8(Seq::<u8>::empty()) =~= Seq::<char>::empty());
        }
        let rest = cut(text, len).1;
        return Some((text, rest));
    }
    proof {
        lemma_ascii_byte_decodes(text@, at as int);
        let head = decode_utf8(bytes@.subrange(0, at as int));
        let tail = decode_utf8(bytes@.subrange(at + 1, len as int));
        decode_utf8_encode_utf8(bytes@.subrange(0, at as int));
        lemma_absent_byte_absent_char(head, '\n');
        assert(text@ =~= head + seq!['\n'] + tail);
        lemma_line_end(text@, head.len() as int);
        assert(text@.take(head.len() as int) =~= head);
        assert(text@.skip(head.len() as int + 1) =~= tail);
    }
    let (head, _) = cut(text, at);
    let (_, rest) = cut(text, at + 1);
    Some((without_return(head), rest))
}

} // verus!
