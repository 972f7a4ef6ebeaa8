//! Case folding: the form in which texts are compared when letter case is ignored.

use vstd::prelude::*;
use vstd::string::*;
use vstd::utf8::*;

verus! {

/// The lowercase form that the standard library gives a text.
pub uninterp spec fn lowercase_of(text: Seq<char>) -> Seq<char>;

/// The lowercase form of an ASCII character: a capital letter becomes its
/// small letter, everything else stays.
pub open spec fn ascii_lower(c: char) -> char {
    if 'A' <= c <= 'Z' {
        ((c as u8 + 32) as u8) as char
    } else {
        c
    }
}

/// An ASCII text with each character in lowercase.
pub open spec fn ascii_lowercase(text: Seq<char>) -> Seq<char> {
    Seq::new(text.len(), |i: int| ascii_lower(text[i]))
}

/// The case-folded form of a text. An ASCII text is folded character by
/// character; any other text gets the lowercase form of the standard library,
/// which looks at a character's neighbours too.
pub open spec fn folded(text: Seq<char>) -> Seq<char> {
    if is_ascii_chars(text) {
        ascii_lowercase(text)
    } else {
        lowercase_of(text)
    }
}

/// Calls `str::to_lowercase`. Nothing is proved of it: the contract only gives
/// the string that it returns the name `lowercase_of`, as a function of the
/// characters of `text`.
#[verifier::external_body]
fn to_lowercase(text: &str) -> (lowered: String)
    ensures
        lowered@ == lowercase_of(text@),
{
    text.to_lowercase()
}

/// What folding does to the byte of an ASCII character.
proof fn lemma_ascii_lower_byte(c: char)
    requires
        '\0' <= c <= '\u{7f}',
    ensures
        '\0' <= ascii_lower(c) <= '\u{7f}',
        ascii_lower(c) as u8 == (if 65 <= c as u8 <= 90 {
            (c as u8 + 32) as u8
        } else {
            c as u8
        }),
{
}

/// Folding keeps an ASCII text ASCII.
pub proof fn lemma_ascii_lowercase_is_ascii(text: Seq<char>)
    requires
        is_ascii_chars(text),
    ensures
        is_ascii_chars(ascii_lowercase(text)),
{
    assert forall|i: int| 0 <= i < text.len() implies '\0' <= #[trigger] ascii_lowercase(text)[i]
        <= '\u{7f}' by {
        lemma_ascii_lower_byte(text[i]);
    }
}

/// The folded form of an ASCII text, as bytes.
fn fold_ascii(text: &str) -> (out: Vec<u8>)
    requires
        is_ascii_chars(text@),
    ensures
        out@ == encode_utf8(ascii_lowercase(text@)),
{
    let bytes = text.as_bytes();
    let len: usize = bytes.len();
    let mut out: Vec<u8> = Vec::new();
    let mut at: usize = 0;
    proof {
        is_ascii_chars_encode_utf8(text@);
    }
    while at < len
        invariant
            is_ascii_chars(text@),
            len == bytes@.len() == text@.len(),
            forall|j: int| 0 <= j < len ==> bytes@[j] == text@[j] as u8,
            at <= len,
            out@.len() == at,
            forall|j: int| 0 <= j < at ==> out@[j] == ascii_lower(text@[j]) as u8,
        decreases len - at,
    {
        let byte = bytes[at];
        let low: u8 = if 65 <= byte && byte <= 90 {
            byte + 32
        } else {
            byte
        };
        proof {
            lemma_ascii_lower_byte(text@[at as int]);
        }
        out.push(low);
        at += 1;
    }
    proof {
        let lowered = ascii_lowercase(text@);
        lemma_ascii_lowercase_is_ascii(text@);
        is_ascii_chars_encode_utf8(lowered);
        assert(out@ =~= encode_utf8(lowered));
    }
    out
}

/// The case-folded form of `text`, in UTF-8.
pub fn fold_case(text: &str) -> (out: Vec<u8>)
    ensures
        out@ == encode_utf8(folded(text@)),
{
    if text.is_ascii() {
        fold_ascii(text)
    } else {
        let lowered = to_lowercase(text);
        lowered.as_str().as_bytes_vec()
    }
}

} // verus!
