//! Text payloads: from bytes to `String`, and from code points to bytes.
use vstd::prelude::*;
use vstd::utf8::{decode_utf8, encode_scalar, encode_utf8, is_scalar, valid_utf8};

verus! {

/// The text that a lossy UTF-8 conversion makes of a byte sequence: the
/// characters it encodes, with the replacement character U+FFFD in place of
/// each malformed part.
pub uninterp spec fn lossy_text(bytes: Seq<u8>) -> Seq<char>;

/// The text that a sequence of bytes stands for: the characters that it
/// encodes in UTF-8, and what the lossy conversion makes of it where it is
/// not valid UTF-8.
pub open spec fn text_of(bytes: Seq<u8>) -> Seq<char> {
    if valid_utf8(bytes) {
        decode_utf8(bytes)
    } else {
        lossy_text(bytes)
    }
}

/// Every byte is below 128.
pub open spec fn is_ascii_bytes(bytes: Seq<u8>) -> bool {
    forall|i: int| 0 <= i < bytes.len() ==> #[trigger] bytes[i] < 0x80
}

/// A sequence of ASCII bytes read as text, one character for each byte.
pub open spec fn ascii_text(bytes: Seq<u8>) -> Seq<char> {
    Seq::new(bytes.len(), |i: int| bytes[i] as char)
}

/// Trusted: `String::from_utf8_lossy` from the standard library, made into an
/// owned `String`. Its documentation says that the conversion keeps valid
/// UTF-8 as it is and replaces each invalid sequence with U+FFFD. The
/// contract states the first half exactly and gives the result of the second
/// half the name [`lossy_text`].
#[verifier::external_body]
pub(crate) fn text_from_bytes(bytes: &[u8]) -> (text: String)
    ensures
        text@ == lossy_text(bytes@),
        valid_utf8(bytes@) ==> text@ == decode_utf8(bytes@),
{
    String::from_utf8_lossy(bytes).into_owned()
}

/// ASCII bytes are valid UTF-8, and the text they stand for has one character
/// for each byte.
pub proof fn lemma_ascii_text(bytes: Seq<u8>)
    requires
        is_ascii_bytes(bytes),
    ensures
        valid_utf8(bytes),
        text_of(bytes) == ascii_text(bytes),
        encode_utf8(ascii_text(bytes)) == bytes,
{
    let chars = ascii_text(bytes);
    vstd::utf8::is_ascii_chars_encode_utf8(chars);
    assert(encode_utf8(chars) =~= bytes);
    vstd::utf8::encode_utf8_valid_utf8(chars);
    vstd::utf8::encode_utf8_decode_utf8(chars);
}

/// Appends the UTF-8 encoding of a Unicode scalar value to `out`.
pub(crate) fn push_scalar(out: &mut Vec<u8>, scalar: u32)
    requires
        is_scalar(scalar),
    ensures
        final(out)@ == old(out)@ + encode_scalar(scalar),
{
    if scalar <= 0x7F {
        assert(scalar & 0x7F <= 0x7F) by (bit_vector);
        let b0: u8 = (scalar & 0x7F) as u8;
        out.push(b0);
    } else if scalar <= 0x7FF {
        assert((scalar >> 6) & 0x1F <= 0x1F && scalar & 0x3F <= 0x3F) by (bit_vector);
        let b0: u8 = 0xC0 | ((scalar >> 6) & 0x1F) as u8;
        let b1: u8 = 0x80 | (scalar & 0x3F) as u8;
        out.push(b0);
        out.push(b1);
    } else if scalar <= 0xFFFF {
        assert((scalar >> 12) & 0x0F <= 0x0F && (scalar >> 6) & 0x3F <= 0x3F && scalar & 0x3F
            <= 0x3F) by (bit_vector);
        let b0: u8 = 0xE0 | ((scalar >> 12) & 0x0F) as u8;
        let b1: u8 = 0x80 | ((scalar >> 6) & 0x3F) as u8;
        let b2: u8 = 0x80 | (scalar & 0x3F) as u8;
        out.push(b0);
        out.push(b1);
        out.push(b2);
    } else {
        assert((scalar >> 18) & 0x7 <= 0x7 && (scalar >> 12) & 0x3F <= 0x3F && (scalar >> 6) & 0x3F
            <= 0x3F && scalar & 0x3F <= 0x3F) by (bit_vector);
        let b0: u8 = 0xF0 | ((scalar >> 18) & 0x7) as u8;
        let b1: u8 = 0x80 | ((scalar >> 12) & 0x3F) as u8;
        let b2: u8 = 0x80 | ((scalar >> 6) & 0x3F) as u8;
        let b3: u8 = 0x80 | (scalar & 0x3F) as u8;
        out.push(b0);
        out.push(b1);
        out.push(b2);
        out.push(b3);
    }
}

} // verus!
