//! Valid UTF-8 in, valid UTF-8 out: what a string literal decodes to is valid
//! UTF-8 whenever the input is.
use vstd::prelude::*;
use vstd::utf8::{
    encode_scalar, encode_utf8, is_scalar, length_of_first_scalar, pop_first_scalar,
    take_first_scalar, valid_utf8,
};
use crate::grammar::{
    escape_at, hex_quad, prepend, scan_string, simple_escape, surrogate_pair, BACKSLASH, LOWER_U,
    QUOTE,
};
use crate::lemmas::lemma_escape_at;

verus! {

/// The part of `input` from `i` on.
pub open spec fn suffix(input: Seq<u8>, i: int) -> Seq<u8> {
    input.subrange(i, input.len() as int)
}

/// What stands behind one ASCII byte of valid UTF-8 is valid UTF-8.
pub proof fn lemma_valid_behind_ascii(input: Seq<u8>, i: int)
    requires
        0 <= i < input.len(),
        input[i] < 0x80,
        valid_utf8(suffix(input, i)),
    ensures
        valid_utf8(suffix(input, i + 1)),
{
    let rest = suffix(input, i);
    assert(pop_first_scalar(rest) =~= suffix(input, i + 1));
}

/// What stands behind a run of ASCII bytes of valid UTF-8 is valid UTF-8.
pub proof fn lemma_valid_behind_ascii_run(input: Seq<u8>, i: int, j: int)
    requires
        0 <= i <= j <= input.len(),
        forall|k: int| i <= k < j ==> #[trigger] input[k] < 0x80,
        valid_utf8(suffix(input, i)),
    ensures
        valid_utf8(suffix(input, j)),
    decreases j - i,
{
    if i < j {
        lemma_valid_behind_ascii(input, i);
        lemma_valid_behind_ascii_run(input, i + 1, j);
    }
}

/// Valid UTF-8 from an ASCII byte on is valid UTF-8.
pub proof fn lemma_valid_from_ascii(input: Seq<u8>, i: int)
    requires
        valid_utf8(input),
        0 <= i < input.len(),
        input[i] < 0x80,
    ensures
        valid_utf8(suffix(input, i)),
{
    vstd::utf8::is_char_boundary_iff_not_is_continuation_byte(input, i);
    vstd::utf8::valid_utf8_split(input, i);
}

/// The UTF-8 encoding of a scalar value is valid UTF-8.
pub proof fn lemma_scalar_is_valid(scalar: u32)
    requires
        is_scalar(scalar),
    ensures
        valid_utf8(encode_scalar(scalar)),
{
    let c = scalar as char;
    let one = seq![c];
    assert(encode_utf8(one) =~= encode_scalar(scalar)) by {
        assert(encode_utf8(one) == encode_scalar(one[0] as u32) + encode_utf8(one.drop_first()));
    }
    vstd::utf8::encode_utf8_valid_utf8(one);
}

/// An escape sequence is written in ASCII, and what it stands for is valid
/// UTF-8.
pub proof fn lemma_escape_is_valid(input: Seq<u8>, i: int)
    requires
        0 <= i,
        i + 1 < input.len(),
        input[i] == BACKSLASH,
        escape_at(input, i) is Ok,
    ensures
        valid_utf8(escape_at(input, i)->Ok_0.0),
        forall|k: int| i <= k < escape_at(input, i)->Ok_0.1 ==> #[trigger] input[k] < 0x80,
{
    let next = escape_at(input, i)->Ok_0.1;
    lemma_escape_at(input, i);
    if input[i + 1] == LOWER_U {
        let unit = hex_quad(input, i + 2);
        if next == i + 12 {
            let low = hex_quad(input, i + 8);
            lemma_scalar_is_valid(surrogate_pair(unit, low) as u32);
        } else {
            lemma_scalar_is_valid(unit as u32);
        }
    } else {
        let b = simple_escape(input[i + 1])->Some_0;
        lemma_scalar_is_valid(b as u32);
        assert(encode_scalar(b as u32) =~= seq![b]) by {
            assert((b as u32) & 0x7F == b as u32) by (bit_vector)
                requires
                    b < 0x80,
            ;
        }
    }
}

/// The first encoded scalar of valid UTF-8 is valid UTF-8 by itself.
pub proof fn lemma_first_scalar_is_valid(bytes: Seq<u8>)
    requires
        valid_utf8(bytes),
        bytes.len() > 0,
    ensures
        valid_utf8(take_first_scalar(bytes)),
        0 < length_of_first_scalar(bytes) <= bytes.len(),
{
    reveal_with_fuel(valid_utf8, 2);
}

/// In an input that is valid UTF-8 from `i` on, the rest of a string literal
/// decodes to valid UTF-8.
pub proof fn lemma_scan_string_is_valid(input: Seq<u8>, open: int, i: int)
    requires
        0 <= open < i <= input.len(),
        valid_utf8(suffix(input, i)),
        scan_string(input, open, i) is Ok,
    ensures
        valid_utf8(scan_string(input, open, i)->Ok_0.0),
    decreases input.len() - i,
{
    let rest = suffix(input, i);
    if input[i] == BACKSLASH {
        lemma_escape_at(input, i);
        lemma_escape_is_valid(input, i);
        let (bytes, next) = escape_at(input, i)->Ok_0;
        lemma_valid_behind_ascii_run(input, i, next);
        lemma_scan_string_is_valid(input, open, next);
        vstd::utf8::valid_utf8_concat(bytes, scan_string(input, open, next)->Ok_0.0);
    } else if input[i] != QUOTE {
        // A raw character: the bytes of its encoding stand for themselves.
        lemma_first_scalar_is_valid(rest);
        let width = length_of_first_scalar(rest);
        let first = take_first_scalar(rest);
        assert(pop_first_scalar(rest) =~= suffix(input, i + width));
        assert forall|k: int| i <= k < i + width implies #[trigger] input[k] != QUOTE && input[k]
            != BACKSLASH by {}
        lemma_raw_run(input, open, i, i + width);
        lemma_scan_string_is_valid(input, open, i + width);
        assert(first =~= input.subrange(i, i + width));
        vstd::utf8::valid_utf8_concat(first, scan_string(input, open, i + width)->Ok_0.0);
    }
}

/// Bytes that are neither quote nor backslash stand for themselves: a run of
/// them goes into the decoded string as it is.
pub proof fn lemma_raw_run(input: Seq<u8>, open: int, i: int, j: int)
    requires
        0 <= i <= j <= input.len(),
        forall|k: int| i <= k < j ==> #[trigger] input[k] != QUOTE && input[k] != BACKSLASH,
    ensures
        scan_string(input, open, i) == prepend(
            input.subrange(i, j),
            scan_string(input, open, j),
        ),
    decreases j - i,
{
    if i < j {
        lemma_raw_run(input, open, i + 1, j);
        if let Ok((tail, _)) = scan_string(input, open, j) {
            assert(seq![input[i]] + (input.subrange(i + 1, j) + tail) =~= input.subrange(i, j)
                + tail);
        }
    }
}

} // verus!
