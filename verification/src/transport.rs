//! From the text that the feed delivers to the bytes of a blob.
//!
//! A blob travels as hexadecimal text. The node may wrap the text in double
//! quotes and put `0x` in front of it; both are taken off before the digits
//! are decoded. The digits themselves are decoded by the `hex` crate.

use crate::error::WaitError;
use vstd::prelude::*;
use vstd::slice::slice_subrange;
use vstd::utf8::encode_utf8;

verus! {

/// The error that the `hex` crate reports; nothing is read from it.
#[verifier::external_type_specification]
#[verifier::external_body]
pub struct ExFromHexError(hex::FromHexError);

/// The byte of a double quote.
pub const QUOTE: u8 = 0x22;

/// The value of one hexadecimal digit, upper or lower case.
pub open spec fn hex_digit(b: u8) -> Option<u8> {
    if 0x30 <= b <= 0x39 {
        Some((b - 0x30) as u8)
    } else if 0x41 <= b <= 0x46 {
        Some((b - 0x41 + 10) as u8)
    } else if 0x61 <= b <= 0x66 {
        Some((b - 0x61 + 10) as u8)
    } else {
        None
    }
}

/// The bytes that `digits` spell, two digits to the byte and the high digit
/// first, or `None` where the number of digits is odd or one of them is no
/// hexadecimal digit.
pub open spec fn hex_decoded(digits: Seq<u8>) -> Option<Seq<u8>> {
    if digits.len() % 2 == 0 && forall|i: int|
        0 <= i < digits.len() ==> hex_digit(#[trigger] digits[i]) is Some {
        Some(
            Seq::new(
                digits.len() / 2,
                |i: int|
                    (hex_digit(digits[2 * i])->Some_0 * 16 + hex_digit(
                        digits[2 * i + 1],
                    )->Some_0) as u8,
            ),
        )
    } else {
        None
    }
}

/// `s` without the double quotes at its start and at its end.
pub open spec fn without_quotes(s: Seq<u8>) -> Seq<u8>
    decreases s.len(),
{
    if s.len() > 0 && s[0] == QUOTE {
        without_quotes(s.skip(1))
    } else if s.len() > 0 && s.last() == QUOTE {
        without_quotes(s.drop_last())
    } else {
        s
    }
}

/// `s` without the `0x` at its start, however often it is repeated there.
pub open spec fn without_prefix(s: Seq<u8>) -> Seq<u8>
    decreases s.len(),
{
    if s.len() >= 2 && s[0] == 0x30 && s[1] == 0x78 {
        without_prefix(s.skip(2))
    } else {
        s
    }
}

/// The bytes of the blob that travels as `text`, given as its UTF-8 bytes.
pub open spec fn blob_bytes(text: Seq<u8>) -> Option<Seq<u8>> {
    hex_decoded(without_prefix(without_quotes(text)))
}

/// Calls `hex::decode` on `digits`.
///
/// The crate fails on an odd number of digits and on any byte that is not
/// one of `0-9`, `a-f`, `A-F`; else it packs each pair of digits into one
/// byte, the first digit in the high half.
#[verifier::external_body]
pub(crate) fn hex_decode(digits: &[u8]) -> (r: Result<Vec<u8>, hex::FromHexError>)
    ensures
        match r {
            Ok(bytes) => hex_decoded(digits@) == Some(bytes@),
            Err(_) => hex_decoded(digits@) is None,
        },
{
    hex::decode(digits)
}

/// Takes the quotes and the `0x` off `text`.
pub fn strip_wrapping(text: &[u8]) -> (digits: &[u8])
    ensures
        digits@ == without_prefix(without_quotes(text@)),
{
    let mut from: usize = 0;
    let mut to: usize = text.len();
    assert(text@.subrange(0, to as int) =~= text@);
    while from < to && text[from] == QUOTE
        invariant
            from <= to == text@.len(),
            without_quotes(text@) == without_quotes(text@.subrange(from as int, to as int)),
        decreases to - from,
    {
        assert(text@.subrange(from as int, to as int).skip(1) =~= text@.subrange(
            from + 1,
            to as int,
        ));
        from = from + 1;
    }
    while from < to && text[to - 1] == QUOTE
        invariant
            from <= to <= text@.len(),
            from < to ==> text@[from as int] != QUOTE,
            without_quotes(text@) == without_quotes(text@.subrange(from as int, to as int)),
        decreases to - from,
    {
        assert(text@.subrange(from as int, to as int).drop_last() =~= text@.subrange(
            from as int,
            to - 1,
        ));
        to = to - 1;
    }
    assert(without_quotes(text@) == text@.subrange(from as int, to as int));
    let ghost bare = text@.subrange(from as int, to as int);
    let ghost start = from;
    assert(bare.subrange(0, bare.len() as int) =~= bare);
    while to - from >= 2 && text[from] == 0x30 && text[from + 1] == 0x78
        invariant
            start <= from <= to <= text@.len(),
            bare == text@.subrange(start as int, to as int),
            without_prefix(bare) == without_prefix(text@.subrange(from as int, to as int)),
        decreases to - from,
    {
        assert(text@.subrange(from as int, to as int).skip(2) =~= text@.subrange(
            from + 2,
            to as int,
        ));
        from = from + 2;
    }
    slice_subrange(text, from, to)
}

/// Decodes the text of one blob: takes off the quotes and the `0x` that may
/// wrap it, and turns the hexadecimal digits into bytes.
pub fn hexstr_to_vec(hexstr: &str) -> (r: Result<Vec<u8>, WaitError>)
    ensures
        match r {
            Ok(bytes) => blob_bytes(encode_utf8(hexstr@)) == Some(bytes@),
            Err(e) => e == WaitError::Malformed && blob_bytes(encode_utf8(hexstr@)) is None,
        },
{
    match hex_decode(strip_wrapping(hexstr.as_bytes())) {
        Ok(bytes) => Ok(bytes),
        Err(_) => Err(WaitError::Malformed),
    }
}

} // verus!
