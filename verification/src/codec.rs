//! The SCALE primitives that the event decoder reads: little-endian `u32`s
//! and compact-encoded `u32`s.
//!
//! The decoding itself is done by `parity-scale-codec`. This module states,
//! as functions on byte sequences, what that crate returns, and the rest of
//! the library is proved against these statements.

use parity_scale_codec::{Compact, Decode};
use vstd::prelude::*;

verus! {

/// The error that `parity-scale-codec` reports; nothing is read from it.
#[verifier::external_type_specification]
#[verifier::external_body]
pub struct ExCodecError(parity_scale_codec::Error);

/// The value that the first four bytes of `s` spell as a little-endian `u32`.
pub open spec fn le_u32(s: Seq<u8>) -> u32
    recommends
        s.len() >= 4,
{
    (s[0] as int + s[1] as int * 0x100 + s[2] as int * 0x1_0000 + s[3] as int * 0x100_0000) as u32
}

/// The compact-encoded `u32` at the head of `s`: its value and the number of
/// bytes that it takes, or `None` where `s` is too short or the encoding is
/// not the shortest one for its value.
///
/// The low two bits of the first byte select the width: one byte holding six
/// bits, two bytes holding fourteen, four bytes holding thirty, or a marker
/// byte followed by four bytes.
#[verifier::opaque]
pub open spec fn compact_u32(s: Seq<u8>) -> Option<(u32, nat)> {
    if s.len() < 1 {
        None
    } else if s[0] % 4 == 0 {
        Some(((s[0] / 4) as u32, 1))
    } else if s[0] % 4 == 1 {
        if s.len() < 2 {
            None
        } else {
            let x = (s[0] as int + s[1] as int * 0x100) / 4;
            if x > 0x3f {
                Some((x as u32, 2))
            } else {
                None
            }
        }
    } else if s[0] % 4 == 2 {
        if s.len() < 4 {
            None
        } else {
            let x = le_u32(s) / 4;
            if x > 0x3fff {
                Some((x as u32, 4))
            } else {
                None
            }
        }
    } else if s[0] / 4 != 0 || s.len() < 5 {
        None
    } else {
        let x = le_u32(s.skip(1));
        if x > 0x3fff_ffff {
            Some((x, 5))
        } else {
            None
        }
    }
}

/// A compact `u32` takes between one and five bytes, all of them present.
pub proof fn lemma_compact_u32_width(s: Seq<u8>)
    ensures
        compact_u32(s) matches Some((_, k)) ==> 1 <= k <= 5 && k <= s.len(),
{
    reveal(compact_u32);
}

/// Calls `<u32 as Decode>::decode` of `parity-scale-codec` on `input`.
///
/// The crate reads four bytes and assembles them with `u32::from_le_bytes`;
/// it fails exactly when fewer than four bytes are there. Bytes after the
/// fourth are not looked at.
#[verifier::external_body]
pub(crate) fn scale_u32(input: &[u8]) -> (r: Result<u32, parity_scale_codec::Error>)
    ensures
        r is Ok <==> input@.len() >= 4,
        r matches Ok(x) ==> x == le_u32(input@),
{
    let mut rest = input;
    u32::decode(&mut rest)
}

/// Calls `<Compact<u32> as Decode>::decode` of `parity-scale-codec` on
/// `input` and hands back the value with the input that is left.
///
/// The crate accepts exactly the encodings that `compact_u32` describes and
/// advances the input past the bytes of the value.
#[verifier::external_body]
pub(crate) fn scale_compact_u32<'a>(input: &'a [u8]) -> (r: Result<
    (u32, &'a [u8]),
    parity_scale_codec::Error,
>)
    ensures
        r is Ok <==> compact_u32(input@) is Some,
        r matches Ok((n, rest)) ==> compact_u32(input@) matches Some((m, k)) && n == m && rest@
            == input@.skip(k as int),
{
    let mut rest = input;
    let n = Compact::<u32>::decode(&mut rest)?;
    Ok((n.0, rest))
}

} // verus!
