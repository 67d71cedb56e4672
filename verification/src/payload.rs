//! Typed event arguments.
//!
//! The decoder hands out the argument bytes of an event as they are. A
//! caller that knows the event gives them a shape: a structure of fixed
//! layout that the bytes must fill exactly.

use crate::error::WaitError;
use crate::events::RawEvent;
use vstd::prelude::*;

verus! {

/// A structure of fixed layout that is decoded from the argument bytes of
/// an event.
pub trait EventArgs: Sized {
    /// The number of bytes that the structure takes on the wire.
    spec fn width() -> nat;

    /// Whether the bytes `data` decode to a value of the structure.
    spec fn accepts(data: Seq<u8>) -> bool;

    /// Whether `value` is what the bytes `data` decode to.
    spec fn decodes(data: Seq<u8>, value: Self) -> bool;

    /// Decoding is strict: bytes that decode are exactly as many as the
    /// structure takes, no more and no fewer.
    proof fn lemma_decoding_is_strict(data: Seq<u8>)
        requires
            Self::accepts(data),
        ensures
            data.len() == Self::width(),
    ;

    /// Decodes `data`: the value that it decodes to, or `None` where it
    /// decodes to none.
    fn decode(data: &[u8]) -> (r: Option<Self>)
        ensures
            r is Some <==> Self::accepts(data@),
            r matches Some(value) ==> Self::decodes(data@, value),
    ;
}

/// Gives the argument bytes of `raw` the shape `E`.
///
/// The bytes must fill the structure exactly: with bytes left over, or with
/// too few, the result is `PayloadMismatch` and no structure at all.
pub fn decode_arguments<E: EventArgs>(raw: &RawEvent) -> (r: Result<E, WaitError>)
    ensures
        r is Ok <==> E::accepts(raw.data@),
        r matches Ok(value) ==> E::decodes(raw.data@, value),
        r matches Err(e) ==> e == WaitError::PayloadMismatch,
        raw.data@.len() != E::width() ==> r is Err,
{
    proof {
        if E::accepts(raw.data@) {
            E::lemma_decoding_is_strict(raw.data@);
        }
    }
    match E::decode(raw.data.as_slice()) {
        Some(value) => Ok(value),
        None => Err(WaitError::PayloadMismatch),
    }
}

/// Argument bytes that are more, or fewer, than the structure takes do not
/// decode.
pub proof fn lemma_payload_must_fit<E: EventArgs>(data: Seq<u8>)
    requires
        data.len() != E::width(),
    ensures
        !E::accepts(data),
{
    if E::accepts(data) {
        E::lemma_decoding_is_strict(data);
    }
}

} // verus!
