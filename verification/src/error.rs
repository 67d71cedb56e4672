//! The errors of decoding and of waiting.

use vstd::prelude::*;

verus! {

/// Why a blob of event records could not be decoded.
#[derive(Debug, PartialEq, Eq)]
pub enum DecodeError {
    /// A discriminator names nothing that is known: a phase that does not
    /// exist, a module that the schema does not list, or an event that the
    /// module does not have.
    UnknownVariant,
    /// The blob ends, or holds no valid encoding, where a value is expected.
    Truncated,
    /// The schema names an argument type whose size nothing resolves.
    UnknownType(String),
}

/// A `DecodeError` as contracts see it: the type name as its characters.
pub enum DecodeErrorView {
    UnknownVariant,
    Truncated,
    UnknownType(Seq<char>),
}

impl View for DecodeError {
    type V = DecodeErrorView;

    open spec fn view(&self) -> DecodeErrorView {
        match self {
            DecodeError::UnknownVariant => DecodeErrorView::UnknownVariant,
            DecodeError::Truncated => DecodeErrorView::Truncated,
            DecodeError::UnknownType(name) => DecodeErrorView::UnknownType(name@),
        }
    }
}

/// Why a registration was turned down.
#[derive(Debug, Clone, Copy, PartialEq, Eq, Structural)]
pub enum RegistrationError {
    /// The rule describes no size: a width of zero.
    InvalidSize,
    /// The name is already bound to another rule.
    Conflict,
}

/// Why a wait ended without its result, or why one blob was passed over.
#[derive(Debug, Clone, Copy, PartialEq, Eq, Structural)]
pub enum WaitError {
    /// The feed is closed for good; no further blob will come.
    SourceClosed,
    /// A blob is not the hexadecimal text of a byte string.
    Malformed,
    /// The awaited event came, and its argument bytes do not fill the
    /// target structure exactly.
    PayloadMismatch,
}

} // verus!
