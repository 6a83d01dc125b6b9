//! Error kinds surfaced by the codecs.

use vstd::prelude::*;

verus! {

/// Why a record could not be read from a byte source.
#[derive(Clone, Copy, Debug, PartialEq, Eq, Structural)]
pub enum DecodeError {
    /// The source ended before the record did.
    UnexpectedEof,
    /// A value in the source does not fit the width it is read into.
    Overflow,
    /// The header byte holds a bit pattern that no encoder emits.
    Malformed,
}

/// Why a record could not be written.
#[derive(Clone, Copy, Debug, PartialEq, Eq, Structural)]
pub enum EncodeError {
    /// The delta needs more bytes than the header of the codec can announce.
    DeltaTooLarge,
    /// The record carries no payload of the kind the codec writes.
    WrongKind,
    /// The field mask does not fit the narrow (32-bit) layout.
    MaskTooWide,
}

} // verus!
