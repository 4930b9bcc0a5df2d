//! A netstring framing codec (`<decimal-length>:<payload>,`) together with a
//! bounded handoff queue, both with verified contracts.

pub mod buffer;
pub mod codec;
pub mod laws;
pub mod queue;

use vstd::prelude::*;

verus! {

/// The reason a codec operation failed. Every failure is terminal for the
/// codec instance that reported it: the byte stream is no longer
/// interpretable and the connection should be considered unusable.
#[derive(Clone, Copy, Debug, PartialEq, Eq, Structural)]
pub enum CodecError {
    /// An encode was asked for a payload at or above the configured limit,
    /// or a decode saw a declared length exceeding the limit.
    PayloadTooLarge,
    /// No `:` delimiter was found within the digit budget while a length
    /// field was awaited.
    LengthFieldTooLong,
    /// A byte of the length field was not an ASCII decimal digit, or the
    /// length field was empty.
    InvalidLengthDigits,
    /// The byte immediately after the declared-length payload was not `,`.
    MissingTrailingDelimiter,
}

} // verus!
