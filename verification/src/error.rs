//! What the encoder and the decoder report instead of a result.

use vstd::prelude::*;

verus! {

/// Why a value was not encoded.
#[derive(Debug, Clone, Copy, PartialEq, Eq, Structural)]
pub enum EncodeError {
    /// The value holds a variant that has no wire form.
    UnsupportedVariant,
}

/// In what way a buffer breaks the grammar.
#[derive(Debug, Clone, Copy, PartialEq, Eq, Structural)]
pub enum Malformed {
    /// The first byte of a frame is no tag.
    UnknownTag,
    /// An integer, a length or a count is no numeral, or is out of range.
    InvalidNumber,
    /// A length or a count is negative and does not mark an absent value.
    NegativeLength,
    /// A text is not valid UTF-8, or holds a lone carriage return or line
    /// feed.
    InvalidText,
    /// A boolean is neither `t` nor `f`.
    InvalidBoolean,
    /// Something stands between the tag of a null and its terminator.
    InvalidNull,
    /// The payload of a bulk string is not followed by a terminator.
    MissingTerminator,
    /// Collections nest deeper than the decoder accepts.
    NestingTooDeep,
    /// A frame of another kind stands where a map or the key of a map
    /// entry is required.
    UnexpectedTag,
}

/// Why no frame was decoded.
#[derive(Debug, Clone, Copy, PartialEq, Eq, Structural)]
pub enum DecodeError {
    /// The buffer ends before the frame does. Nothing was consumed: decode
    /// again from the same offset once more bytes have arrived.
    Incomplete,
    /// The buffer breaks the grammar, and no further byte can mend it.
    Malformed(Malformed),
}

} // verus!
