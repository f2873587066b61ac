use vstd::prelude::*;

use crate::format::Kind;

verus! {

/// All errors that encoding or decoding may return.
#[derive(Debug, Clone, PartialEq, Eq)]
pub enum Error {
    /// Payload is not a Pot payload.
    NotAPot,
    /// Data was written with an incompatible version.
    IncompatibleVersion,
    /// A generic error raised by the code driving the codec.
    Message(String),
    /// Extra data appeared at the end of the input.
    TrailingBytes,
    /// Expected more data but encountered the end of the input.
    Eof,
    /// A numerical value could not be handled without losing precision or truncation.
    ImpreciseCastWouldLoseData,
    /// The underlying reader or writer failed; holds its description.
    Io(String),
    /// A sequence of unknown size cannot be serialized.
    SequenceSizeMustBeKnown,
    /// A symbol or string payload is not valid UTF-8.
    InvalidUtf8,
    /// An unknown kind was encountered.
    InvalidKind(u8),
    /// Encountered an unexpected atom kind: the kind found, then the kind wanted.
    UnexpectedKind(Kind, Kind),
    /// An integer or float atom announced a byte length that is not supported.
    UnsupportedByteCount(Kind, usize),
    /// A requested symbol id was not found.
    UnknownSymbol(u64),
    /// A special atom carried an argument that names no special value.
    UnknownSpecial(u64),
    /// An atom header was incorrectly formatted.
    InvalidAtomHeader,
    /// The amount of data read exceeds the configured maximum number of bytes.
    TooManyBytesRead,
}

} // verus!
