//! What can go wrong.

use vstd::prelude::*;

verus! {

/// Errors that can happen during decoding.
///
/// Two errors are possible when decoding, apart from those of reading: the content bytes might not
/// have the right hash, or the encoding might not be as long as it is supposed to be.
#[derive(Clone, Copy, Debug, PartialEq, Eq, Structural)]
pub enum Error {
    HashMismatch,
    Truncated,
}

impl Error {
    /// The error in words.
    pub fn message(&self) -> (message: &'static str)
        ensures
            *self == Error::HashMismatch ==> message@ == "hash mismatch"@,
            *self == Error::Truncated ==> message@ == "truncated encoding"@,
    {
        match self {
            Error::HashMismatch => "hash mismatch",
            Error::Truncated => "truncated encoding",
        }
    }
}

/// The class of a [`ReadError`].
#[derive(Clone, Copy, Debug, PartialEq, Eq, Structural)]
pub enum ErrorKind {
    InvalidData,
    UnexpectedEof,
    InvalidInput,
    Other,
}

/// Errors of a reader: those of decoding, that of a source that ends too early, and those of a
/// seek.
#[derive(Clone, Copy, Debug, PartialEq, Eq, Structural)]
pub enum ReadError {
    Decode(Error),
    UnexpectedEof,
    SeekBeforeBeginning,
    SeekTargetOverflow,
    SeekOffsetOverflow,
}

impl ReadError {
    pub open spec fn spec_kind(self) -> ErrorKind {
        match self {
            ReadError::Decode(Error::HashMismatch) => ErrorKind::InvalidData,
            ReadError::Decode(Error::Truncated) => ErrorKind::UnexpectedEof,
            ReadError::UnexpectedEof => ErrorKind::UnexpectedEof,
            ReadError::SeekBeforeBeginning => ErrorKind::InvalidInput,
            ReadError::SeekTargetOverflow => ErrorKind::InvalidInput,
            ReadError::SeekOffsetOverflow => ErrorKind::Other,
        }
    }

    /// The class of the error.
    pub fn kind(&self) -> (kind: ErrorKind)
        ensures
            kind == self.spec_kind(),
    {
        match self {
            ReadError::Decode(Error::HashMismatch) => ErrorKind::InvalidData,
            ReadError::Decode(Error::Truncated) => ErrorKind::UnexpectedEof,
            ReadError::UnexpectedEof => ErrorKind::UnexpectedEof,
            ReadError::SeekBeforeBeginning => ErrorKind::InvalidInput,
            ReadError::SeekTargetOverflow => ErrorKind::InvalidInput,
            ReadError::SeekOffsetOverflow => ErrorKind::Other,
        }
    }

    /// The error in words.
    pub fn message(&self) -> (message: &'static str)
        ensures
            *self == ReadError::Decode(Error::HashMismatch) ==> message@ == "hash mismatch"@,
            *self == ReadError::Decode(Error::Truncated) ==> message@ == "truncated encoding"@,
            *self == ReadError::UnexpectedEof ==> message@ == "failed to fill whole buffer"@,
            *self == ReadError::SeekBeforeBeginning ==> message@ == "seek before beginning"@,
            *self == ReadError::SeekTargetOverflow ==> message@ == "seek target overflowed u64"@,
            *self == ReadError::SeekOffsetOverflow ==> message@ == "seek offset overflowed u64"@,
    {
        match self {
            ReadError::Decode(error) => error.message(),
            ReadError::UnexpectedEof => "failed to fill whole buffer",
            ReadError::SeekBeforeBeginning => "seek before beginning",
            ReadError::SeekTargetOverflow => "seek target overflowed u64",
            ReadError::SeekOffsetOverflow => "seek offset overflowed u64",
        }
    }
}

impl From<Error> for ReadError {
    fn from(error: Error) -> (read_error: ReadError) {
        ReadError::Decode(error)
    }
}

impl vstd::std_specs::convert::FromSpecImpl<Error> for ReadError {
    open spec fn obeys_from_spec() -> bool {
        true
    }

    open spec fn from_spec(error: Error) -> ReadError {
        ReadError::Decode(error)
    }
}

/// A position in an encoding as an offset to seek to.
pub fn cast_offset(offset: u128) -> (result: Result<u64, ReadError>)
    ensures
        result == (if offset <= u64::MAX {
            Ok::<u64, ReadError>(offset as u64)
        } else {
            Err(ReadError::SeekOffsetOverflow)
        }),
{
    if offset > u64::MAX as u128 {
        Err(ReadError::SeekOffsetOverflow)
    } else {
        Ok(offset as u64)
    }
}

/// A seek target that is given relative to `position`.
pub open spec fn offset_target(position: int, offset: int) -> Result<u64, ReadError> {
    if position + offset < 0 {
        Err(ReadError::SeekBeforeBeginning)
    } else if position + offset > u64::MAX {
        Err(ReadError::SeekTargetOverflow)
    } else {
        Ok((position + offset) as u64)
    }
}

/// Adds a signed offset to a position.
pub fn add_offset(position: u64, offset: i64) -> (result: Result<u64, ReadError>)
    ensures
        result == offset_target(position as int, offset as int),
        position + offset < 0 ==> result == Err::<u64, ReadError>(ReadError::SeekBeforeBeginning),
        position + offset > u64::MAX ==> result == Err::<u64, ReadError>(
            ReadError::SeekTargetOverflow,
        ),
        0 <= position + offset <= u64::MAX ==> result == Ok::<u64, ReadError>(
            (position + offset) as u64,
        ),
{
    let sum: i128 = position as i128 + offset as i128;
    if sum < 0 {
        Err(ReadError::SeekBeforeBeginning)
    } else if sum > u64::MAX as i128 {
        Err(ReadError::SeekTargetOverflow)
    } else {
        Ok(sum as u64)
    }
}

} // verus!
