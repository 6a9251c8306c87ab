//! Outcomes of the protocol's operations and their numeric status codes.
use vstd::prelude::*;

verus! {

/// What an operation of the protocol can report.
///
/// `InProgress`, `Valid` and `WaitData` describe the state of the decoder and
/// are no failures; the others are.
#[derive(Debug, PartialEq, Eq, Clone, Copy, Structural)]
pub enum Error {
    /// A failure that has no kind of its own.
    ERR,
    /// Bytes were consumed and a frame is under way but not complete.
    InProgress,
    /// A frame was received in full and its checksum and stop byte were right.
    Valid,
    /// The checksum received differs from the one computed over the frame.
    ErrorCRC,
    /// The byte after the checksum is not the stop byte.
    ErrStop,
    /// There was nothing to consume, or nothing but bytes between frames.
    WaitData,
    /// A buffer or a channel has no room for what was to be stored.
    ErrorMem,
    /// The other end of the channel is gone.
    ErrorClosedRaw,
}

/// The status code of an operation that succeeded.
pub const STATUS_OK: u32 = 0;

impl Error {
    /// The numeric status code of this outcome.
    pub open spec fn code(self) -> u32 {
        match self {
            Error::ERR => 1,
            Error::InProgress => 2,
            Error::Valid => 3,
            Error::ErrorCRC => 4,
            Error::ErrStop => 5,
            Error::WaitData => 6,
            Error::ErrorMem => 7,
            Error::ErrorClosedRaw => 8,
        }
    }

    /// Whether this outcome is a failure rather than a state of the decoder.
    pub open spec fn is_failure(self) -> bool {
        !(self == Error::InProgress || self == Error::Valid || self == Error::WaitData)
    }

    /// The outcome that a status code of the protocol stands for. The codes
    /// 1 to 7 are the protocol's; no code stands for a closed channel.
    pub fn from(value: u32) -> (e: Error)
        requires
            1 <= value <= 7,
        ensures
            e.code() == value,
    {
        if value == 1 {
            Error::ERR
        } else if value == 2 {
            Error::InProgress
        } else if value == 3 {
            Error::Valid
        } else if value == 4 {
            Error::ErrorCRC
        } else if value == 5 {
            Error::ErrStop
        } else if value == 6 {
            Error::WaitData
        } else {
            Error::ErrorMem
        }
    }

    /// The status code of this outcome, as a number.
    pub fn status(&self) -> (c: u32)
        ensures
            c == self.code(),
    {
        match self {
            Error::ERR => 1,
            Error::InProgress => 2,
            Error::Valid => 3,
            Error::ErrorCRC => 4,
            Error::ErrStop => 5,
            Error::WaitData => 6,
            Error::ErrorMem => 7,
            Error::ErrorClosedRaw => 8,
        }
    }
}

/// Turns a status code into a `Result`: `Ok` for [`STATUS_OK`], else the
/// outcome that the code stands for.
pub fn check_result(res: u32) -> (r: Result<(), Error>)
    requires
        res <= 7,
    ensures
        r is Ok <==> res == STATUS_OK,
        r matches Err(e) ==> e.code() == res,
{
    if res == STATUS_OK {
        Ok(())
    } else {
        Err(Error::from(res))
    }
}

} // verus!
