//! A point-to-point packet framing protocol for byte-oriented links.
//!
//! A [`Package`] is written to the wire as one frame: a start byte, the
//! sender's and the receiver's address, a command, the payload length, the
//! payload, a CRC-8 over everything after the start byte, and a stop byte.
//! [`LwPkt`] builds frames and finds them again in a stream of bytes, however
//! the stream is cut into messages, as long as its read buffer has room for
//! what arrives; [`LwPktRaw`] is the other end of the two bounded channels
//! through which a transport takes and delivers raw bytes.
use vstd::prelude::*;

pub mod channel;
pub mod codec;
pub mod crc;
pub mod decoder;
pub mod error;
pub mod frame;
pub mod laws;
pub mod raw;
pub mod ring;
pub mod scan;

pub use crate::codec::DecodeStatus;
pub use crate::codec::LwPkt;
pub use crate::error::check_result;
pub use crate::error::Error;
pub use crate::frame::Package;
pub use crate::raw::LwPktRaw;
pub use crate::ring::LwRb;
