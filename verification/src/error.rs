//! The error taxonomy shared by the codec layers.

use vstd::prelude::*;

use crate::picture::PictureError;

verus! {

/// Everything that can go wrong while reading or rewriting a comment header.
#[derive(Debug, Clone)]
#[non_exhaustive]
pub enum Error {
    /// Failed to read an Ogg packet, or the input is not an Ogg stream.
    ReadError,
    /// The stream is an Ogg stream, but not an Opus stream.
    NotOpus,
    /// Expected a packet (for example, the comment header packet), but the
    /// stream ended early.
    MissingPacket,
    /// A piece of data, either a payload field or an encoded picture, was
    /// shorter than its declared length, or a write to the in-memory stream
    /// failed.
    DataError,
    /// A comment was not in `TAG=value` format. The offending line is
    /// carried for convenience.
    MalformedComment(String),
    /// Expected valid UTF-8 but did not receive it. The offending bytes are
    /// carried for convenience.
    UTFError(Vec<u8>),
    /// A field was too big for the comment-header format (more than
    /// `u32::MAX` bytes, or more than `u32::MAX` comments).
    TooBigError,
    /// An error occurred while encoding or decoding a picture.
    PictureError(PictureError),
    /// Raised only on hosts whose native size type is narrower than 32
    /// bits; it cannot arise where `usize` has at least 32 bits.
    PlatformError,
}

} // verus!
