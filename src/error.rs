//! Errors of the codecs and of content resolution.
use vstd::prelude::*;

use crate::blte::EncodingMode;

verus! {

/// A structural failure while parsing a binary table.
#[derive(Debug, Clone, Copy, PartialEq, Eq, Structural)]
pub enum FormatError {
    /// The leading tag is not the one the format requires.
    BadMagic,
    /// Fewer bytes are present than the table declares.
    Truncated,
    /// A field holds a value the format does not allow.
    Malformed,
}

/// A failure while decompressing the chunks of a block table.
#[derive(Debug, Clone, Copy, PartialEq, Eq, Structural)]
pub enum DecodeError {
    /// The zlib stream of the chunk at this index is malformed.
    Inflate(usize),
    /// A chunk uses an encoding mode this codec does not decode.
    Unsupported(EncodingMode),
    /// The chunk at this index did not produce its declared decompressed size.
    SizeMismatch(usize),
}

/// A failure while resolving a content key to its bytes.
#[derive(Debug, Clone, Copy, PartialEq, Eq, Structural)]
pub enum ResolutionError {
    /// No entry of the encoding manifest has this content key.
    ContentKeyNotFound,
    /// The matching entry lists no encoding key.
    NoEncodingKey,
    /// The fetched container could not be parsed.
    Format(FormatError),
    /// The fetched container could not be decompressed.
    Decode(DecodeError),
}

} // verus!
