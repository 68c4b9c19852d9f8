//! The plain 16-bit sprite format: a file of raw little-endian pixel words
//! whose header flag selects the pixel layout.

use crate::buffer::ByteOrder;
use crate::error::FormatError;
use crate::file::{outcome, SpriteInfo};
use crate::format::{bytes_outcome, words};
use bytes::Bytes;
use vstd::prelude::*;

verus! {

/// Reads a sprite file of this format.
pub fn decode(contents: &[u8]) -> (result: Result<SpriteInfo, FormatError>)
    ensures
        outcome(result) == words::decoded(contents@, ByteOrder::Little),
{
    words::decode(contents, ByteOrder::Little)
}

/// Writes a sprite as a file of this format.
pub fn encode(sprite_info: SpriteInfo) -> (result: Result<Bytes, FormatError>)
    ensures
        bytes_outcome(result) == words::encoded(sprite_info@, ByteOrder::Little),
{
    words::encode(sprite_info, ByteOrder::Little)
}

} // verus!
