//! The big-endian 16-bit sprite format: a file of raw big-endian pixel
//! words, always in the 5-6-5 layout of that family.

use crate::buffer::ByteOrder;
use crate::error::FormatError;
use crate::file::{outcome, SpriteInfo};
use crate::format::{bytes_outcome, words};
use bytes::Bytes;
use vstd::prelude::*;

verus! {

/// Reads a sprite file of this format.
pub fn decode(contents: &[u8]) -> (result: Result<SpriteInfo, FormatError>)
    ensures
        outcome(result) == words::decoded(contents@, ByteOrder::Big),
{
    words::decode(contents, ByteOrder::Big)
}

/// Writes a sprite as a file of this format. The pixel layout of the sprite
/// plays no part.
pub fn encode(sprite_info: SpriteInfo) -> (result: Result<Bytes, FormatError>)
    ensures
        bytes_outcome(result) == words::encoded(sprite_info@, ByteOrder::Big),
{
    words::encode(sprite_info, ByteOrder::Big)
}

} // verus!
