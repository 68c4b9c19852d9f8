//! The photo album of the game: a count, then photo after photo. Each photo
//! is a time stamp, a twelve-byte header with its size, one palette index
//! per pixel in rows stored bottom to top, and a comment. The two texts
//! carry their length in front: one byte, or the byte 255 and then 16 bits.
//! The length byte of the comment is the last index of the photo itself.

use crate::buffer::{cursor_over, get_u16_le, get_u32_le, get_u8, le16, le32, remaining, unread};
use crate::error::{FormatError, Violation};
use crate::file::{frame_views, outcome, Frame, FrameView, SpriteInfo, SpriteView};
use crate::format::spr::{unflip, unflipped};
use crate::format::{
    build_indexed_frame, file_header_error, image_error, image_header_error, indexed_frame,
    read_bytes, PixelFormat,
};
use crate::palette::Palette;
use crate::raster::{allocatable, can_allocate, lemma_product_bounded};
use crate::sequence::{collect, lemma_collect_failed};
use bytes::Bytes;
use vstd::prelude::*;

verus! {

/// Where a text ends whose length byte was `prefix` and whose further bytes
/// start at `at`.
pub open spec fn text_end(bytes: Seq<u8>, at: int, prefix: int) -> int {
    if prefix == 255 {
        at + 2 + le16(bytes.skip(at))
    } else {
        at + prefix
    }
}

/// Whether the file holds all of such a text.
pub open spec fn text_held(bytes: Seq<u8>, at: int, prefix: int) -> bool {
    if prefix == 255 {
        at + 2 <= bytes.len() && text_end(bytes, at, prefix) <= bytes.len()
    } else {
        text_end(bytes, at, prefix) <= bytes.len()
    }
}

/// Where the header of the photo at `at` starts: behind its time stamp.
pub open spec fn header_at(bytes: Seq<u8>, at: int) -> int {
    text_end(bytes, at + 1, bytes[at] as int)
}

/// The width of the photo at `at`.
pub open spec fn photo_width(bytes: Seq<u8>, at: int) -> int {
    le32(bytes.skip(header_at(bytes, at)))
}

/// The height of the photo at `at`.
pub open spec fn photo_height(bytes: Seq<u8>, at: int) -> int {
    le32(bytes.skip(header_at(bytes, at) + 4))
}

/// Where the indexes of the photo at `at` end and its comment starts.
pub open spec fn comment_at(bytes: Seq<u8>, at: int) -> int {
    header_at(bytes, at) + 12 + photo_width(bytes, at) * photo_height(bytes, at)
}

/// The length byte of the comment of the photo at `at`: the last index of
/// the photo, or 0 for a photo without pixels.
pub open spec fn comment_prefix(bytes: Seq<u8>, at: int) -> int {
    if photo_width(bytes, at) * photo_height(bytes, at) > 0 {
        bytes[comment_at(bytes, at) - 1] as int
    } else {
        0
    }
}

/// Where the photo at `at` ends.
pub open spec fn photo_end(bytes: Seq<u8>, at: int) -> int {
    text_end(bytes, comment_at(bytes, at), comment_prefix(bytes, at))
}

/// Where photo `index` starts.
pub open spec fn photo_start(bytes: Seq<u8>, index: nat) -> int
    decreases index,
{
    if index == 0 {
        2
    } else {
        photo_end(bytes, photo_start(bytes, (index - 1) as nat))
    }
}

/// The photo that starts at `at`.
pub open spec fn photo_at(bytes: Seq<u8>, colors: Seq<(u8, u8, u8)>, at: int) -> Result<
    FrameView,
    FormatError,
> {
    let width = photo_width(bytes, at);
    let height = photo_height(bytes, at);
    let data_at = header_at(bytes, at) + 12;
    if at + 1 > bytes.len() || !text_held(bytes, at + 1, bytes[at] as int) {
        Err(FormatError::ImageDataTruncated)
    } else if data_at > bytes.len() {
        Err(FormatError::ImageHeaderTruncated)
    } else if data_at + width * height > bytes.len() {
        Err(FormatError::ImageDataTruncated)
    } else if !allocatable(width, height) {
        Err(FormatError::StructuralViolation(Violation::TooLarge))
    } else if !text_held(bytes, comment_at(bytes, at), comment_prefix(bytes, at)) {
        Err(FormatError::ImageDataTruncated)
    } else {
        Ok(
            indexed_frame(
                colors,
                width as nat,
                height as nat,
                unflipped(bytes.subrange(data_at, data_at + width * height), width, width, height),
            ),
        )
    }
}

/// The photos of a file, as a function of the index.
pub open spec fn photos_of(bytes: Seq<u8>, colors: Seq<(u8, u8, u8)>) -> spec_fn(int) -> Result<
    FrameView,
    FormatError,
> {
    |index: int| photo_at(bytes, colors, photo_start(bytes, index as nat))
}

/// What an album holds: one frame per photo, in a sprite that cannot be
/// written again.
pub open spec fn decoded(bytes: Seq<u8>, colors: Seq<(u8, u8, u8)>) -> Result<
    SpriteView,
    FormatError,
> {
    if bytes.len() < 2 {
        Err(FormatError::FileHeaderTruncated)
    } else {
        match collect(le16(bytes) as nat, photos_of(bytes, colors)) {
            Ok(frames) => Ok(
                SpriteView {
                    frames,
                    pixel_format: PixelFormat::Format565,
                    cols: 0,
                    rows: 0,
                    read_only: true,
                },
            ),
            Err(error) => Err(error),
        }
    }
}

/// Where the characters of such a text start: behind the 16-bit length,
/// if it has one.
pub open spec fn text_start(at: int, prefix: int) -> int {
    if prefix == 255 {
        at + 2
    } else {
        at
    }
}

/// The characters of such a text: one per byte, the byte's value being the
/// character's code.
pub open spec fn text_of(bytes: Seq<u8>, at: int, prefix: int) -> Seq<char> {
    Seq::new(
        (text_end(bytes, at, prefix) - text_start(at, prefix)) as nat,
        |i: int| bytes[text_start(at, prefix) + i] as char,
    )
}

/// Not verified: `String::push`, which appends one character to a text and
/// leaves the rest of it as it was. It panics where the text would grow
/// beyond `isize::MAX` bytes; a character takes at most four.
#[verifier::external_body]
fn push_char(text: &mut String, character: char)
    requires
        4 * (old(text)@.len() + 1) <= isize::MAX,
    ensures
        final(text)@ == old(text)@.push(character),
{
    text.push(character)
}

/// Reads a text. `last_byte` is its length byte where that has been read
/// already.
#[verifier::rlimit(40)]
pub fn read_c_string(buffer: &mut Bytes, last_byte: Option<u8>) -> (read: Result<String, FormatError>)
    ensures
        ({
            let from = unread(*old(buffer));
            let at: int = if last_byte is Some {
                0
            } else {
                1
            };
            let prefix = if last_byte is Some {
                last_byte->0 as int
            } else {
                from[0] as int
            };
            if from.len() >= at && text_held(from, at, prefix) {
                &&& read is Ok
                &&& read->Ok_0@ == text_of(from, at, prefix)
                &&& unread(*final(buffer)) == from.skip(text_end(from, at, prefix))
                &&& at <= text_end(from, at, prefix) <= from.len()
            } else {
                read == Err::<String, FormatError>(FormatError::ImageDataTruncated)
            }
        }),
{
    let ghost from = unread(*buffer);
    let mut string_len: u32;
    match last_byte {
        Some(byte) => {
            string_len = byte as u32;
            proof {
                assert(from.skip(0) =~= from);
            }
        },
        None => {
            if remaining(buffer) < 1 {
                return Err(image_error());
            }
            string_len = get_u8(buffer) as u32;
        },
    }
    let ghost at: int = if last_byte is Some {
        0
    } else {
        1
    };
    let ghost prefix = string_len as int;
    if string_len == 255 {
        if remaining(buffer) < 2 {
            return Err(image_error());
        }
        string_len = get_u16_le(buffer) as u32;
        proof {
            assert(from.skip(at).skip(2) =~= from.skip(at + 2));
        }
    }
    if remaining(buffer) < string_len as usize {
        return Err(image_error());
    }
    let ghost start = text_start(at, prefix);
    let mut text = String::new();
    let mut i: u32 = 0;
    while i < string_len
        invariant
            0 <= i <= string_len <= 65535,
            0 <= start,
            start + string_len <= from.len(),
            unread(*buffer) == from.skip(start + i),
            text@ == Seq::new(i as nat, |j: int| from[start + j] as char),
        decreases string_len - i,
    {
        let ghost so_far = text@;
        let byte = get_u8(buffer);
        proof {
            assert(from.skip(start + i).skip(1) =~= from.skip(start + i + 1));
        }
        push_char(&mut text, byte as char);
        proof {
            assert(text@ =~= Seq::new((i + 1) as nat, |j: int| from[start + j] as char));
        }
        i += 1;
    }
    Ok(text)
}

/// Reads the photo that the cursor stands at.
#[verifier::rlimit(40)]
fn read_photo(buffer: &mut Bytes, palette: &Palette) -> (read: Result<Frame, FormatError>)
    ensures
        match read {
            Ok(frame) => {
                let from = unread(*old(buffer));
                &&& photo_at(from, palette.colors@, 0) == Ok::<FrameView, FormatError>(frame@)
                &&& unread(*final(buffer)) == from.skip(photo_end(from, 0))
                &&& 0 <= photo_end(from, 0) <= from.len()
                &&& frame@.wf()
            },
            Err(error) => photo_at(unread(*old(buffer)), palette.colors@, 0) == Err::<
                FrameView,
                FormatError,
            >(error),
        },
{
    let ghost from = unread(*buffer);
    match read_c_string(buffer, None) {
        Ok(_) => {},
        Err(error) => {
            return Err(error);
        },
    }
    let ghost header = header_at(from, 0);
    if remaining(buffer) < 12 {
        return Err(image_header_error());
    }
    let width = get_u32_le(buffer);
    let height = get_u32_le(buffer);
    let _ = get_u32_le(buffer);
    proof {
        assert(from.skip(header).skip(4) =~= from.skip(header + 4));
        assert(from.skip(header + 4).skip(4) =~= from.skip(header + 8));
        assert(from.skip(header + 8).skip(4) =~= from.skip(header + 12));
        lemma_product_bounded(width as int, height as int, u32::MAX as int, u32::MAX as int);
    }
    let needed: u64 = (width as u64) * (height as u64);
    if (remaining(buffer) as u64) < needed {
        return Err(image_error());
    }
    if !can_allocate(width, height) {
        return Err(FormatError::StructuralViolation(Violation::TooLarge));
    }
    let data = read_bytes(buffer, needed as usize);
    proof {
        assert(from.skip(header + 12).take(needed as int) =~= from.subrange(
            header + 12,
            header + 12 + width * height,
        ));
        assert(from.skip(header + 12).skip(needed as int) =~= from.skip(comment_at(from, 0)));
    }
    let last_byte: u8 = if data.len() > 0 {
        data[data.len() - 1]
    } else {
        0
    };
    let color_indexes = unflip(&data, width as u64, width, height);
    let frame = match build_indexed_frame(palette, width, height, color_indexes) {
        Ok(frame) => frame,
        Err(error) => {
            return Err(error);
        },
    };
    let ghost comment = comment_at(from, 0);
    let ghost rest = from.skip(comment);
    proof {
        if rest.len() >= 2 {
            assert(rest.skip(0) =~= from.skip(comment));
        }
    }
    match read_c_string(buffer, Some(last_byte)) {
        Ok(_) => {
            proof {
                let end = text_end(rest, 0, last_byte as int);
                assert(rest.skip(end) =~= from.skip(comment + end));
            }
        },
        Err(error) => {
            return Err(error);
        },
    }
    Ok(frame)
}

/// A photo read at the cursor is the photo of the whole file at the
/// position of the cursor, and ends at the same place.
#[verifier::rlimit(40)]
proof fn lemma_photo_skip(bytes: Seq<u8>, colors: Seq<(u8, u8, u8)>, at: int)
    requires
        0 <= at <= bytes.len(),
    ensures
        photo_at(bytes.skip(at), colors, 0) == photo_at(bytes, colors, at),
        photo_at(bytes, colors, at) is Ok ==> photo_end(bytes.skip(at), 0) + at == photo_end(
            bytes,
            at,
        ),
{
    let rest = bytes.skip(at);
    if at + 1 <= bytes.len() {
        assert(rest[0] == bytes[at]);
        let prefix = bytes[at] as int;
        if prefix != 255 || at + 3 <= bytes.len() {
            assert(rest.skip(1) =~= bytes.skip(at + 1));
        }
        if text_held(bytes, at + 1, prefix) {
            let header = header_at(bytes, at);
            assert(header_at(rest, 0) + at == header);
            if header + 12 <= bytes.len() {
                assert(rest.skip(header - at) =~= bytes.skip(header));
                assert(rest.skip(header - at + 4) =~= bytes.skip(header + 4));
                let width = photo_width(bytes, at);
                let height = photo_height(bytes, at);
                assert(width * height >= 0) by (nonlinear_arith)
                    requires
                        width >= 0,
                        height >= 0,
                ;
                let comment = comment_at(bytes, at);
                if comment <= bytes.len() {
                    assert(rest.subrange(header - at + 12, comment - at) =~= bytes.subrange(
                        header + 12,
                        comment,
                    ));
                    if width * height > 0 {
                        assert(rest[comment - at - 1] == bytes[comment - 1]);
                    }
                    if comment_prefix(bytes, at) != 255 || comment + 2 <= bytes.len() {
                        assert(rest.skip(comment - at) =~= bytes.skip(comment));
                    }
                }
            }
        }
    }
}

/// Reads a photo album.
pub fn decode(contents: &[u8], palette: &Palette) -> (result: Result<SpriteInfo, FormatError>)
    ensures
        outcome(result) == decoded(contents@, palette.colors@),
{
    let ghost bytes = contents@;
    let ghost colors = palette.colors@;
    let ghost photos = photos_of(bytes, colors);
    let mut buffer = cursor_over(contents);
    if remaining(&buffer) < 2 {
        return Err(file_header_error());
    }
    let image_count = get_u16_le(&mut buffer);
    let mut frames: Vec<Frame> = Vec::new();
    let mut k: u16 = 0;
    assert(frame_views(frames@) =~= Seq::<FrameView>::empty());
    while k < image_count
        invariant
            0 <= k <= image_count,
            bytes == contents@,
            colors == palette.colors@,
            photos == photos_of(bytes, colors),
            bytes.len() >= 2,
            image_count == le16(bytes),
            0 <= photo_start(bytes, k as nat) <= bytes.len(),
            unread(buffer) == bytes.skip(photo_start(bytes, k as nat)),
            collect(k as nat, photos) == Ok::<Seq<FrameView>, FormatError>(frame_views(frames@)),
        decreases image_count - k,
    {
        let ghost at = photo_start(bytes, k as nat);
        proof {
            lemma_photo_skip(bytes, colors, at);
        }
        match read_photo(&mut buffer, palette) {
            Ok(frame) => {
                let ghost before = frame_views(frames@);
                proof {
                    assert(photos(k as int) == Ok::<FrameView, FormatError>(frame@));
                    assert(bytes.skip(at).skip(photo_end(bytes.skip(at), 0)) =~= bytes.skip(
                        photo_end(bytes, at),
                    ));
                }
                frames.push(frame);
                proof {
                    assert(frame_views(frames@) =~= before.push(frame@));
                }
            },
            Err(error) => {
                proof {
                    assert(photos(k as int) == Err::<FrameView, FormatError>(error));
                    assert(collect((k + 1) as nat, photos) == Err::<Seq<FrameView>, FormatError>(
                        error,
                    ));
                    lemma_collect_failed((k + 1) as nat, le16(bytes) as nat, photos);
                }
                return Err(error);
            },
        }
        k += 1;
    }
    Ok(
        SpriteInfo {
            frames,
            pixel_format: PixelFormat::Format565,
            cols: 0,
            rows: 0,
            read_only: true,
        },
    )
}

} // verus!
