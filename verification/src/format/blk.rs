//! The tiled background format: a grid of tiles, each 128 by 128 pixels,
//! stored as raw little-endian pixel words. The file header gives the pixel
//! layout, the columns and rows of the grid, and the tile count.

use crate::buffer::{
    cursor_over, freeze, get_u16_le, get_u32_le, le16, le16_bytes, le32, le32_bytes, put_u16_le,
    put_u32_le, remaining, share, unread, unsplit, writer, written,
};
use crate::error::{FormatError, Violation};
use crate::file::{frame_views, outcome, Frame, FrameView, SpriteInfo, SpriteView};
use crate::format::{
    bytes_outcome, file_header_error, image_header_error, raw_bytes, read_raw_image, stored_image,
    write_raw_image, PixelFormat, RawStyle,
};
use crate::raster::ImageView;
use crate::sequence::{collect, join, joined_len, lemma_collect_failed};
use bytes::{Bytes, BytesMut};
use vstd::prelude::*;

verus! {

struct FileHeader {
    pixel_format: u32,
    cols: u16,
    rows: u16,
    image_count: u16,
}

struct ImageHeader {
    first_line_offset: u64,
    width: u16,
    height: u16,
}

/// The pixel layout that the flag of a file header selects.
pub open spec fn layout_of(flag: int) -> PixelFormat {
    if flag == 0 {
        PixelFormat::Format555
    } else {
        PixelFormat::Format565
    }
}

/// The number of tile headers that the file header declares.
pub open spec fn header_count(bytes: Seq<u8>) -> nat
    recommends
        bytes.len() >= 10,
{
    le16(bytes.skip(8)) as nat
}

/// Where tile header `index` starts.
pub open spec fn header_start(index: int) -> int {
    10 + 8 * index
}

/// Where the pixels of tile `index` start. Its header stores the offset four
/// bytes short.
pub open spec fn tile_offset(bytes: Seq<u8>, index: int) -> int {
    le32(bytes.skip(header_start(index))) + 4
}

/// What tile header `index` gives: the place of the pixels of its tile. A
/// header that the file does not hold in full is rejected, and so is one
/// that declares another size than 128 by 128 pixels.
pub open spec fn header_at(bytes: Seq<u8>, index: int) -> Result<int, FormatError> {
    let header = bytes.skip(header_start(index));
    if bytes.len() < header_start(index) + 8 {
        Err(FormatError::ImageHeaderTruncated)
    } else if le16(header.skip(4)) != 128 || le16(header.skip(6)) != 128 {
        Err(FormatError::StructuralViolation(Violation::WrongTileSize))
    } else {
        Ok(tile_offset(bytes, index))
    }
}

/// The tile headers of a file, as a function of the tile index.
pub open spec fn headers_in(bytes: Seq<u8>) -> spec_fn(int) -> Result<int, FormatError> {
    |index: int| header_at(bytes, index)
}

/// The tile whose pixels start at `offset`.
pub open spec fn tile_at(bytes: Seq<u8>, offset: int) -> Result<FrameView, FormatError> {
    match stored_image(bytes, offset, 128, 128, RawStyle::Plain(layout_of(le32(bytes)))) {
        Ok(image) => Ok(FrameView { image, color_indexes: Seq::empty() }),
        Err(error) => Err(error),
    }
}

/// The tiles of a file, as a function of the tile index.
pub open spec fn tiles_of(bytes: Seq<u8>) -> spec_fn(int) -> Result<FrameView, FormatError> {
    |index: int| tile_at(bytes, tile_offset(bytes, index))
}

/// What a file of this format holds. A file shorter than its ten-byte header
/// is rejected. The tile headers are read first, as many as the file header
/// declares, and the first that is cut short or declares another size than
/// 128 by 128 gives the error. Then the tiles are read in header order, and
/// the first whose pixels do not lie inside the file gives the error.
pub open spec fn decoded(bytes: Seq<u8>) -> Result<SpriteView, FormatError> {
    if bytes.len() < 10 {
        Err(FormatError::FileHeaderTruncated)
    } else {
        match collect(header_count(bytes), headers_in(bytes)) {
            Err(error) => Err(error),
            Ok(_) => match collect(header_count(bytes), tiles_of(bytes)) {
                Ok(frames) => Ok(
                    SpriteView {
                        frames,
                        pixel_format: layout_of(le32(bytes)),
                        cols: le16(bytes.skip(4)),
                        rows: le16(bytes.skip(6)),
                        read_only: false,
                    },
                ),
                Err(error) => Err(error),
            },
        }
    }
}

fn read_file_header(buffer: &mut Bytes) -> (read: Result<FileHeader, FormatError>)
    ensures
        unread(*old(buffer)).len() < 10 ==> read == Err::<FileHeader, FormatError>(
            FormatError::FileHeaderTruncated,
        ),
        unread(*old(buffer)).len() >= 10 ==> read is Ok && read->Ok_0.pixel_format == le32(
            unread(*old(buffer)),
        ) && read->Ok_0.cols == le16(unread(*old(buffer)).skip(4)) && read->Ok_0.rows == le16(
            unread(*old(buffer)).skip(6),
        ) && read->Ok_0.image_count == le16(unread(*old(buffer)).skip(8)) && unread(*final(buffer))
            == unread(*old(buffer)).skip(10),
{
    if remaining(buffer) < 10 {
        return Err(file_header_error());
    }
    let ghost bytes = unread(*buffer);
    let pixel_format = get_u32_le(buffer);
    let cols = get_u16_le(buffer);
    let rows = get_u16_le(buffer);
    let image_count = get_u16_le(buffer);
    proof {
        assert(bytes.skip(4).skip(2) =~= bytes.skip(6));
        assert(bytes.skip(6).skip(2) =~= bytes.skip(8));
        assert(bytes.skip(8).skip(2) =~= bytes.skip(10));
    }
    Ok(FileHeader { pixel_format, cols, rows, image_count })
}

fn read_image_header(buffer: &mut Bytes) -> (read: Result<ImageHeader, FormatError>)
    ensures
        unread(*old(buffer)).len() < 8 ==> read == Err::<ImageHeader, FormatError>(
            FormatError::ImageHeaderTruncated,
        ),
        unread(*old(buffer)).len() >= 8 ==> unread(*final(buffer)) == unread(*old(buffer)).skip(8),
        unread(*old(buffer)).len() >= 8 ==> {
            let from = unread(*old(buffer));
            if le16(from.skip(4)) == 128 && le16(from.skip(6)) == 128 {
                read is Ok && read->Ok_0.first_line_offset == le32(from) + 4 && read->Ok_0.width
                    == 128 && read->Ok_0.height == 128
            } else {
                read == Err::<ImageHeader, FormatError>(
                    FormatError::StructuralViolation(Violation::WrongTileSize),
                )
            }
        },
{
    if remaining(buffer) < 8 {
        return Err(image_header_error());
    }
    let ghost bytes = unread(*buffer);
    let first_line_offset: u64 = get_u32_le(buffer) as u64 + 4;
    let width = get_u16_le(buffer);
    let height = get_u16_le(buffer);
    proof {
        assert(bytes.skip(4).skip(2) =~= bytes.skip(6));
        assert(bytes.skip(6).skip(2) =~= bytes.skip(8));
    }
    if width != 128 || height != 128 {
        return Err(FormatError::StructuralViolation(Violation::WrongTileSize));
    }
    Ok(ImageHeader { width, height, first_line_offset })
}

/// Reads a background file of this format.
pub fn decode(contents: &[u8]) -> (result: Result<SpriteInfo, FormatError>)
    ensures
        outcome(result) == decoded(contents@),
{
    let ghost bytes = contents@;
    let file = cursor_over(contents);
    let mut buffer = share(&file);
    let file_header = match read_file_header(&mut buffer) {
        Ok(file_header) => file_header,
        Err(error) => {
            return Err(error);
        },
    };
    let pixel_format = match file_header.pixel_format {
        0 => PixelFormat::Format555,
        _ => PixelFormat::Format565,
    };
    let mut image_headers: Vec<ImageHeader> = Vec::new();
    let mut k: u16 = 0;
    while k < file_header.image_count
        invariant
            0 <= k <= file_header.image_count,
            bytes == contents@,
            bytes.len() >= 10 + 8 * k,
            file_header.image_count == le16(bytes.skip(8)),
            unread(buffer) == bytes.skip(header_start(k as int)),
            collect(k as nat, headers_in(bytes)) is Ok,
            image_headers@.len() == k,
            forall|j: int|
                0 <= j < k ==> (#[trigger] image_headers@[j]).first_line_offset == tile_offset(
                    bytes,
                    j,
                ) && image_headers@[j].width == 128 && image_headers@[j].height == 128,
        decreases file_header.image_count - k,
    {
        let ghost at = header_start(k as int);
        match read_image_header(&mut buffer) {
            Ok(image_header) => {
                proof {
                    assert(bytes.skip(at).skip(8) =~= bytes.skip(at + 8));
                    assert(headers_in(bytes)(k as int) is Ok);
                }
                image_headers.push(image_header);
            },
            Err(error) => {
                proof {
                    assert(headers_in(bytes)(k as int) == Err::<int, FormatError>(error));
                    assert(collect((k + 1) as nat, headers_in(bytes)) == Err::<
                        Seq<int>,
                        FormatError,
                    >(error));
                    lemma_collect_failed((k + 1) as nat, header_count(bytes), headers_in(bytes));
                }
                return Err(error);
            },
        }
        k += 1;
    }
    let mut frames: Vec<Frame> = Vec::new();
    let mut i: usize = 0;
    assert(frame_views(frames@) =~= Seq::<FrameView>::empty());
    while i < image_headers.len()
        invariant
            0 <= i <= image_headers@.len(),
            bytes == contents@,
            unread(file) == bytes,
            bytes.len() >= 10,
            pixel_format == layout_of(le32(bytes)),
            collect(header_count(bytes), headers_in(bytes)) is Ok,
            image_headers@.len() == header_count(bytes),
            forall|j: int|
                0 <= j < image_headers@.len() ==> (#[trigger] image_headers@[j]).first_line_offset
                    == tile_offset(bytes, j) && image_headers@[j].width == 128
                    && image_headers@[j].height == 128,
            collect(i as nat, tiles_of(bytes)) == Ok::<Seq<FrameView>, FormatError>(
                frame_views(frames@),
            ),
        decreases image_headers@.len() - i,
    {
        let header = &image_headers[i];
        match read_raw_image(
            &file,
            header.first_line_offset,
            header.width,
            header.height,
            RawStyle::Plain(pixel_format),
        ) {
            Ok(image) => {
                let ghost before = frame_views(frames@);
                let frame = Frame { image, color_indexes: Vec::new() };
                proof {
                    assert(tiles_of(bytes)(i as int) == Ok::<FrameView, FormatError>(frame@));
                }
                frames.push(frame);
                proof {
                    assert(frame_views(frames@) =~= before.push(frame@));
                }
            },
            Err(error) => {
                proof {
                    assert(tiles_of(bytes)(i as int) == Err::<FrameView, FormatError>(error));
                    assert(collect((i + 1) as nat, tiles_of(bytes)) == Err::<
                        Seq<FrameView>,
                        FormatError,
                    >(error));
                    lemma_collect_failed((i + 1) as nat, header_count(bytes), tiles_of(bytes));
                }
                return Err(error);
            },
        }
        i += 1;
    }
    Ok(
        SpriteInfo {
            frames,
            pixel_format,
            cols: file_header.cols,
            rows: file_header.rows,
            read_only: false,
        },
    )
}

/// The flag that a file header stores for a pixel layout.
pub open spec fn flag_of(pixel_format: PixelFormat) -> int {
    match pixel_format {
        PixelFormat::Format555 => 0,
        PixelFormat::Format565 => 1,
    }
}

/// The size of the pixel words of one tile.
pub open spec fn tile_len() -> int {
    32768
}

/// The size of the file of `count` tiles.
pub open spec fn file_len(count: int) -> int {
    10 + 8 * count + tile_len() * count
}

/// The header of each tile, as a function of the tile index: where its
/// pixels start, less four, and its size.
pub open spec fn headers_of(sprite: SpriteView) -> spec_fn(int) -> Seq<u8> {
    |index: int|
        le32_bytes(6 + 8 * sprite.frames.len() + tile_len() * index) + le16_bytes(128)
            + le16_bytes(128)
}

/// The pixel words of each tile, as a function of the tile index.
pub open spec fn data_of(sprite: SpriteView) -> spec_fn(int) -> Seq<u8> {
    |index: int| raw_bytes(sprite.frames[index].image.pixels, RawStyle::Plain(sprite.pixel_format))
}

/// Whether a frame is a tile: 128 by 128 pixels.
pub open spec fn is_tile(frame: FrameView) -> bool {
    frame.image.width == 128 && frame.image.height == 128
}

/// The file of a background. The frames must be as many as the grid has
/// cells, no more than the 16-bit count can say and one allocation can hold,
/// and every one a tile.
pub open spec fn encoded(sprite: SpriteView) -> Result<Seq<u8>, FormatError> {
    let count = sprite.frames.len();
    if count != sprite.cols * sprite.rows {
        Err(FormatError::StructuralViolation(Violation::FrameCountMismatch))
    } else if count > 65535 || file_len(count as int) > isize::MAX {
        Err(FormatError::StructuralViolation(Violation::TooLarge))
    } else if exists|index: int| 0 <= index < count && !is_tile(#[trigger] sprite.frames[index]) {
        Err(FormatError::StructuralViolation(Violation::WrongTileSize))
    } else {
        Ok(
            le32_bytes(flag_of(sprite.pixel_format)) + le16_bytes(sprite.cols) + le16_bytes(
                sprite.rows,
            ) + le16_bytes(count as int) + join(count, headers_of(sprite)) + join(
                count,
                data_of(sprite),
            ),
        )
    }
}

fn write_file_header(
    buffer: &mut BytesMut,
    pixel_format: PixelFormat,
    cols: u16,
    rows: u16,
    image_count: u16,
)
    requires
        written(*old(buffer)).len() + 10 <= isize::MAX,
    ensures
        written(*final(buffer)) == written(*old(buffer)) + le32_bytes(flag_of(pixel_format))
            + le16_bytes(cols as int) + le16_bytes(rows as int) + le16_bytes(image_count as int),
        written(*final(buffer)).len() == written(*old(buffer)).len() + 10,
{
    put_u32_le(
        buffer,
        match pixel_format {
            PixelFormat::Format555 => 0,
            PixelFormat::Format565 => 1,
        },
    );
    put_u16_le(buffer, cols);
    put_u16_le(buffer, rows);
    put_u16_le(buffer, image_count);
}

fn write_image_header(buffer: &mut BytesMut, first_line_offset: u32)
    requires
        first_line_offset >= 4,
        written(*old(buffer)).len() + 8 <= isize::MAX,
    ensures
        written(*final(buffer)) == written(*old(buffer)) + (le32_bytes(first_line_offset - 4)
            + le16_bytes(128) + le16_bytes(128)),
        written(*final(buffer)).len() == written(*old(buffer)).len() + 8,
{
    let ghost start = written(*buffer);
    put_u32_le(buffer, first_line_offset - 4);
    put_u16_le(buffer, 128);
    put_u16_le(buffer, 128);
    proof {
        assert(written(*buffer) =~= start + (le32_bytes(first_line_offset - 4) + le16_bytes(128)
            + le16_bytes(128)));
    }
}

/// Whether every frame of a sprite is a tile.
fn all_tiles(sprite_info: &SpriteInfo) -> (all: bool)
    ensures
        all == forall|index: int|
            0 <= index < sprite_info@.frames.len() ==> is_tile(
                #[trigger] sprite_info@.frames[index],
            ),
{
    let frame_count = sprite_info.frames.len();
    let mut i: usize = 0;
    while i < frame_count
        invariant
            0 <= i <= frame_count,
            frame_count == sprite_info.frames@.len(),
            forall|j: int| 0 <= j < i ==> is_tile(#[trigger] sprite_info@.frames[j]),
        decreases frame_count - i,
    {
        let frame = &sprite_info.frames[i];
        proof {
            assert(frame@ == sprite_info@.frames[i as int]);
        }
        if frame.image.width() != 128 || frame.image.height() != 128 {
            proof {
                assert(!is_tile(sprite_info@.frames[i as int]));
            }
            return false;
        }
        i += 1;
    }
    true
}

/// Writes the header and the pixel words of every tile.
fn write_tiles(sprite_info: &SpriteInfo, headers_buffer: &mut BytesMut, images_buffer: &mut BytesMut)
    requires
        sprite_info@.frames.len() <= 65535,
        file_len(sprite_info@.frames.len() as int) <= isize::MAX,
        forall|index: int|
            0 <= index < sprite_info@.frames.len() ==> is_tile(
                #[trigger] sprite_info@.frames[index],
            ),
        written(*old(headers_buffer)).len() == 0,
        written(*old(images_buffer)).len() == 0,
    ensures
        written(*final(headers_buffer)) == join(
            sprite_info@.frames.len(),
            headers_of(sprite_info@),
        ),
        written(*final(headers_buffer)).len() == 8 * sprite_info@.frames.len(),
        written(*final(images_buffer)) == join(sprite_info@.frames.len(), data_of(sprite_info@)),
        written(*final(images_buffer)).len() == tile_len() * sprite_info@.frames.len(),
{
    let ghost sprite = sprite_info@;
    let frame_count = sprite_info.frames.len();
    let size_of_headers: u64 = 10 + 8 * (frame_count as u64);
    let size_of_image: u64 = 128 * 128 * 2;
    let mut i: usize = 0;
    proof {
        assert(written(*headers_buffer) =~= join(0, headers_of(sprite)));
        assert(written(*images_buffer) =~= join(0, data_of(sprite)));
    }
    while i < frame_count
        invariant
            0 <= i <= frame_count,
            frame_count == sprite_info.frames@.len(),
            frame_count <= 65535,
            sprite == sprite_info@,
            size_of_headers == 10 + 8 * frame_count,
            size_of_image == tile_len(),
            file_len(frame_count as int) <= isize::MAX,
            forall|j: int| 0 <= j < frame_count ==> is_tile(#[trigger] sprite.frames[j]),
            written(*headers_buffer) == join(i as nat, headers_of(sprite)),
            written(*headers_buffer).len() == 8 * i,
            written(*images_buffer) == join(i as nat, data_of(sprite)),
            written(*images_buffer).len() == tile_len() * i,
        decreases frame_count - i,
    {
        let frame = &sprite_info.frames[i];
        proof {
            assert(frame@ == sprite.frames[i as int]);
            assert(is_tile(sprite.frames[i as int]));
        }
        let width = frame.image.width();
        let first_line_offset: u64 = size_of_headers + size_of_image * (i as u64);
        write_image_header(headers_buffer, first_line_offset as u32);
        write_raw_image(images_buffer, &frame.image, RawStyle::Plain(sprite_info.pixel_format));
        proof {
            assert(headers_of(sprite)(i as int) == le32_bytes(first_line_offset - 4) + le16_bytes(
                128,
            ) + le16_bytes(128));
        }
        i += 1;
    }
}

/// Writes a background as a file of this format.
pub fn encode(sprite_info: SpriteInfo) -> (result: Result<Bytes, FormatError>)
    ensures
        bytes_outcome(result) == encoded(sprite_info@),
        sprite_info@.frames.len() != sprite_info@.cols * sprite_info@.rows ==> result matches Err(
            FormatError::StructuralViolation(_),
        ),
        (exists|index: int|
            0 <= index < sprite_info@.frames.len() && !is_tile(
                #[trigger] sprite_info@.frames[index],
            )) ==> result is Err,
{
    let ghost sprite = sprite_info@;
    let frame_count = sprite_info.frames.len();
    proof {
        crate::raster::lemma_product_bounded(
            sprite_info.cols as int,
            sprite_info.rows as int,
            65535,
            65535,
        );
    }
    let cells: u64 = (sprite_info.cols as u64) * (sprite_info.rows as u64);
    if frame_count as u64 != cells {
        return Err(FormatError::StructuralViolation(Violation::FrameCountMismatch));
    }
    if frame_count > 65535 {
        return Err(FormatError::StructuralViolation(Violation::TooLarge));
    }
    if 10 + 32776 * (frame_count as u64) > isize::MAX as u64 {
        return Err(FormatError::StructuralViolation(Violation::TooLarge));
    }
    if !all_tiles(&sprite_info) {
        return Err(FormatError::StructuralViolation(Violation::WrongTileSize));
    }
    let mut headers_buffer = writer();
    let mut images_buffer = writer();
    write_tiles(&sprite_info, &mut headers_buffer, &mut images_buffer);
    let mut buffer = writer();
    write_file_header(
        &mut buffer,
        sprite_info.pixel_format,
        sprite_info.cols,
        sprite_info.rows,
        frame_count as u16,
    );
    unsplit(&mut buffer, headers_buffer);
    unsplit(&mut buffer, images_buffer);
    proof {
        assert(written(buffer) =~= le32_bytes(flag_of(sprite.pixel_format)) + le16_bytes(
            sprite.cols,
        ) + le16_bytes(sprite.rows) + le16_bytes(frame_count as int) + join(
            frame_count as nat,
            headers_of(sprite),
        ) + join(frame_count as nat, data_of(sprite)));
    }
    Ok(freeze(buffer))
}

/// The tiles that are read back from the file of a background.
pub open spec fn reread(sprite: SpriteView) -> Seq<FrameView> {
    Seq::new(
        sprite.frames.len(),
        |index: int|
            FrameView {
                image: ImageView {
                    width: 128,
                    height: 128,
                    pixels: Seq::new(
                        sprite.frames[index].image.pixels.len(),
                        |i: int|
                            crate::format::words::shown(
                                sprite.frames[index].image.pixels[i],
                                RawStyle::Plain(sprite.pixel_format),
                            ),
                    ),
                },
                color_indexes: Seq::empty(),
            },
    )
}

/// The file of a background, joined from its parts.
pub open spec fn file_of(sprite: SpriteView) -> Seq<u8> {
    le32_bytes(flag_of(sprite.pixel_format)) + le16_bytes(sprite.cols) + le16_bytes(sprite.rows)
        + le16_bytes(sprite.frames.len() as int) + join(sprite.frames.len(), headers_of(sprite))
        + join(sprite.frames.len(), data_of(sprite))
}

/// Whether a background can be written.
pub open spec fn encodable(sprite: SpriteView) -> bool {
    &&& sprite.frames.len() == sprite.cols * sprite.rows
    &&& sprite.frames.len() <= 65535
    &&& file_len(sprite.frames.len() as int) <= isize::MAX
    &&& forall|index: int|
        0 <= index < sprite.frames.len() ==> is_tile(#[trigger] sprite.frames[index])
}

/// Whether every frame holds as many pixels as a tile has.
spec fn tiles_full(sprite: SpriteView) -> bool {
    forall|index: int|
        0 <= index < sprite.frames.len() ==> (#[trigger] sprite.frames[index]).image.pixels.len()
            == 16384
}

proof fn lemma_parts_len(sprite: SpriteView, count: nat)
    requires
        count <= sprite.frames.len(),
        tiles_full(sprite),
    ensures
        joined_len(count, headers_of(sprite)) == 8 * count,
        joined_len(count, data_of(sprite)) == tile_len() * count,
    decreases count,
{
    if count > 0 {
        lemma_parts_len(sprite, (count - 1) as nat);
        assert(sprite.frames[count - 1].image.pixels.len() == 16384);
    }
}

/// The file of a background is as long as its tiles make it.
proof fn lemma_file_len(sprite: SpriteView)
    requires
        tiles_full(sprite),
    ensures
        file_of(sprite).len() == file_len(sprite.frames.len() as int),
{
    let count = sprite.frames.len();
    lemma_parts_len(sprite, count);
    crate::sequence::lemma_join_len(count, headers_of(sprite));
    crate::sequence::lemma_join_len(count, data_of(sprite));
}

/// The file header of a background is read back as it was written.
#[verifier::rlimit(40)]
proof fn lemma_file_header(sprite: SpriteView)
    requires
        sprite.frames.len() <= 65535,
        0 <= sprite.cols <= 65535,
        0 <= sprite.rows <= 65535,
    ensures
        file_of(sprite).len() >= 10,
        le32(file_of(sprite)) == flag_of(sprite.pixel_format),
        le16(file_of(sprite).skip(4)) == sprite.cols,
        le16(file_of(sprite).skip(6)) == sprite.rows,
        le16(file_of(sprite).skip(8)) == sprite.frames.len(),
{
    let count = sprite.frames.len();
    let file = file_of(sprite);
    assert(file.subrange(0, 4) =~= le32_bytes(flag_of(sprite.pixel_format)));
    assert(file.subrange(4, 6) =~= le16_bytes(sprite.cols));
    assert(file.subrange(6, 8) =~= le16_bytes(sprite.rows));
    assert(file.subrange(8, 10) =~= le16_bytes(count as int));
    crate::buffer::lemma_le32_at(file, 0, flag_of(sprite.pixel_format));
    assert(file.skip(0) =~= file);
    crate::buffer::lemma_le16_at(file, 4, sprite.cols);
    crate::buffer::lemma_le16_at(file, 6, sprite.rows);
    crate::buffer::lemma_le16_at(file, 8, count as int);
}

/// The file of a background holds each header behind the file header and
/// the headers before it.
#[verifier::rlimit(40)]
proof fn lemma_header_held(sprite: SpriteView, index: int)
    requires
        0 <= index < sprite.frames.len(),
        tiles_full(sprite),
    ensures
        crate::sequence::holds_at(file_of(sprite), header_start(index), headers_of(sprite)(index)),
        headers_of(sprite)(index).len() == 8,
{
    let count = sprite.frames.len();
    let headers = headers_of(sprite);
    let front = le32_bytes(flag_of(sprite.pixel_format)) + le16_bytes(sprite.cols) + le16_bytes(
        sprite.rows,
    ) + le16_bytes(count as int);
    lemma_parts_len(sprite, index as nat);
    crate::sequence::lemma_join_holds(count, headers, index);
    crate::sequence::lemma_holds_framed(
        front,
        join(count, headers),
        join(count, data_of(sprite)),
        8 * index,
        headers(index),
    );
}

/// The header of each tile is read back as it was written.
#[verifier::rlimit(40)]
proof fn lemma_header_fields(sprite: SpriteView, index: int)
    requires
        0 <= index < sprite.frames.len(),
        sprite.frames.len() <= 65535,
        tiles_full(sprite),
    ensures
        ({
            let header = file_of(sprite).skip(header_start(index));
            &&& le32(header) == 6 + 8 * sprite.frames.len() + tile_len() * index
            &&& le16(header.skip(4)) == 128
            &&& le16(header.skip(6)) == 128
        }),
{
    let count = sprite.frames.len();
    let file = file_of(sprite);
    let at = header_start(index);
    let offset = le32_bytes(6 + 8 * count + tile_len() * index);
    lemma_header_held(sprite, index);
    assert(headers_of(sprite)(index) == offset + le16_bytes(128) + le16_bytes(128));
    crate::sequence::lemma_holds_both(file, at, offset + le16_bytes(128), le16_bytes(128));
    crate::sequence::lemma_holds_both(file, at, offset, le16_bytes(128));
    crate::buffer::lemma_le32_at(file, at, 6 + 8 * count + tile_len() * index);
    crate::buffer::lemma_le16_at(file, at + 4, 128);
    crate::buffer::lemma_le16_at(file, at + 6, 128);
    let header = file.skip(at);
    assert(header.skip(4) =~= file.skip(at + 4));
    assert(header.skip(6) =~= file.skip(at + 6));
}

/// Every header of a file that was written is held in full and is that of
/// a tile.
proof fn lemma_header_read(sprite: SpriteView, index: int)
    requires
        0 <= index < sprite.frames.len(),
        sprite.frames.len() <= 65535,
        tiles_full(sprite),
    ensures
        tile_offset(file_of(sprite), index) == 10 + 8 * sprite.frames.len() + tile_len() * index,
        headers_in(file_of(sprite))(index) == Ok::<int, FormatError>(
            10 + 8 * sprite.frames.len() + tile_len() * index,
        ),
{
    lemma_header_fields(sprite, index);
    lemma_header_held(sprite, index);
}

/// The file of a background holds the pixel words of each tile behind the
/// headers and the words of the tiles before it.
#[verifier::rlimit(40)]
proof fn lemma_data_held(sprite: SpriteView, index: int)
    requires
        0 <= index < sprite.frames.len(),
        tiles_full(sprite),
    ensures
        crate::sequence::holds_at(
            file_of(sprite),
            10 + 8 * sprite.frames.len() + tile_len() * index,
            raw_bytes(sprite.frames[index].image.pixels, RawStyle::Plain(sprite.pixel_format)),
        ),
{
    let count = sprite.frames.len();
    let file = file_of(sprite);
    let data = data_of(sprite);
    let front = le32_bytes(flag_of(sprite.pixel_format)) + le16_bytes(sprite.cols) + le16_bytes(
        sprite.rows,
    ) + le16_bytes(count as int) + join(count, headers_of(sprite));
    lemma_parts_len(sprite, count);
    lemma_parts_len(sprite, index as nat);
    crate::sequence::lemma_join_len(count, headers_of(sprite));
    crate::sequence::lemma_join_holds(count, data, index);
    crate::sequence::lemma_holds_framed(
        front,
        join(count, data),
        Seq::<u8>::empty(),
        tile_len() * index,
        data(index),
    );
    assert(front + join(count, data) + Seq::<u8>::empty() =~= file);
}

/// A tile of a file that was written is read back as the tile shown.
#[verifier::rlimit(40)]
proof fn lemma_tile_roundtrip(sprite: SpriteView, index: int)
    requires
        0 <= index < sprite.frames.len(),
        sprite.frames.len() <= 65535,
        0 <= sprite.cols <= 65535,
        0 <= sprite.rows <= 65535,
        tiles_full(sprite),
    ensures
        tiles_of(file_of(sprite))(index) == Ok::<FrameView, FormatError>(reread(sprite)[index]),
{
    lemma_header_read(sprite, index);
    let count = sprite.frames.len();
    let file = file_of(sprite);
    let image = sprite.frames[index].image;
    let style = RawStyle::Plain(sprite.pixel_format);
    assert(image.pixels.len() == 16384);
    lemma_file_header(sprite);
    lemma_file_len(sprite);
    lemma_data_held(sprite, index);
    crate::format::words::lemma_pixels_read(
        file,
        10 + 8 * count + tile_len() * index,
        image.pixels,
        style,
    );
}

/// A background that is written and read again has the same grid and the
/// same tiles in the same order; each pixel has the colour of the word that
/// was written for it.
pub proof fn lemma_roundtrip(sprite: SpriteView)
    requires
        encodable(sprite),
        0 <= sprite.cols <= 65535,
        0 <= sprite.rows <= 65535,
        forall|index: int|
            0 <= index < sprite.frames.len() ==> (#[trigger] sprite.frames[index]).image.wf(),
    ensures
        encoded(sprite) == Ok::<Seq<u8>, FormatError>(file_of(sprite)),
        decoded(file_of(sprite)) == Ok::<SpriteView, FormatError>(
            SpriteView {
                frames: reread(sprite),
                pixel_format: sprite.pixel_format,
                cols: sprite.cols,
                rows: sprite.rows,
                read_only: false,
            },
        ),
{
    let count = sprite.frames.len();
    let file = file_of(sprite);
    let tiles = tiles_of(file);
    assert(tiles_full(sprite)) by {
        assert forall|index: int| 0 <= index < count implies (
        #[trigger] sprite.frames[index]).image.pixels.len() == 16384 by {
            assert(is_tile(sprite.frames[index]) && sprite.frames[index].image.wf());
        }
    }
    lemma_file_header(sprite);
    lemma_file_len(sprite);
    assert(header_count(file) == count);
    let offsets = Seq::new(count, |index: int| 10 + 8 * count + tile_len() * index);
    assert forall|index: int| 0 <= index < count implies #[trigger] headers_in(file)(index) == Ok::<
        int,
        FormatError,
    >(offsets[index]) by {
        lemma_header_read(sprite, index);
    }
    crate::sequence::lemma_collect_all(count, headers_in(file), offsets);
    assert forall|index: int| 0 <= index < count implies #[trigger] tiles(index) == Ok::<
        FrameView,
        FormatError,
    >(reread(sprite)[index]) by {
        lemma_tile_roundtrip(sprite, index);
    }
    crate::sequence::lemma_collect_all(count, tiles, reread(sprite));
}

} // verus!
