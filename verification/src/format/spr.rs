//! The indexed sprite format, one palette index per pixel, in its five
//! dialects. Only the standard dialect can be written; a file of any other
//! is read as a read-only sprite. No dialect carries a mark by which it
//! could be told from the others.

use crate::buffer::{
    cursor_over, freeze, get_u16_le, get_u32_le, get_u8, le16, le16_bytes, le32, le32_bytes,
    put_u16_le, put_u32_le, put_u8, remaining, unread, unsplit, writer, written, written_len,
};
use crate::error::{FormatError, Violation};
use crate::file::{frame_views, outcome, Frame, FrameView, SpriteInfo, SpriteView};
use crate::format::{
    build_indexed_frame, bytes_outcome, file_header_error, image_error, image_header_error,
    indexed_frame, read_bytes, PixelFormat,
};
use crate::palette::{closest_indexes, exact_index, Palette};
use crate::raster::{allocatable, can_allocate, lemma_index_in_grid, lemma_product_bounded};
use crate::sequence::{collect, join, joined_len, lemma_collect_failed, lemma_join_len};
use bytes::{Bytes, BytesMut};
use image::Rgba;
use vstd::prelude::*;

verus! {

struct ImageHeader {
    width: u16,
    height: u16,
}

/// A sprite of this format: its frames, and whether they came from a dialect
/// that cannot be written.
pub open spec fn indexed_sprite(frames: Seq<FrameView>, read_only: bool) -> SpriteView {
    SpriteView { frames, pixel_format: PixelFormat::Format565, cols: 0, rows: 0, read_only }
}

/// The outcome of reading the frames of a file.
pub open spec fn sprite_of(
    frames: Result<Seq<FrameView>, FormatError>,
    read_only: bool,
) -> Result<SpriteView, FormatError> {
    match frames {
        Ok(frames) => Ok(indexed_sprite(frames, read_only)),
        Err(error) => Err(error),
    }
}

/// The size of a header in the table of the standard dialect (offset in 32
/// bits, width and height in 16) or of the prototype dialect (offset in 16
/// bits, width and height in 8).
pub open spec fn table_header_len(prototype: bool) -> int {
    if prototype {
        4
    } else {
        8
    }
}

/// The width that header `index` of the table declares.
pub open spec fn table_width(bytes: Seq<u8>, prototype: bool, index: int) -> int {
    if prototype {
        bytes[2 + 4 * index + 2] as int
    } else {
        le16(bytes.skip(2 + 8 * index + 4))
    }
}

/// The height that header `index` of the table declares.
pub open spec fn table_height(bytes: Seq<u8>, prototype: bool, index: int) -> int {
    if prototype {
        bytes[2 + 4 * index + 3] as int
    } else {
        le16(bytes.skip(2 + 8 * index + 6))
    }
}

/// The number of pixels of the first `count` images of the table.
pub open spec fn pixels_before(bytes: Seq<u8>, prototype: bool, count: nat) -> int
    decreases count,
{
    if count == 0 {
        0
    } else {
        pixels_before(bytes, prototype, (count - 1) as nat) + table_width(
            bytes,
            prototype,
            count - 1,
        ) * table_height(bytes, prototype, count - 1)
    }
}

/// The frame whose `width * height` indexes start at byte `start`.
pub open spec fn frame_from(
    bytes: Seq<u8>,
    colors: Seq<(u8, u8, u8)>,
    start: int,
    width: int,
    height: int,
) -> Result<FrameView, FormatError> {
    if start + width * height > bytes.len() {
        Err(FormatError::ImageDataTruncated)
    } else if !allocatable(width, height) {
        Err(FormatError::StructuralViolation(Violation::TooLarge))
    } else {
        Ok(
            indexed_frame(
                colors,
                width as nat,
                height as nat,
                bytes.subrange(start, start + width * height),
            ),
        )
    }
}

/// Where the indexes of the images start: behind the count and the table.
pub open spec fn table_end(bytes: Seq<u8>, prototype: bool) -> int {
    2 + table_header_len(prototype) * le16(bytes)
}

/// Frame `index` of a file with a header table. The indexes of all images
/// follow the table, image after image, rows top to bottom; the offsets in
/// the headers are not looked at.
pub open spec fn table_frame(
    bytes: Seq<u8>,
    colors: Seq<(u8, u8, u8)>,
    prototype: bool,
    index: int,
) -> Result<FrameView, FormatError> {
    frame_from(
        bytes,
        colors,
        table_end(bytes, prototype) + pixels_before(bytes, prototype, index as nat),
        table_width(bytes, prototype, index),
        table_height(bytes, prototype, index),
    )
}

/// The frames of a file with a header table, as a function of the index.
pub open spec fn table_frames(
    bytes: Seq<u8>,
    colors: Seq<(u8, u8, u8)>,
    prototype: bool,
) -> spec_fn(int) -> Result<FrameView, FormatError> {
    |index: int| table_frame(bytes, colors, prototype, index)
}

/// Whether the table of a file is cut short: the file ends before the last
/// of the headers that it declares.
pub open spec fn table_cut(bytes: Seq<u8>, prototype: bool) -> bool {
    bytes.len() < 2 + table_header_len(prototype) * le16(bytes)
}

/// What a file with a header table holds: a 16-bit image count, the table,
/// then the indexes of every image. The standard dialect can be written
/// again, the prototype dialect cannot.
pub open spec fn table_decoded(bytes: Seq<u8>, colors: Seq<(u8, u8, u8)>, prototype: bool) -> Result<
    SpriteView,
    FormatError,
> {
    if bytes.len() < 2 {
        Err(FormatError::FileHeaderTruncated)
    } else if table_cut(bytes, prototype) {
        Err(FormatError::ImageHeaderTruncated)
    } else {
        sprite_of(collect(le16(bytes) as nat, table_frames(bytes, colors, prototype)), prototype)
    }
}

/// What a file of the standard dialect holds.
pub open spec fn decoded(bytes: Seq<u8>, colors: Seq<(u8, u8, u8)>) -> Result<
    SpriteView,
    FormatError,
> {
    table_decoded(bytes, colors, false)
}

/// What a file of the prototype dialect holds.
pub open spec fn decoded_prototype(bytes: Seq<u8>, colors: Seq<(u8, u8, u8)>) -> Result<
    SpriteView,
    FormatError,
> {
    table_decoded(bytes, colors, true)
}

/// Reads the frame of `width * height` indexes that the cursor stands at.
fn read_frame(buffer: &mut Bytes, palette: &Palette, width: u32, height: u32) -> (read: Result<
    Frame,
    FormatError,
>)
    requires
        width <= 65535,
        height <= 65535,
    ensures
        match read {
            Ok(frame) => {
                &&& frame_from(
                    unread(*old(buffer)),
                    palette.colors@,
                    0,
                    width as int,
                    height as int,
                ) == Ok::<FrameView, FormatError>(frame@)
                &&& unread(*final(buffer)) == unread(*old(buffer)).skip(width * height)
                &&& frame@.wf()
            },
            Err(error) => frame_from(
                unread(*old(buffer)),
                palette.colors@,
                0,
                width as int,
                height as int,
            ) == Err::<FrameView, FormatError>(error),
        },
{
    proof {
        lemma_product_bounded(width as int, height as int, 65535, 65535);
    }
    let needed: u64 = (width as u64) * (height as u64);
    if (remaining(buffer) as u64) < needed {
        return Err(image_error());
    }
    if !can_allocate(width, height) {
        return Err(FormatError::StructuralViolation(Violation::TooLarge));
    }
    let ghost from = unread(*buffer);
    let color_indexes = read_bytes(buffer, needed as usize);
    proof {
        assert(from.take(needed as int) =~= from.subrange(0, 0 + width * height));
    }
    build_indexed_frame(palette, width, height, color_indexes)
}

/// A frame read at the cursor is the frame of the whole file at the
/// position of the cursor.
proof fn lemma_frame_from_skip(
    bytes: Seq<u8>,
    colors: Seq<(u8, u8, u8)>,
    start: int,
    width: int,
    height: int,
)
    requires
        0 <= start <= bytes.len(),
        0 <= width,
        0 <= height,
    ensures
        frame_from(bytes.skip(start), colors, 0, width, height) == frame_from(
            bytes,
            colors,
            start,
            width,
            height,
        ),
{
    assert(width * height >= 0) by (nonlinear_arith)
        requires
            width >= 0,
            height >= 0,
    ;
    if start + width * height <= bytes.len() {
        assert(bytes.skip(start).subrange(0, 0 + width * height) =~= bytes.subrange(
            start,
            start + width * height,
        ));
    }
}

/// Reads a file with a header table.
fn decode_table(contents: &[u8], palette: &Palette, prototype: bool) -> (result: Result<
    SpriteInfo,
    FormatError,
>)
    ensures
        outcome(result) == table_decoded(contents@, palette.colors@, prototype),
{
    let ghost bytes = contents@;
    let ghost colors = palette.colors@;
    let ghost size = table_header_len(prototype);
    let mut buffer = cursor_over(contents);
    if remaining(&buffer) < 2 {
        return Err(file_header_error());
    }
    let image_count = get_u16_le(&mut buffer);
    let mut image_headers: Vec<ImageHeader> = Vec::new();
    let mut k: u16 = 0;
    while k < image_count
        invariant
            0 <= k <= image_count,
            bytes == contents@,
            size == table_header_len(prototype),
            bytes.len() >= 2 + size * k,
            image_count == le16(bytes),
            unread(buffer) == bytes.skip(2 + size * k),
            image_headers@.len() == k,
            forall|j: int|
                0 <= j < k ==> (#[trigger] image_headers@[j]).width == table_width(
                    bytes,
                    prototype,
                    j,
                ) && image_headers@[j].height == table_height(bytes, prototype, j),
        decreases image_count - k,
    {
        if prototype {
            if remaining(&buffer) < 4 {
                return Err(image_header_error());
            }
            let _offset = get_u16_le(&mut buffer);
            let width = get_u8(&mut buffer);
            let height = get_u8(&mut buffer);
            proof {
                assert(bytes.skip(2 + 4 * k).skip(2) =~= bytes.skip(2 + 4 * k + 2));
                assert(bytes.skip(2 + 4 * k + 2).skip(1) =~= bytes.skip(2 + 4 * k + 3));
                assert(bytes.skip(2 + 4 * k + 3).skip(1) =~= bytes.skip(2 + 4 * (k + 1)));
            }
            image_headers.push(ImageHeader { width: width as u16, height: height as u16 });
        } else {
            if remaining(&buffer) < 8 {
                return Err(image_header_error());
            }
            let _offset = get_u32_le(&mut buffer);
            let width = get_u16_le(&mut buffer);
            let height = get_u16_le(&mut buffer);
            proof {
                assert(bytes.skip(2 + 8 * k).skip(4) =~= bytes.skip(2 + 8 * k + 4));
                assert(bytes.skip(2 + 8 * k + 4).skip(2) =~= bytes.skip(2 + 8 * k + 6));
                assert(bytes.skip(2 + 8 * k + 6).skip(2) =~= bytes.skip(2 + 8 * (k + 1)));
            }
            image_headers.push(ImageHeader { width, height });
        }
        k += 1;
    }
    let mut frames: Vec<Frame> = Vec::new();
    let mut i: usize = 0;
    assert(frame_views(frames@) =~= Seq::<FrameView>::empty());
    while i < image_headers.len()
        invariant
            0 <= i <= image_headers@.len(),
            bytes == contents@,
            colors == palette.colors@,
            bytes.len() >= 2,
            !table_cut(bytes, prototype),
            image_headers@.len() == le16(bytes),
            bytes.len() >= table_end(bytes, prototype),
            forall|j: int|
                0 <= j < image_headers@.len() ==> (#[trigger] image_headers@[j]).width
                    == table_width(bytes, prototype, j) && image_headers@[j].height
                    == table_height(bytes, prototype, j),
            0 <= pixels_before(bytes, prototype, i as nat),
            table_end(bytes, prototype) + pixels_before(bytes, prototype, i as nat) <= bytes.len(),
            unread(buffer) == bytes.skip(
                table_end(bytes, prototype) + pixels_before(bytes, prototype, i as nat),
            ),
            collect(i as nat, table_frames(bytes, colors, prototype)) == Ok::<
                Seq<FrameView>,
                FormatError,
            >(frame_views(frames@)),
        decreases image_headers@.len() - i,
    {
        let header = &image_headers[i];
        let ghost start = table_end(bytes, prototype) + pixels_before(bytes, prototype, i as nat);
        let ghost frames_of = table_frames(bytes, colors, prototype);
        proof {
            lemma_frame_from_skip(bytes, colors, start, header.width as int, header.height as int);
            lemma_product_bounded(header.width as int, header.height as int, 65535, 65535);
        }
        match read_frame(&mut buffer, palette, header.width as u32, header.height as u32) {
            Ok(frame) => {
                let ghost before = frame_views(frames@);
                proof {
                    assert(frames_of(i as int) == Ok::<FrameView, FormatError>(frame@));
                    assert(bytes.skip(start).skip(header.width * header.height) =~= bytes.skip(
                        start + header.width * header.height,
                    ));
                }
                frames.push(frame);
                proof {
                    assert(frame_views(frames@) =~= before.push(frame@));
                }
            },
            Err(error) => {
                proof {
                    assert(frames_of(i as int) == Err::<FrameView, FormatError>(error));
                    assert(collect((i + 1) as nat, frames_of) == Err::<Seq<FrameView>, FormatError>(
                        error,
                    ));
                    lemma_collect_failed((i + 1) as nat, le16(bytes) as nat, frames_of);
                }
                return Err(error);
            },
        }
        i += 1;
    }
    Ok(
        SpriteInfo {
            frames,
            pixel_format: PixelFormat::Format565,
            cols: 0,
            rows: 0,
            read_only: prototype,
        },
    )
}

/// Reads a file of the standard dialect.
pub fn decode(contents: &[u8], palette: &Palette) -> (result: Result<SpriteInfo, FormatError>)
    ensures
        outcome(result) == decoded(contents@, palette.colors@),
{
    decode_table(contents, palette, false)
}

/// Reads a file of the prototype dialect, whose headers hold widths and
/// heights of eight bits.
pub fn decode_prototype(contents: &[u8], palette: &Palette) -> (result: Result<
    SpriteInfo,
    FormatError,
>)
    ensures
        outcome(result) == decoded_prototype(contents@, palette.colors@),
{
    decode_table(contents, palette, true)
}

/// The size of the header before each image of the single-width dialect
/// (width and height in 16 bits) or of the double-width dialect (row pitch
/// and height in 32 bits, width in 16).
pub open spec fn stream_header_len(double: bool) -> int {
    if double {
        10
    } else {
        4
    }
}

/// The number of bytes that each stored row of the image at `at` takes.
pub open spec fn stream_pitch(bytes: Seq<u8>, double: bool, at: int) -> int {
    if double {
        le32(bytes.skip(at))
    } else {
        le16(bytes.skip(at))
    }
}

/// The height of the image at `at`.
pub open spec fn stream_height(bytes: Seq<u8>, double: bool, at: int) -> int {
    if double {
        le32(bytes.skip(at + 4))
    } else {
        le16(bytes.skip(at + 2))
    }
}

/// The width of the image at `at`.
pub open spec fn stream_width(bytes: Seq<u8>, double: bool, at: int) -> int {
    if double {
        le16(bytes.skip(at + 8))
    } else {
        le16(bytes.skip(at))
    }
}

/// Where image `index` starts: the images follow the six bytes of the file
/// header, each with its header and its rows.
pub open spec fn stream_start(bytes: Seq<u8>, double: bool, index: nat) -> int
    decreases index,
{
    if index == 0 {
        6
    } else {
        let at = stream_start(bytes, double, (index - 1) as nat);
        at + stream_header_len(double) + stream_pitch(bytes, double, at) * stream_height(
            bytes,
            double,
            at,
        )
    }
}

/// The indexes of an image, rows top to bottom, taken from rows stored
/// bottom to top with `pitch` bytes each. Where a stored row is shorter
/// than the image is wide, the pixels it lacks get index 0.
pub open spec fn unflipped(data: Seq<u8>, pitch: int, width: int, height: int) -> Seq<u8> {
    Seq::new(
        (width * height) as nat,
        |i: int|
            if i % width < pitch {
                data[(height - 1 - i / width) * pitch + i % width]
            } else {
                0u8
            },
    )
}

/// The frame that starts at byte `at`.
pub open spec fn stream_frame(bytes: Seq<u8>, colors: Seq<(u8, u8, u8)>, double: bool, at: int) -> Result<
    FrameView,
    FormatError,
> {
    let data_at = at + stream_header_len(double);
    let pitch = stream_pitch(bytes, double, at);
    let width = stream_width(bytes, double, at);
    let height = stream_height(bytes, double, at);
    if data_at > bytes.len() {
        Err(FormatError::ImageHeaderTruncated)
    } else if height > 65535 {
        Err(FormatError::StructuralViolation(Violation::InvalidHeight))
    } else if data_at + pitch * height > bytes.len() {
        Err(FormatError::ImageDataTruncated)
    } else if !allocatable(width, height) {
        Err(FormatError::StructuralViolation(Violation::TooLarge))
    } else {
        Ok(
            indexed_frame(
                colors,
                width as nat,
                height as nat,
                unflipped(bytes.subrange(data_at, data_at + pitch * height), pitch, width, height),
            ),
        )
    }
}

/// The frames of a file without a header table, as a function of the index.
pub open spec fn stream_frames(bytes: Seq<u8>, colors: Seq<(u8, u8, u8)>, double: bool) -> spec_fn(
    int,
) -> Result<FrameView, FormatError> {
    |index: int| stream_frame(bytes, colors, double, stream_start(bytes, double, index as nat))
}

/// Where the last image of a file without a header table ends.
pub open spec fn stream_end(bytes: Seq<u8>, double: bool) -> int {
    stream_start(bytes, double, le16(bytes) as nat)
}

/// What a file without a header table holds: a 16-bit image count and four
/// bytes that are not looked at, then image after image, each behind a
/// header of its own, its rows stored bottom to top.
pub open spec fn stream_decoded(bytes: Seq<u8>, colors: Seq<(u8, u8, u8)>, double: bool) -> Result<
    SpriteView,
    FormatError,
> {
    if bytes.len() < 6 {
        Err(FormatError::FileHeaderTruncated)
    } else {
        sprite_of(collect(le16(bytes) as nat, stream_frames(bytes, colors, double)), true)
    }
}

/// What a file of the single-width dialect holds.
pub open spec fn decoded_single_width(bytes: Seq<u8>, colors: Seq<(u8, u8, u8)>) -> Result<
    SpriteView,
    FormatError,
> {
    stream_decoded(bytes, colors, false)
}

/// What a file of the double-width dialect holds.
pub open spec fn decoded_double_width(bytes: Seq<u8>, colors: Seq<(u8, u8, u8)>) -> Result<
    SpriteView,
    FormatError,
> {
    stream_decoded(bytes, colors, true)
}

/// Turns rows stored bottom to top into indexes in row-major order, top row
/// first.
pub(crate) fn unflip(data: &Vec<u8>, pitch: u64, width: u32, height: u32) -> (color_indexes: Vec<
    u8,
>)
    requires
        data@.len() == pitch * height,
    ensures
        color_indexes@ == unflipped(data@, pitch as int, width as int, height as int),
        color_indexes@.len() == width * height,
{
    let mut color_indexes: Vec<u8> = Vec::new();
    let count = data.len();
    let mut y: u32 = 0;
    while y < height
        invariant
            0 <= y <= height,
            count == data@.len(),
            data@.len() == pitch * height,
            color_indexes@.len() == y * width,
            forall|i: int|
                0 <= i < y * width ==> color_indexes@[i] == unflipped(
                    data@,
                    pitch as int,
                    width as int,
                    height as int,
                )[i],
        decreases height - y,
    {
        let mut x: u32 = 0;
        while x < width
            invariant
                0 <= x <= width,
                0 <= y < height,
                count == data@.len(),
                data@.len() == pitch * height,
                color_indexes@.len() == y * width + x,
                forall|i: int|
                    0 <= i < y * width + x ==> color_indexes@[i] == unflipped(
                        data@,
                        pitch as int,
                        width as int,
                        height as int,
                    )[i],
            decreases width - x,
        {
            proof {
                lemma_index_in_grid(x as int, y as int, width as int, height as int);
                vstd::arithmetic::div_mod::lemma_fundamental_div_mod_converse(
                    y * width + x,
                    width as int,
                    y as int,
                    x as int,
                );
                if x < pitch {
                    lemma_index_in_grid(x as int, height - 1 - y, pitch as int, height as int);
                }
            }
            let color_index = if (x as u64) < pitch {
                data[(((height - 1 - y) as u64) * pitch + (x as u64)) as usize]
            } else {
                0
            };
            color_indexes.push(color_index);
            x += 1;
        }
        proof {
            assert((y + 1) * width == y * width + width) by (nonlinear_arith);
        }
        y += 1;
    }
    proof {
        assert(height * width == width * height) by (nonlinear_arith);
        assert(color_indexes@ =~= unflipped(data@, pitch as int, width as int, height as int));
    }
    color_indexes
}

/// Reads the image that the cursor stands at, header and rows.
fn read_stream_frame(buffer: &mut Bytes, palette: &Palette, double: bool) -> (read: Result<
    Frame,
    FormatError,
>)
    ensures
        match read {
            Ok(frame) => {
                let from = unread(*old(buffer));
                &&& stream_frame(from, palette.colors@, double, 0) == Ok::<FrameView, FormatError>(
                    frame@,
                )
                &&& unread(*final(buffer)) == from.skip(
                    stream_header_len(double) + stream_pitch(from, double, 0) * stream_height(
                        from,
                        double,
                        0,
                    ),
                )
                &&& stream_header_len(double) + stream_pitch(from, double, 0) * stream_height(
                    from,
                    double,
                    0,
                ) <= from.len()
                &&& frame@.wf()
            },
            Err(error) => stream_frame(unread(*old(buffer)), palette.colors@, double, 0) == Err::<
                FrameView,
                FormatError,
            >(error),
        },
{
    let ghost from = unread(*buffer);
    let pitch: u64;
    let height: u32;
    let width: u16;
    if double {
        if remaining(buffer) < 10 {
            return Err(image_header_error());
        }
        pitch = get_u32_le(buffer) as u64;
        height = get_u32_le(buffer);
        width = get_u16_le(buffer);
        proof {
            assert(from.skip(4).skip(4) =~= from.skip(8));
            assert(from.skip(8).skip(2) =~= from.skip(10));
            assert(from.skip(0) =~= from);
        }
        if height > 65535 {
            return Err(FormatError::StructuralViolation(Violation::InvalidHeight));
        }
    } else {
        if remaining(buffer) < 4 {
            return Err(image_header_error());
        }
        width = get_u16_le(buffer);
        let short_height = get_u16_le(buffer);
        pitch = width as u64;
        height = short_height as u32;
        proof {
            assert(from.skip(2).skip(2) =~= from.skip(4));
            assert(from.skip(0) =~= from);
        }
    }
    let ghost data_at = stream_header_len(double);
    proof {
        lemma_product_bounded(pitch as int, height as int, u32::MAX as int, 65535);
    }
    let needed: u64 = pitch * (height as u64);
    if (remaining(buffer) as u64) < needed {
        return Err(image_error());
    }
    if !can_allocate(width as u32, height) {
        return Err(FormatError::StructuralViolation(Violation::TooLarge));
    }
    let data = read_bytes(buffer, needed as usize);
    proof {
        assert(from.skip(data_at).take(needed as int) =~= from.subrange(
            0 + data_at,
            0 + data_at + pitch * height,
        ));
        assert(from.skip(data_at).skip(needed as int) =~= from.skip(data_at + pitch * height));
    }
    let color_indexes = unflip(&data, pitch, width as u32, height);
    build_indexed_frame(palette, width as u32, height, color_indexes)
}

/// A frame read at the cursor is the frame of the whole file at the
/// position of the cursor.
proof fn lemma_stream_frame_skip(bytes: Seq<u8>, colors: Seq<(u8, u8, u8)>, double: bool, at: int)
    requires
        0 <= at <= bytes.len(),
    ensures
        stream_frame(bytes.skip(at), colors, double, 0) == stream_frame(bytes, colors, double, at),
        at + stream_header_len(double) <= bytes.len() ==> {
            &&& stream_pitch(bytes.skip(at), double, 0) == stream_pitch(bytes, double, at)
            &&& stream_height(bytes.skip(at), double, 0) == stream_height(bytes, double, at)
            &&& stream_width(bytes.skip(at), double, 0) == stream_width(bytes, double, at)
        },
{
    let rest = bytes.skip(at);
    let data_at = stream_header_len(double);
    if at + data_at <= bytes.len() {
        assert(rest.skip(0) =~= bytes.skip(at));
        assert(rest.skip(2) =~= bytes.skip(at + 2));
        if double {
            assert(rest.skip(4) =~= bytes.skip(at + 4));
            assert(rest.skip(8) =~= bytes.skip(at + 8));
        }
    }
    let pitch = stream_pitch(bytes, double, at);
    let height = stream_height(bytes, double, at);
    assert(pitch * height >= 0) by (nonlinear_arith)
        requires
            pitch >= 0,
            height >= 0,
    ;
    if at + data_at + pitch * height <= bytes.len() {
        assert(rest.subrange(0 + data_at, 0 + data_at + pitch * height) =~= bytes.subrange(
            at + data_at,
            at + data_at + pitch * height,
        ));
    }
}

/// Reads a file without a header table, and says how many bytes of it the
/// sprite takes.
fn decode_stream(contents: &[u8], palette: &Palette, double: bool) -> (result: Result<
    (SpriteInfo, usize),
    FormatError,
>)
    ensures
        match result {
            Ok((sprite, used)) => {
                &&& stream_decoded(contents@, palette.colors@, double) == Ok::<
                    SpriteView,
                    FormatError,
                >(sprite@)
                &&& used == stream_end(contents@, double)
                &&& 6 <= used <= contents@.len()
            },
            Err(error) => stream_decoded(contents@, palette.colors@, double) == Err::<
                SpriteView,
                FormatError,
            >(error),
        },
{
    let ghost bytes = contents@;
    let ghost colors = palette.colors@;
    let ghost frames_of = stream_frames(bytes, colors, double);
    let mut buffer = cursor_over(contents);
    if remaining(&buffer) < 6 {
        return Err(file_header_error());
    }
    let image_count = get_u16_le(&mut buffer);
    let _ = get_u32_le(&mut buffer);
    proof {
        assert(bytes.skip(2).skip(4) =~= bytes.skip(6));
    }
    let mut frames: Vec<Frame> = Vec::new();
    let mut k: u16 = 0;
    assert(frame_views(frames@) =~= Seq::<FrameView>::empty());
    while k < image_count
        invariant
            0 <= k <= image_count,
            bytes == contents@,
            colors == palette.colors@,
            frames_of == stream_frames(bytes, colors, double),
            bytes.len() >= 6,
            image_count == le16(bytes),
            6 <= stream_start(bytes, double, k as nat) <= bytes.len(),
            unread(buffer) == bytes.skip(stream_start(bytes, double, k as nat)),
            collect(k as nat, frames_of) == Ok::<Seq<FrameView>, FormatError>(frame_views(frames@)),
        decreases image_count - k,
    {
        let ghost at = stream_start(bytes, double, k as nat);
        proof {
            lemma_stream_frame_skip(bytes, colors, double, at);
        }
        match read_stream_frame(&mut buffer, palette, double) {
            Ok(frame) => {
                let ghost before = frame_views(frames@);
                let ghost size = stream_header_len(double) + stream_pitch(bytes, double, at)
                    * stream_height(bytes, double, at);
                proof {
                    assert(frames_of(k as int) == Ok::<FrameView, FormatError>(frame@));
                    assert(bytes.skip(at).skip(size) =~= bytes.skip(at + size));
                    assert(stream_pitch(bytes, double, at) * stream_height(bytes, double, at) >= 0)
                        by (nonlinear_arith)
                        requires
                            stream_pitch(bytes, double, at) >= 0,
                            stream_height(bytes, double, at) >= 0,
                    ;
                }
                frames.push(frame);
                proof {
                    assert(frame_views(frames@) =~= before.push(frame@));
                }
            },
            Err(error) => {
                proof {
                    assert(frames_of(k as int) == Err::<FrameView, FormatError>(error));
                    assert(collect((k + 1) as nat, frames_of) == Err::<Seq<FrameView>, FormatError>(
                        error,
                    ));
                    lemma_collect_failed((k + 1) as nat, le16(bytes) as nat, frames_of);
                }
                return Err(error);
            },
        }
        k += 1;
    }
    let used = contents.len() - remaining(&buffer);
    Ok(
        (
            SpriteInfo {
                frames,
                pixel_format: PixelFormat::Format565,
                cols: 0,
                rows: 0,
                read_only: true,
            },
            used,
        ),
    )
}

/// Reads a file of the single-width dialect.
pub fn decode_single_width(contents: &[u8], palette: &Palette) -> (result: Result<
    SpriteInfo,
    FormatError,
>)
    ensures
        outcome(result) == decoded_single_width(contents@, palette.colors@),
{
    match decode_stream(contents, palette, false) {
        Ok((sprite, _)) => Ok(sprite),
        Err(error) => Err(error),
    }
}

/// Reads a file of the double-width dialect, whose stored rows may be
/// longer than the image is wide.
pub fn decode_double_width(contents: &[u8], palette: &Palette) -> (result: Result<
    SpriteInfo,
    FormatError,
>)
    ensures
        outcome(result) == decoded_double_width(contents@, palette.colors@),
{
    match decode_stream(contents, palette, true) {
        Ok((sprite, _)) => Ok(sprite),
        Err(error) => Err(error),
    }
}

/// Where sub-sprite `index` of a file of the multi-sprite dialect starts:
/// the first behind the six bytes of the file header, each of the others
/// where the one before it ends.
pub open spec fn sub_sprite_start(bytes: Seq<u8>, index: nat) -> int
    decreases index,
{
    if index == 0 {
        6
    } else {
        let at = sub_sprite_start(bytes, (index - 1) as nat);
        at + stream_end(bytes.skip(at), true)
    }
}

/// The frames of the first `count` sub-sprites, in the order of the file.
/// Each sub-sprite is a sprite of the double-width dialect, file header
/// included; the first that cannot be read decides the failure.
pub open spec fn sub_sprite_frames(bytes: Seq<u8>, colors: Seq<(u8, u8, u8)>, count: nat) -> Result<
    Seq<FrameView>,
    FormatError,
>
    decreases count,
{
    if count == 0 {
        Ok(Seq::empty())
    } else {
        match sub_sprite_frames(bytes, colors, (count - 1) as nat) {
            Err(error) => Err(error),
            Ok(frames) => match decoded_double_width(
                bytes.skip(sub_sprite_start(bytes, (count - 1) as nat)),
                colors,
            ) {
                Err(error) => Err(error),
                Ok(sprite) => Ok(frames + sprite.frames),
            },
        }
    }
}

/// What a file of the multi-sprite dialect holds: a 16-bit count and four
/// bytes that are not looked at, then as many sprites of the double-width
/// dialect as the count says, one behind the other. Their frames are handed
/// out as one list.
pub open spec fn decoded_multi_sprite(bytes: Seq<u8>, colors: Seq<(u8, u8, u8)>) -> Result<
    SpriteView,
    FormatError,
> {
    if bytes.len() < 6 {
        Err(FormatError::FileHeaderTruncated)
    } else {
        sprite_of(sub_sprite_frames(bytes, colors, le16(bytes) as nat), true)
    }
}

/// Once a sub-sprite has failed, the ones behind it are not read.
proof fn lemma_sub_sprite_failed(bytes: Seq<u8>, colors: Seq<(u8, u8, u8)>, count: nat, more: nat)
    requires
        count <= more,
        sub_sprite_frames(bytes, colors, count) is Err,
    ensures
        sub_sprite_frames(bytes, colors, more) == sub_sprite_frames(bytes, colors, count),
    decreases more,
{
    if more > count {
        lemma_sub_sprite_failed(bytes, colors, count, (more - 1) as nat);
    }
}

/// Reads a file of the multi-sprite dialect.
pub fn decode_multi_sprite(contents: &[u8], palette: &Palette) -> (result: Result<
    SpriteInfo,
    FormatError,
>)
    ensures
        outcome(result) == decoded_multi_sprite(contents@, palette.colors@),
{
    let ghost bytes = contents@;
    let ghost colors = palette.colors@;
    let mut buffer = cursor_over(contents);
    if remaining(&buffer) < 6 {
        return Err(file_header_error());
    }
    let image_count = get_u16_le(&mut buffer);
    let mut frames: Vec<Frame> = Vec::new();
    let mut start: usize = 6;
    let mut k: u16 = 0;
    assert(frame_views(frames@) =~= Seq::<FrameView>::empty());
    while k < image_count
        invariant
            0 <= k <= image_count,
            bytes == contents@,
            colors == palette.colors@,
            image_count == le16(bytes),
            start == sub_sprite_start(bytes, k as nat),
            6 <= start <= bytes.len(),
            sub_sprite_frames(bytes, colors, k as nat) == Ok::<Seq<FrameView>, FormatError>(
                frame_views(frames@),
            ),
        decreases image_count - k,
    {
        let rest = vstd::slice::slice_subrange(contents, start, contents.len());
        proof {
            assert(rest@ =~= bytes.skip(start as int));
        }
        match decode_stream(rest, palette, true) {
            Ok((sub_sprite, used)) => {
                let ghost before = frame_views(frames@);
                let ghost added = frame_views(sub_sprite.frames@);
                let mut sub_frames = sub_sprite.frames;
                frames.append(&mut sub_frames);
                proof {
                    assert(frame_views(frames@) =~= before + added);
                }
                start = start + used;
            },
            Err(error) => {
                proof {
                    lemma_sub_sprite_failed(bytes, colors, (k + 1) as nat, le16(bytes) as nat);
                }
                return Err(error);
            },
        }
        k += 1;
    }
    Ok(
        SpriteInfo {
            frames,
            pixel_format: PixelFormat::Format565,
            cols: 0,
            rows: 0,
            read_only: true,
        },
    )
}

/// The index written for a pixel that its frame carries no index for: the
/// index of exactly its colour, or 0 where the palette lacks that colour.
pub open spec fn fallback_index(colors: Seq<(u8, u8, u8)>, pixel: Rgba<u8>) -> u8 {
    match exact_index(colors, pixel) {
        Some(index) => index,
        None => 0,
    }
}

/// The indexes written for a frame, one per pixel. A frame without indexes
/// has its pixels matched to the nearest colours of the palette; a frame
/// with indexes keeps them, and any pixel beyond them gets the index of
/// exactly its colour.
pub open spec fn stored_indexes(colors: Seq<(u8, u8, u8)>, frame: FrameView) -> Seq<u8> {
    let chosen = if frame.color_indexes.len() == 0 {
        closest_indexes(colors, frame.image.pixels)
    } else {
        frame.color_indexes
    };
    Seq::new(
        frame.image.width * frame.image.height,
        |i: int|
            if i < chosen.len() {
                chosen[i]
            } else {
                fallback_index(colors, frame.image.pixels[i])
            },
    )
}

/// The indexes of each frame, as a function of the frame index.
pub open spec fn data_of(sprite: SpriteView, colors: Seq<(u8, u8, u8)>) -> spec_fn(int) -> Seq<u8> {
    |index: int| stored_indexes(colors, sprite.frames[index])
}

/// Where the indexes of frame `index` start in the file: behind the count,
/// all the image headers, and the indexes of the frames before it.
pub open spec fn data_start(sprite: SpriteView, colors: Seq<(u8, u8, u8)>, index: int) -> int {
    (2 + 8 * sprite.frames.len() + joined_len(index as nat, data_of(sprite, colors))) as int
}

/// The image header of each frame, as a function of the frame index.
pub open spec fn headers_of(sprite: SpriteView, colors: Seq<(u8, u8, u8)>) -> spec_fn(int) -> Seq<
    u8,
> {
    |index: int|
        le32_bytes(data_start(sprite, colors, index)) + le16_bytes(
            sprite.frames[index].image.width as int,
        ) + le16_bytes(sprite.frames[index].image.height as int)
}

/// Whether frame `index` can be written: its width and height must fit 16
/// bits and its offset 32 bits, and the file up to its end must not pass the
/// largest allocation.
pub open spec fn frame_fits(sprite: SpriteView, colors: Seq<(u8, u8, u8)>, index: int) -> bool {
    let image = sprite.frames[index].image;
    &&& image.width <= 65535
    &&& image.height <= 65535
    &&& data_start(sprite, colors, index) <= u32::MAX
    &&& data_start(sprite, colors, index + 1) <= isize::MAX
}

/// Whether a sprite can be written: at most 65535 frames, each of which fits.
pub open spec fn encodable(sprite: SpriteView, colors: Seq<(u8, u8, u8)>) -> bool {
    &&& sprite.frames.len() <= 65535
    &&& forall|index: int| 0 <= index < sprite.frames.len() ==> frame_fits(sprite, colors, index)
}

/// The file of a sprite in the standard dialect: the frame count, one header
/// per frame, then the indexes of every frame.
pub open spec fn encoded(sprite: SpriteView, colors: Seq<(u8, u8, u8)>) -> Result<
    Seq<u8>,
    FormatError,
> {
    let count = sprite.frames.len();
    if encodable(sprite, colors) {
        Ok(
            le16_bytes(count as int) + join(count, headers_of(sprite, colors)) + join(
                count,
                data_of(sprite, colors),
            ),
        )
    } else {
        Err(FormatError::StructuralViolation(Violation::TooLarge))
    }
}

/// Appends the indexes of every pixel of `frame`.
#[verifier::rlimit(40)]
fn write_indexes(buffer: &mut BytesMut, frame: &Frame, palette: &Palette)
    requires
        written(*old(buffer)).len() + frame@.image.width * frame@.image.height <= isize::MAX,
    ensures
        written(*final(buffer)) == written(*old(buffer)) + stored_indexes(palette.colors@, frame@),
        stored_indexes(palette.colors@, frame@).len() == frame@.image.width * frame@.image.height,
{
    let width = frame.image.width();
    let height = frame.image.height();
    let ghost start = written(*buffer);
    let ghost stored = stored_indexes(palette.colors@, frame@);
    let mut color_indexes = frame.color_indexes.clone();
    if color_indexes.len() == 0 {
        color_indexes = palette.get_closest_color_indexes(&frame.image);
    }
    let count = color_indexes.len();
    let mut pixel_index: usize = 0;
    let mut y: u32 = 0;
    proof {
        assert(start + stored.take(0) =~= start);
    }
    while y < height
        invariant
            0 <= y <= height,
            pixel_index == y * width,
            width == frame@.image.width,
            height == frame@.image.height,
            frame@.image.wf(),
            count == color_indexes@.len(),
            color_indexes@ == if frame@.color_indexes.len() == 0 {
                closest_indexes(palette.colors@, frame@.image.pixels)
            } else {
                frame@.color_indexes
            },
            stored == stored_indexes(palette.colors@, frame@),
            start.len() + width * height <= isize::MAX,
            written(*buffer) == start + stored.take(pixel_index as int),
        decreases height - y,
    {
        let mut x: u32 = 0;
        while x < width
            invariant
                0 <= x <= width,
                0 <= y < height,
                pixel_index == y * width + x,
                width == frame@.image.width,
                height == frame@.image.height,
                frame@.image.wf(),
                count == color_indexes@.len(),
                color_indexes@ == if frame@.color_indexes.len() == 0 {
                    closest_indexes(palette.colors@, frame@.image.pixels)
                } else {
                    frame@.color_indexes
                },
                stored == stored_indexes(palette.colors@, frame@),
                start.len() + width * height <= isize::MAX,
                written(*buffer) == start + stored.take(pixel_index as int),
            decreases width - x,
        {
            proof {
                lemma_index_in_grid(x as int, y as int, width as int, height as int);
            }
            let color_index = if pixel_index < count {
                color_indexes[pixel_index]
            } else {
                let color = frame.image.get_pixel(x, y);
                match palette.find_color_index(color) {
                    Some(color_index) => color_index,
                    None => 0,
                }
            };
            put_u8(buffer, color_index);
            proof {
                assert(stored[pixel_index as int] == color_index);
                assert(stored.take(pixel_index as int).push(color_index) =~= stored.take(
                    pixel_index + 1,
                ));
                assert((start + stored.take(pixel_index as int)).push(color_index) =~= start
                    + stored.take(pixel_index + 1));
            }
            pixel_index += 1;
            x += 1;
        }
        proof {
            assert((y + 1) * width == y * width + width) by (nonlinear_arith);
        }
        y += 1;
    }
    proof {
        assert(height * width == width * height) by (nonlinear_arith);
        assert(stored.take(pixel_index as int) =~= stored);
    }
}

/// Writes a sprite as a file of the standard dialect.
#[verifier::rlimit(40)]
pub fn encode(sprite_info: SpriteInfo, palette: &Palette) -> (result: Result<Bytes, FormatError>)
    ensures
        bytes_outcome(result) == encoded(sprite_info@, palette.colors@),
{
    let ghost sprite = sprite_info@;
    let ghost colors = palette.colors@;
    let frame_count = sprite_info.frames.len();
    if frame_count > 65535 {
        return Err(FormatError::StructuralViolation(Violation::TooLarge));
    }
    let mut images_buffer = writer();
    let mut headers_buffer = writer();
    let mut k: usize = 0;
    while k < frame_count
        invariant
            0 <= k <= frame_count,
            frame_count == sprite_info.frames@.len(),
            frame_count <= 65535,
            sprite == sprite_info@,
            colors == palette.colors@,
            forall|j: int| 0 <= j < k ==> frame_fits(sprite, colors, j),
            written(headers_buffer) == join(k as nat, headers_of(sprite, colors)),
            written(headers_buffer).len() == 8 * k,
            written(images_buffer) == join(k as nat, data_of(sprite, colors)),
            data_start(sprite, colors, k as int) <= isize::MAX,
        decreases frame_count - k,
    {
        let frame = &sprite_info.frames[k];
        let width = frame.image.width();
        let height = frame.image.height();
        proof {
            assert(frame@ == sprite.frames[k as int]);
            lemma_join_len(k as nat, data_of(sprite, colors));
            lemma_join_len((k + 1) as nat, data_of(sprite, colors));
            assert(data_of(sprite, colors)(k as int).len() == width * height);
        }
        let offset: u64 = 2 + 8 * (frame_count as u64) + (written_len(&images_buffer) as u64);
        if width > 65535 || height > 65535 || offset > u32::MAX as u64 {
            proof {
                assert(!frame_fits(sprite, colors, k as int));
            }
            return Err(FormatError::StructuralViolation(Violation::TooLarge));
        }
        proof {
            lemma_product_bounded(width as int, height as int, 65535, 65535);
        }
        let size: u64 = (width as u64) * (height as u64);
        if offset + size > isize::MAX as u64 {
            proof {
                assert(!frame_fits(sprite, colors, k as int));
            }
            return Err(FormatError::StructuralViolation(Violation::TooLarge));
        }
        let ghost headers = written(headers_buffer);
        put_u32_le(&mut headers_buffer, offset as u32);
        put_u16_le(&mut headers_buffer, width as u16);
        put_u16_le(&mut headers_buffer, height as u16);
        write_indexes(&mut images_buffer, frame, palette);
        proof {
            assert(frame_fits(sprite, colors, k as int));
            assert(headers_of(sprite, colors)(k as int) == le32_bytes(offset as int) + le16_bytes(
                width as int,
            ) + le16_bytes(height as int));
            assert(written(headers_buffer) =~= headers + headers_of(sprite, colors)(k as int));
        }
        k += 1;
    }
    let mut buffer = writer();
    put_u16_le(&mut buffer, frame_count as u16);
    proof {
        lemma_join_len(frame_count as nat, data_of(sprite, colors));
    }
    unsplit(&mut buffer, headers_buffer);
    unsplit(&mut buffer, images_buffer);
    proof {
        assert(written(buffer) =~= le16_bytes(frame_count as int) + join(
            frame_count as nat,
            headers_of(sprite, colors),
        ) + join(frame_count as nat, data_of(sprite, colors)));
    }
    Ok(freeze(buffer))
}

/// The frames that are read back from the file of a sprite: each with the
/// indexes that were written for it, and the image that they stand for.
pub open spec fn reread(sprite: SpriteView, colors: Seq<(u8, u8, u8)>) -> Seq<FrameView> {
    Seq::new(
        sprite.frames.len(),
        |index: int|
            indexed_frame(
                colors,
                sprite.frames[index].image.width,
                sprite.frames[index].image.height,
                stored_indexes(colors, sprite.frames[index]),
            ),
    )
}

proof fn lemma_headers_len(sprite: SpriteView, colors: Seq<(u8, u8, u8)>, count: nat)
    ensures
        joined_len(count, headers_of(sprite, colors)) == 8 * count,
    decreases count,
{
    if count > 0 {
        lemma_headers_len(sprite, colors, (count - 1) as nat);
    }
}

#[verifier::rlimit(40)]
proof fn lemma_header_fields(sprite: SpriteView, colors: Seq<(u8, u8, u8)>, index: int)
    requires
        encodable(sprite, colors),
        0 <= index < sprite.frames.len(),
    ensures
        table_width(encoded(sprite, colors)->Ok_0, false, index)
            == sprite.frames[index].image.width,
        table_height(encoded(sprite, colors)->Ok_0, false, index)
            == sprite.frames[index].image.height,
{
    let count = sprite.frames.len();
    let headers = headers_of(sprite, colors);
    let data = join(count, data_of(sprite, colors));
    let bytes = encoded(sprite, colors)->Ok_0;
    let image = sprite.frames[index].image;
    assert(frame_fits(sprite, colors, index));
    lemma_headers_len(sprite, colors, index as nat);
    lemma_headers_len(sprite, colors, count);
    lemma_join_len(count, headers);
    crate::sequence::lemma_join_holds(count, headers, index);
    crate::sequence::lemma_holds_framed(
        le16_bytes(count as int),
        join(count, headers),
        data,
        8 * index,
        headers(index),
    );
    let offset = le32_bytes(data_start(sprite, colors, index));
    let width = le16_bytes(image.width as int);
    let height = le16_bytes(image.height as int);
    assert(headers(index) == offset + width + height);
    crate::sequence::lemma_holds_both(bytes, 2 + 8 * index, offset + width, height);
    crate::sequence::lemma_holds_both(bytes, 2 + 8 * index, offset, width);
    crate::buffer::lemma_le16_at(bytes, 2 + 8 * index + 4, image.width as int);
    crate::buffer::lemma_le16_at(bytes, 2 + 8 * index + 6, image.height as int);
}

#[verifier::rlimit(40)]
proof fn lemma_pixels_before(sprite: SpriteView, colors: Seq<(u8, u8, u8)>, count: nat)
    requires
        encodable(sprite, colors),
        count <= sprite.frames.len(),
    ensures
        pixels_before(encoded(sprite, colors)->Ok_0, false, count) == joined_len(
            count,
            data_of(sprite, colors),
        ),
    decreases count,
{
    if count > 0 {
        lemma_pixels_before(sprite, colors, (count - 1) as nat);
        lemma_header_fields(sprite, colors, count - 1);
        assert(data_of(sprite, colors)(count - 1).len() == sprite.frames[count - 1].image.width
            * sprite.frames[count - 1].image.height);
    }
}

/// A frame that carries an index for each of its pixels is written with
/// exactly those indexes: no colour is matched.
pub proof fn lemma_explicit_indexes_stored(colors: Seq<(u8, u8, u8)>, frame: FrameView)
    requires
        frame.image.wf(),
        frame.is_indexed(),
    ensures
        stored_indexes(colors, frame) == frame.color_indexes,
{
    assert(stored_indexes(colors, frame) =~= frame.color_indexes);
}

/// A sprite that is written in the standard dialect and read again has its
/// frames in the same number, order and size, each with the indexes that were
/// written for it. For a frame that carried an index for each pixel these
/// are its own indexes.
#[verifier::rlimit(40)]
pub proof fn lemma_indexes_survive(sprite: SpriteView, colors: Seq<(u8, u8, u8)>)
    requires
        encodable(sprite, colors),
        forall|index: int|
            0 <= index < sprite.frames.len() ==> (#[trigger] sprite.frames[index]).image.wf(),
    ensures
        encoded(sprite, colors) is Ok,
        decoded(encoded(sprite, colors)->Ok_0, colors) == Ok::<SpriteView, FormatError>(
            indexed_sprite(reread(sprite, colors), false),
        ),
        forall|index: int|
            0 <= index < sprite.frames.len() && (#[trigger] sprite.frames[index]).is_indexed()
                ==> reread(sprite, colors)[index].color_indexes
                == sprite.frames[index].color_indexes,
{
    let count = sprite.frames.len();
    let headers = headers_of(sprite, colors);
    let data = data_of(sprite, colors);
    let bytes = encoded(sprite, colors)->Ok_0;
    let frames_of = table_frames(bytes, colors, false);
    lemma_headers_len(sprite, colors, count);
    lemma_join_len(count, headers);
    lemma_join_len(count, data);
    assert(bytes =~= le16_bytes(count as int) + (join(count, headers) + join(count, data)));
    crate::buffer::lemma_le16_roundtrip(count as int, join(count, headers) + join(count, data));
    assert forall|index: int| 0 <= index < count implies #[trigger] frames_of(index) == Ok::<
        FrameView,
        FormatError,
    >(reread(sprite, colors)[index]) by {
        let image = sprite.frames[index].image;
        lemma_header_fields(sprite, colors, index);
        lemma_pixels_before(sprite, colors, index as nat);
        crate::sequence::lemma_join_holds(count, data, index);
        assert(bytes =~= (le16_bytes(count as int) + join(count, headers)) + join(count, data)
            + Seq::<u8>::empty());
        crate::sequence::lemma_holds_framed(
            le16_bytes(count as int) + join(count, headers),
            join(count, data),
            Seq::<u8>::empty(),
            joined_len(index as nat, data) as int,
            data(index),
        );
        assert(data(index).len() == image.width * image.height);
    }
    crate::sequence::lemma_collect_all(count, frames_of, reread(sprite, colors));
    assert forall|index: int|
        0 <= index < sprite.frames.len() && (#[trigger] sprite.frames[index]).is_indexed() implies reread(
        sprite,
        colors,
    )[index].color_indexes == sprite.frames[index].color_indexes by {
        lemma_explicit_indexes_stored(colors, sprite.frames[index]);
    }
}

} // verus!
