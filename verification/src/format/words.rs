//! Files of raw pixel words: a file header with a flag and the image count,
//! a table of image headers (offset, width, height), then every image as one
//! 16-bit word per pixel. The little-endian files carry their pixel layout in
//! the flag; the big-endian files have one layout only.

use crate::buffer::{
    cursor_over, field16, field16_bytes, field32, field32_bytes, freeze, get_u16, get_u32, put_u16,
    put_u32, remaining, share, unread, unsplit, writer, written, written_len, ByteOrder,
};
use crate::error::{FormatError, Violation};
use crate::file::{frame_views, outcome, Frame, FrameView, SpriteInfo, SpriteView};
use crate::format::{
    bytes_outcome, file_header_error, image_header_error, pixel_565_be, pixel_of, raw_bytes,
    read_raw_image, stored_image, stored_pixels, word_be, word_of, write_raw_image, PixelFormat,
    RawStyle,
};
use crate::raster::{lemma_product_bounded, ImageView};
use image::Rgba;
use crate::sequence::{collect, join, joined_len, lemma_collect_failed, lemma_join_len};
use bytes::{Bytes, BytesMut};
use vstd::prelude::*;

verus! {

struct FileHeader {
    pixel_format: u32,
    image_count: u16,
}

struct ImageHeader {
    offset: u32,
    width: u16,
    height: u16,
}

/// The pixel layout of a file: in a little-endian file a flag of 0 selects
/// 5-5-5 and any other 5-6-5; a big-endian file is always 5-6-5.
pub open spec fn layout_of(flag: int, order: ByteOrder) -> PixelFormat {
    if order == ByteOrder::Little && flag == 0 {
        PixelFormat::Format555
    } else {
        PixelFormat::Format565
    }
}

/// How the pixels of a file are stored.
pub open spec fn style_of(pixel_format: PixelFormat, order: ByteOrder) -> RawStyle {
    match order {
        ByteOrder::Little => RawStyle::Keyed(pixel_format),
        ByteOrder::Big => RawStyle::BigEndian,
    }
}

/// The number of images that the file header declares.
pub open spec fn header_count(bytes: Seq<u8>, order: ByteOrder) -> nat
    recommends
        bytes.len() >= 6,
{
    field16(bytes.skip(4), order) as nat
}

/// Where image header `index` starts.
pub open spec fn header_start(index: int) -> int {
    6 + 8 * index
}

/// The frame that image header `index` describes.
pub open spec fn frame_at(bytes: Seq<u8>, order: ByteOrder, index: int) -> Result<
    FrameView,
    FormatError,
> {
    let header = bytes.skip(header_start(index));
    match stored_image(
        bytes,
        field32(header, order),
        field16(header.skip(4), order) as nat,
        field16(header.skip(6), order) as nat,
        style_of(layout_of(field32(bytes, order), order), order),
    ) {
        Ok(image) => Ok(FrameView { image, color_indexes: Seq::empty() }),
        Err(error) => Err(error),
    }
}

/// The frames of a file, as a function of the header index.
pub open spec fn frames_of(bytes: Seq<u8>, order: ByteOrder) -> spec_fn(int) -> Result<
    FrameView,
    FormatError,
> {
    |index: int| frame_at(bytes, order, index)
}

/// What a file holds. A file shorter than its six-byte header is rejected,
/// and so is one that is too short to hold the header of every image that
/// it declares; the images are read in header order, and the first whose
/// pixels do not lie inside the file gives the error.
pub open spec fn decoded(bytes: Seq<u8>, order: ByteOrder) -> Result<SpriteView, FormatError> {
    if bytes.len() < 6 {
        Err(FormatError::FileHeaderTruncated)
    } else if bytes.len() < 6 + 8 * header_count(bytes, order) {
        Err(FormatError::ImageHeaderTruncated)
    } else {
        match collect(header_count(bytes, order), frames_of(bytes, order)) {
            Ok(frames) => Ok(
                SpriteView {
                    frames,
                    pixel_format: layout_of(field32(bytes, order), order),
                    cols: 0,
                    rows: 0,
                    read_only: false,
                },
            ),
            Err(error) => Err(error),
        }
    }
}

fn read_file_header(buffer: &mut Bytes, order: ByteOrder) -> (read: Result<FileHeader, FormatError>)
    ensures
        unread(*old(buffer)).len() < 6 ==> read == Err::<FileHeader, FormatError>(
            FormatError::FileHeaderTruncated,
        ) && unread(*final(buffer)) == unread(*old(buffer)),
        unread(*old(buffer)).len() >= 6 ==> read is Ok && read->Ok_0.pixel_format == field32(
            unread(*old(buffer)),
            order,
        ) && read->Ok_0.image_count == field16(unread(*old(buffer)).skip(4), order) && unread(
            *final(buffer),
        ) == unread(*old(buffer)).skip(6),
{
    if remaining(buffer) < 6 {
        return Err(file_header_error());
    }
    let ghost bytes = unread(*buffer);
    let pixel_format = get_u32(buffer, order);
    let image_count = get_u16(buffer, order);
    proof {
        assert(bytes.skip(4).skip(2) =~= bytes.skip(6));
    }
    Ok(FileHeader { pixel_format, image_count })
}

spec fn header_read(header: ImageHeader, from: Seq<u8>, order: ByteOrder) -> bool {
    &&& header.offset == field32(from, order)
    &&& header.width == field16(from.skip(4), order)
    &&& header.height == field16(from.skip(6), order)
}

fn read_image_header(buffer: &mut Bytes, order: ByteOrder) -> (read: Result<
    ImageHeader,
    FormatError,
>)
    ensures
        unread(*old(buffer)).len() < 8 ==> read == Err::<ImageHeader, FormatError>(
            FormatError::ImageHeaderTruncated,
        ) && unread(*final(buffer)) == unread(*old(buffer)),
        unread(*old(buffer)).len() >= 8 ==> read is Ok && header_read(
            read->Ok_0,
            unread(*old(buffer)),
            order,
        ) && unread(*final(buffer)) == unread(*old(buffer)).skip(8),
{
    if remaining(buffer) < 8 {
        return Err(image_header_error());
    }
    let ghost bytes = unread(*buffer);
    let offset = get_u32(buffer, order);
    let width = get_u16(buffer, order);
    let height = get_u16(buffer, order);
    proof {
        assert(bytes.skip(4).skip(2) =~= bytes.skip(6));
        assert(bytes.skip(6).skip(2) =~= bytes.skip(8));
    }
    Ok(ImageHeader { offset, width, height })
}

/// Reads a file of raw pixel words in the given byte order.
pub(crate) fn decode(contents: &[u8], order: ByteOrder) -> (result: Result<SpriteInfo, FormatError>)
    ensures
        outcome(result) == decoded(contents@, order),
{
    let ghost bytes = contents@;
    let file = cursor_over(contents);
    let mut buffer = share(&file);
    let file_header = match read_file_header(&mut buffer, order) {
        Ok(file_header) => file_header,
        Err(error) => {
            return Err(error);
        },
    };
    let pixel_format = match order {
        ByteOrder::Little => match file_header.pixel_format {
            0 => PixelFormat::Format555,
            _ => PixelFormat::Format565,
        },
        ByteOrder::Big => PixelFormat::Format565,
    };
    let style = match order {
        ByteOrder::Little => RawStyle::Keyed(pixel_format),
        ByteOrder::Big => RawStyle::BigEndian,
    };
    let mut image_headers: Vec<ImageHeader> = Vec::new();
    let mut k: u16 = 0;
    while k < file_header.image_count
        invariant
            0 <= k <= file_header.image_count,
            bytes == contents@,
            bytes.len() >= 6 + 8 * k,
            file_header.image_count == field16(bytes.skip(4), order),
            image_headers@.len() == k,
            unread(buffer) == bytes.skip(header_start(k as int)),
            forall|j: int|
                0 <= j < image_headers@.len() ==> header_read(
                    #[trigger] image_headers@[j],
                    bytes.skip(header_start(j)),
                    order,
                ),
        decreases file_header.image_count - k,
    {
        let ghost at = header_start(k as int);
        match read_image_header(&mut buffer, order) {
            Ok(image_header) => {
                proof {
                    assert(bytes.skip(at).skip(8) =~= bytes.skip(at + 8));
                }
                image_headers.push(image_header);
            },
            Err(error) => {
                return Err(error);
            },
        }
        k += 1;
    }
    assert(image_headers@.len() == header_count(bytes, order));
    let mut frames: Vec<Frame> = Vec::new();
    let mut i: usize = 0;
    assert(frame_views(frames@) =~= Seq::<FrameView>::empty());
    while i < image_headers.len()
        invariant
            0 <= i <= image_headers@.len(),
            bytes == contents@,
            unread(file) == bytes,
            bytes.len() >= 6 + 8 * header_count(bytes, order),
            pixel_format == layout_of(field32(bytes, order), order),
            style == style_of(pixel_format, order),
            image_headers@.len() == header_count(bytes, order),
            forall|j: int|
                0 <= j < image_headers@.len() ==> header_read(
                    #[trigger] image_headers@[j],
                    bytes.skip(header_start(j)),
                    order,
                ),
            collect(i as nat, frames_of(bytes, order)) == Ok::<Seq<FrameView>, FormatError>(
                frame_views(frames@),
            ),
        decreases image_headers@.len() - i,
    {
        let header = &image_headers[i];
        proof {
            assert(header_read(*header, bytes.skip(header_start(i as int)), order));
        }
        match read_raw_image(&file, header.offset as u64, header.width, header.height, style) {
            Ok(image) => {
                let ghost before = frame_views(frames@);
                let frame = Frame { image, color_indexes: Vec::new() };
                proof {
                    assert(frames_of(bytes, order)(i as int) == Ok::<FrameView, FormatError>(
                        frame@,
                    ));
                }
                frames.push(frame);
                proof {
                    assert(frame_views(frames@) =~= before.push(frame@));
                }
            },
            Err(error) => {
                proof {
                    assert(frames_of(bytes, order)(i as int) == Err::<FrameView, FormatError>(
                        error,
                    ));
                    assert(collect((i + 1) as nat, frames_of(bytes, order)) == Err::<
                        Seq<FrameView>,
                        FormatError,
                    >(error));
                    lemma_collect_failed(
                        (i + 1) as nat,
                        header_count(bytes, order),
                        frames_of(bytes, order),
                    );
                }
                return Err(error);
            },
        }
        i += 1;
    }
    Ok(SpriteInfo { frames, pixel_format, cols: 0, rows: 0, read_only: false })
}

/// The flag that a file header stores: in a little-endian file 0 for 5-5-5
/// and 1 for 5-6-5; in a big-endian file always 1.
pub open spec fn flag_of(pixel_format: PixelFormat, order: ByteOrder) -> int {
    if order == ByteOrder::Little && pixel_format == PixelFormat::Format555 {
        0
    } else {
        1
    }
}

/// The pixel words of each frame, as a function of the frame index.
pub open spec fn data_of(sprite: SpriteView, order: ByteOrder) -> spec_fn(int) -> Seq<u8> {
    |index: int| raw_bytes(sprite.frames[index].image.pixels, style_of(sprite.pixel_format, order))
}

/// Where the pixel words of frame `index` start in the file: behind the
/// file header, all the image headers, and the words of the frames before it.
pub open spec fn data_start(sprite: SpriteView, order: ByteOrder, index: int) -> int {
    (6 + 8 * sprite.frames.len() + joined_len(index as nat, data_of(sprite, order))) as int
}

/// The image header of each frame, as a function of the frame index.
pub open spec fn headers_of(sprite: SpriteView, order: ByteOrder) -> spec_fn(int) -> Seq<u8> {
    |index: int|
        field32_bytes(data_start(sprite, order, index), order) + field16_bytes(
            sprite.frames[index].image.width as int,
            order,
        ) + field16_bytes(sprite.frames[index].image.height as int, order)
}

/// Whether frame `index` can be written: its width and height must fit 16
/// bits and its offset 32 bits, and the file up to its end must not pass the
/// largest allocation.
pub open spec fn frame_fits(sprite: SpriteView, order: ByteOrder, index: int) -> bool {
    let image = sprite.frames[index].image;
    &&& image.width <= 65535
    &&& image.height <= 65535
    &&& data_start(sprite, order, index) <= u32::MAX
    &&& data_start(sprite, order, index + 1) <= isize::MAX
}

/// Whether a sprite can be written: at most 65535 frames, each of which fits.
pub open spec fn encodable(sprite: SpriteView, order: ByteOrder) -> bool {
    &&& sprite.frames.len() <= 65535
    &&& forall|index: int| 0 <= index < sprite.frames.len() ==> frame_fits(sprite, order, index)
}

/// The file of a sprite: the flag and the frame count, one header per frame,
/// then the pixel words of every frame.
pub open spec fn encoded(sprite: SpriteView, order: ByteOrder) -> Result<Seq<u8>, FormatError> {
    let count = sprite.frames.len();
    if encodable(sprite, order) {
        Ok(
            field32_bytes(flag_of(sprite.pixel_format, order), order) + field16_bytes(
                count as int,
                order,
            ) + join(count, headers_of(sprite, order)) + join(count, data_of(sprite, order)),
        )
    } else {
        Err(FormatError::StructuralViolation(Violation::TooLarge))
    }
}

fn write_file_header(
    buffer: &mut BytesMut,
    pixel_format: PixelFormat,
    image_count: u16,
    order: ByteOrder,
)
    requires
        written(*old(buffer)).len() + 6 <= isize::MAX,
    ensures
        written(*final(buffer)) == written(*old(buffer)) + field32_bytes(
            flag_of(pixel_format, order),
            order,
        ) + field16_bytes(image_count as int, order),
{
    let flag: u32 = match order {
        ByteOrder::Little => match pixel_format {
            PixelFormat::Format555 => 0,
            PixelFormat::Format565 => 1,
        },
        ByteOrder::Big => 1,
    };
    put_u32(buffer, flag, order);
    put_u16(buffer, image_count, order);
}

fn write_image_header(
    buffer: &mut BytesMut,
    offset: u32,
    width: u16,
    height: u16,
    order: ByteOrder,
)
    requires
        written(*old(buffer)).len() + 8 <= isize::MAX,
    ensures
        written(*final(buffer)) == written(*old(buffer)) + (field32_bytes(offset as int, order)
            + field16_bytes(width as int, order) + field16_bytes(height as int, order)),
        written(*final(buffer)).len() == written(*old(buffer)).len() + 8,
{
    let ghost start = written(*buffer);
    put_u32(buffer, offset, order);
    put_u16(buffer, width, order);
    put_u16(buffer, height, order);
    proof {
        assert(written(*buffer) =~= start + (field32_bytes(offset as int, order) + field16_bytes(
            width as int,
            order,
        ) + field16_bytes(height as int, order)));
    }
}

/// Writes a sprite as a file of raw pixel words in the given byte order.
pub(crate) fn encode(sprite_info: SpriteInfo, order: ByteOrder) -> (result: Result<
    Bytes,
    FormatError,
>)
    ensures
        bytes_outcome(result) == encoded(sprite_info@, order),
{
    let ghost sprite = sprite_info@;
    let frame_count = sprite_info.frames.len();
    if frame_count > 65535 {
        return Err(FormatError::StructuralViolation(Violation::TooLarge));
    }
    let style = match order {
        ByteOrder::Little => RawStyle::Keyed(sprite_info.pixel_format),
        ByteOrder::Big => RawStyle::BigEndian,
    };
    let mut images_buffer = writer();
    let mut headers_buffer = writer();
    let mut k: usize = 0;
    while k < frame_count
        invariant
            0 <= k <= frame_count,
            frame_count == sprite_info.frames@.len(),
            frame_count <= 65535,
            sprite == sprite_info@,
            style == style_of(sprite.pixel_format, order),
            forall|j: int| 0 <= j < k ==> frame_fits(sprite, order, j),
            written(headers_buffer) == join(k as nat, headers_of(sprite, order)),
            written(headers_buffer).len() == 8 * k,
            written(images_buffer) == join(k as nat, data_of(sprite, order)),
            data_start(sprite, order, k as int) <= isize::MAX,
        decreases frame_count - k,
    {
        let frame = &sprite_info.frames[k];
        let width = frame.image.width();
        let height = frame.image.height();
        proof {
            assert(frame@ == sprite.frames[k as int]);
            lemma_join_len(k as nat, data_of(sprite, order));
            lemma_join_len((k + 1) as nat, data_of(sprite, order));
        }
        let offset: u64 = 6 + 8 * (frame_count as u64) + (written_len(&images_buffer) as u64);
        if width > 65535 || height > 65535 || offset > u32::MAX as u64 {
            proof {
                assert(!frame_fits(sprite, order, k as int));
            }
            return Err(FormatError::StructuralViolation(Violation::TooLarge));
        }
        proof {
            lemma_product_bounded(width as int, height as int, 65535, 65535);
        }
        let size: u64 = 2 * ((width as u64) * (height as u64));
        if offset + size > isize::MAX as u64 {
            proof {
                assert(!frame_fits(sprite, order, k as int));
            }
            return Err(FormatError::StructuralViolation(Violation::TooLarge));
        }
        write_image_header(&mut headers_buffer, offset as u32, width as u16, height as u16, order);
        write_raw_image(&mut images_buffer, &frame.image, style);
        proof {
            assert(frame_fits(sprite, order, k as int));
            assert(headers_of(sprite, order)(k as int) == field32_bytes(offset as int, order)
                + field16_bytes(width as int, order) + field16_bytes(height as int, order));
        }
        k += 1;
    }
    let mut buffer = writer();
    write_file_header(&mut buffer, sprite_info.pixel_format, frame_count as u16, order);
    proof {
        lemma_join_len(frame_count as nat, data_of(sprite, order));
    }
    unsplit(&mut buffer, headers_buffer);
    unsplit(&mut buffer, images_buffer);
    proof {
        assert(written(buffer) =~= field32_bytes(flag_of(sprite.pixel_format, order), order)
            + field16_bytes(frame_count as int, order) + join(
            frame_count as nat,
            headers_of(sprite, order),
        ) + join(frame_count as nat, data_of(sprite, order)));
    }
    Ok(freeze(buffer))
}

/// What a pixel looks like after it was written and read again: it has the
/// colour of its word, cut to the precision of the layout; a pixel that the
/// little-endian files write as the zero word comes back transparent.
pub open spec fn shown(pixel: Rgba<u8>, style: RawStyle) -> Rgba<u8> {
    match style {
        RawStyle::Keyed(pixel_format) => if pixel.0[3] == 0 {
            pixel_of(0, pixel_format)
        } else {
            pixel_of(word_of(pixel, pixel_format), pixel_format)
        },
        RawStyle::Plain(pixel_format) => pixel_of(word_of(pixel, pixel_format), pixel_format),
        RawStyle::BigEndian => pixel_565_be(word_be(pixel.0[0], pixel.0[1], pixel.0[2])),
    }
}

/// The frames that are read back from the file of a sprite.
pub open spec fn reread(sprite: SpriteView, order: ByteOrder) -> Seq<FrameView> {
    Seq::new(
        sprite.frames.len(),
        |index: int|
            FrameView {
                image: ImageView {
                    width: sprite.frames[index].image.width,
                    height: sprite.frames[index].image.height,
                    pixels: Seq::new(
                        sprite.frames[index].image.pixels.len(),
                        |i: int|
                            shown(
                                sprite.frames[index].image.pixels[i],
                                style_of(sprite.pixel_format, order),
                            ),
                    ),
                },
                color_indexes: Seq::empty(),
            },
    )
}

/// The file of a sprite, joined from its parts.
pub open spec fn file_of(sprite: SpriteView, order: ByteOrder) -> Seq<u8> {
    field32_bytes(flag_of(sprite.pixel_format, order), order) + field16_bytes(
        sprite.frames.len() as int,
        order,
    ) + join(sprite.frames.len(), headers_of(sprite, order)) + join(
        sprite.frames.len(),
        data_of(sprite, order),
    )
}

proof fn lemma_headers_len(sprite: SpriteView, order: ByteOrder, count: nat)
    ensures
        joined_len(count, headers_of(sprite, order)) == 8 * count,
    decreases count,
{
    if count > 0 {
        lemma_headers_len(sprite, order, (count - 1) as nat);
    }
}

/// The pixels that were written are read back as the pixels shown.
#[verifier::rlimit(40)]
pub proof fn lemma_pixels_read(
    file: Seq<u8>,
    at: int,
    pixels: Seq<Rgba<u8>>,
    style: RawStyle,
)
    requires
        crate::sequence::holds_at(file, at, raw_bytes(pixels, style)),
    ensures
        stored_pixels(file, at, pixels.len(), style) == Seq::new(
            pixels.len(),
            |i: int| shown(pixels[i], style),
        ),
{
    let data = raw_bytes(pixels, style);
    let read = stored_pixels(file, at, pixels.len(), style);
    let expected = Seq::new(pixels.len(), |i: int| shown(pixels[i], style));
    assert forall|i: int| 0 <= i < pixels.len() implies read[i] == expected[i] by {
        let part = file.subrange(at, at + data.len());
        let two = crate::format::pixel_bytes(pixels[i], style);
        assert(file.subrange(at + 2 * i, at + 2 * i + 2) =~= two) by {
            assert(file[at + 2 * i] == part[2 * i]);
            assert(file[at + 2 * i + 1] == part[2 * i + 1]);
            assert(data[2 * i] == two[0]);
            assert(data[2 * i + 1] == two[1]);
        }
        match style {
            RawStyle::Keyed(pixel_format) => {
                if pixels[i].0[3] == 0 {
                    crate::buffer::lemma_le16_at(file, at + 2 * i, 0);
                } else {
                    crate::buffer::lemma_le16_at(
                        file,
                        at + 2 * i,
                        word_of(pixels[i], pixel_format) as int,
                    );
                }
            },
            RawStyle::Plain(pixel_format) => {
                crate::buffer::lemma_le16_at(
                    file,
                    at + 2 * i,
                    word_of(pixels[i], pixel_format) as int,
                );
            },
            RawStyle::BigEndian => {
                crate::buffer::lemma_field16_at(
                    file,
                    at + 2 * i,
                    word_be(pixels[i].0[0], pixels[i].0[1], pixels[i].0[2]) as int,
                    ByteOrder::Big,
                );
            },
        }
    }
    assert(read =~= expected);
}

/// The file of a sprite holds the three fields of each header one behind
/// the other.
#[verifier::rlimit(40)]
proof fn lemma_header_parts(sprite: SpriteView, order: ByteOrder, index: int)
    requires
        0 <= index < sprite.frames.len(),
    ensures
        ({
            let file = file_of(sprite, order);
            let at = header_start(index);
            let image = sprite.frames[index].image;
            &&& at + 8 <= file.len()
            &&& crate::sequence::holds_at(
                file,
                at,
                field32_bytes(data_start(sprite, order, index), order),
            )
            &&& crate::sequence::holds_at(file, at + 4, field16_bytes(image.width as int, order))
            &&& crate::sequence::holds_at(file, at + 6, field16_bytes(image.height as int, order))
        }),
{
    let count = sprite.frames.len();
    let headers = headers_of(sprite, order);
    let data = join(count, data_of(sprite, order));
    let file = file_of(sprite, order);
    let image = sprite.frames[index].image;
    let front = field32_bytes(flag_of(sprite.pixel_format, order), order) + field16_bytes(
        count as int,
        order,
    );
    lemma_headers_len(sprite, order, index as nat);
    lemma_headers_len(sprite, order, count);
    lemma_join_len(count, headers);
    crate::sequence::lemma_join_holds(count, headers, index);
    crate::sequence::lemma_holds_framed(front, join(count, headers), data, 8 * index, headers(index));
    let offset = field32_bytes(data_start(sprite, order, index), order);
    let width = field16_bytes(image.width as int, order);
    let height = field16_bytes(image.height as int, order);
    assert(headers(index) == offset + width + height);
    let at = header_start(index);
    crate::sequence::lemma_holds_both(file, at, offset + width, height);
    crate::sequence::lemma_holds_both(file, at, offset, width);
}

/// The fields of the header of a frame are read back as they were written.
#[verifier::rlimit(40)]
proof fn lemma_header_fields(sprite: SpriteView, order: ByteOrder, index: int)
    requires
        0 <= index < sprite.frames.len(),
        sprite.frames[index].image.width <= 65535,
        sprite.frames[index].image.height <= 65535,
        0 <= data_start(sprite, order, index) <= u32::MAX,
    ensures
        ({
            let header = file_of(sprite, order).skip(header_start(index));
            &&& field32(header, order) == data_start(sprite, order, index)
            &&& field16(header.skip(4), order) == sprite.frames[index].image.width
            &&& field16(header.skip(6), order) == sprite.frames[index].image.height
        }),
{
    let file = file_of(sprite, order);
    let image = sprite.frames[index].image;
    let at = header_start(index);
    lemma_header_parts(sprite, order, index);
    crate::buffer::lemma_field32_at(file, at, data_start(sprite, order, index), order);
    crate::buffer::lemma_field16_at(file, at + 4, image.width as int, order);
    crate::buffer::lemma_field16_at(file, at + 6, image.height as int, order);
    let header = file.skip(at);
    assert(header.skip(4) =~= file.skip(at + 4));
    assert(header.skip(6) =~= file.skip(at + 6));
}

/// The file of a sprite holds the pixel words of each frame where its
/// header says.
#[verifier::rlimit(40)]
proof fn lemma_data_held(sprite: SpriteView, order: ByteOrder, index: int)
    requires
        0 <= index < sprite.frames.len(),
    ensures
        crate::sequence::holds_at(
            file_of(sprite, order),
            data_start(sprite, order, index),
            raw_bytes(sprite.frames[index].image.pixels, style_of(sprite.pixel_format, order)),
        ),
{
    let count = sprite.frames.len();
    let file = file_of(sprite, order);
    let data = data_of(sprite, order);
    let front = field32_bytes(flag_of(sprite.pixel_format, order), order) + field16_bytes(
        count as int,
        order,
    ) + join(count, headers_of(sprite, order));
    lemma_headers_len(sprite, order, count);
    lemma_join_len(count, headers_of(sprite, order));
    crate::sequence::lemma_join_holds(count, data, index);
    crate::sequence::lemma_holds_framed(
        front,
        join(count, data),
        Seq::<u8>::empty(),
        joined_len(index as nat, data) as int,
        data(index),
    );
    assert(front + join(count, data) + Seq::<u8>::empty() =~= file);
}

/// A frame of a file that was written is read back as the frame shown.
#[verifier::rlimit(40)]
proof fn lemma_frame_roundtrip(sprite: SpriteView, order: ByteOrder, index: int)
    requires
        encodable(sprite, order),
        0 <= index < sprite.frames.len(),
        sprite.frames[index].image.wf(),
    ensures
        frame_at(file_of(sprite, order), order, index) == Ok::<FrameView, FormatError>(
            reread(sprite, order)[index],
        ),
{
    let file = file_of(sprite, order);
    let image = sprite.frames[index].image;
    let style = style_of(sprite.pixel_format, order);
    assert(frame_fits(sprite, order, index));
    lemma_file_header(sprite, order);
    lemma_header_fields(sprite, order, index);
    lemma_data_held(sprite, order, index);
    lemma_pixels_read(file, data_start(sprite, order, index), image.pixels, style);
    assert(style_of(layout_of(field32(file, order), order), order) == style);
}

/// The flag and the count of a file are read back as they were written.
#[verifier::rlimit(40)]
proof fn lemma_file_header(sprite: SpriteView, order: ByteOrder)
    requires
        sprite.frames.len() <= 65535,
    ensures
        file_of(sprite, order).len() == 6 + 8 * sprite.frames.len() + joined_len(
            sprite.frames.len(),
            data_of(sprite, order),
        ),
        field32(file_of(sprite, order), order) == flag_of(sprite.pixel_format, order),
        field16(file_of(sprite, order).skip(4), order) == sprite.frames.len(),
{
    let count = sprite.frames.len();
    let file = file_of(sprite, order);
    lemma_headers_len(sprite, order, count);
    lemma_join_len(count, headers_of(sprite, order));
    lemma_join_len(count, data_of(sprite, order));
    assert(file.subrange(0, 4) =~= field32_bytes(flag_of(sprite.pixel_format, order), order));
    assert(file.subrange(4, 6) =~= field16_bytes(count as int, order));
    crate::buffer::lemma_field32_at(file, 0, flag_of(sprite.pixel_format, order), order);
    assert(file.skip(0) =~= file);
    crate::buffer::lemma_field16_at(file, 4, count as int, order);
}

/// A sprite that is written as raw pixel words and read again has the same
/// frames in the same order and size; each pixel has the colour of the word
/// that was written for it. The sprite that is read has the pixel layout
/// that the file can say: its own in a little-endian file, 5-6-5 in a
/// big-endian one.
pub proof fn lemma_roundtrip(sprite: SpriteView, order: ByteOrder)
    requires
        encodable(sprite, order),
        forall|index: int|
            0 <= index < sprite.frames.len() ==> (#[trigger] sprite.frames[index]).image.wf(),
    ensures
        encoded(sprite, order) == Ok::<Seq<u8>, FormatError>(file_of(sprite, order)),
        decoded(file_of(sprite, order), order) == Ok::<SpriteView, FormatError>(
            SpriteView {
                frames: reread(sprite, order),
                pixel_format: layout_of(flag_of(sprite.pixel_format, order), order),
                cols: 0,
                rows: 0,
                read_only: false,
            },
        ),
        order == ByteOrder::Little ==> layout_of(flag_of(sprite.pixel_format, order), order)
            == sprite.pixel_format,
{
    let count = sprite.frames.len();
    let file = file_of(sprite, order);
    let frames_of = frames_of(file, order);
    lemma_file_header(sprite, order);
    assert(header_count(file, order) == count);
    assert forall|index: int| 0 <= index < count implies #[trigger] frames_of(index) == Ok::<
        FrameView,
        FormatError,
    >(reread(sprite, order)[index]) by {
        lemma_frame_roundtrip(sprite, order, index);
    }
    crate::sequence::lemma_collect_all(count, frames_of, reread(sprite, order));
}

} // verus!
