//! The 16-bit pixel layouts shared by the sprite formats, and the formats
//! themselves, one module each.

use crate::buffer::{
    advance, be16, be16_bytes, get_u16_be, get_u16_le, le16, le16_bytes, put_u16_be, put_u16_le,
    remaining, share, unread, written,
};
use crate::error::{FormatError, Violation};
use crate::file::{Frame, FrameView};
use crate::palette::Palette;
use crate::raster::{
    allocatable, lemma_index_in_grid, lemma_product_bounded, rgba, ImageView, RgbaImage,
};
use bytes::{Bytes, BytesMut};
use image::Rgba;
use vstd::prelude::*;

pub mod blk;
pub mod c16;
pub mod dta;
pub mod m16;
pub mod photo_album;
pub mod s16;
pub mod spr;
pub mod words;

verus! {

/// How a 16-bit word is split into red, green and blue.
#[derive(Debug, Copy, Clone, PartialEq, Eq, Structural)]
pub enum PixelFormat {
    /// Five bits each, under an unused top bit.
    Format555,
    /// Five bits of red, six of green, five of blue.
    Format565,
}

/// The error of a file that ends inside its file header.
pub fn file_header_error() -> (error: FormatError)
    ensures
        error == FormatError::FileHeaderTruncated,
{
    FormatError::FileHeaderTruncated
}

/// The error of a file that ends inside an image header.
pub fn image_header_error() -> (error: FormatError)
    ensures
        error == FormatError::ImageHeaderTruncated,
{
    FormatError::ImageHeaderTruncated
}

/// The error of a file that ends inside the pixels of an image.
pub fn image_error() -> (error: FormatError)
    ensures
        error == FormatError::ImageDataTruncated,
{
    FormatError::ImageDataTruncated
}

/// The low eight bits of a word, as a channel value.
pub open spec fn low_byte(word: u16) -> u8 {
    (word & 0xff) as u8
}

/// A colour with the alpha that the 16-bit formats give it: black is
/// transparent, every other colour opaque.
pub open spec fn black_is_clear(r: u8, g: u8, b: u8) -> Rgba<u8> {
    rgba(
        r,
        g,
        b,
        if r == 0 && g == 0 && b == 0 {
            0
        } else {
            255
        },
    )
}

/// The colour of a word in the 5-5-5 layout. Each channel is a byte-wide
/// window on the word, so its low three bits repeat the top of the next field.
pub open spec fn pixel_555(word: u16) -> Rgba<u8> {
    black_is_clear(low_byte(word >> 7), low_byte(word >> 2), low_byte(word << 3))
}

/// The colour of a word in the 5-6-5 layout.
pub open spec fn pixel_565(word: u16) -> Rgba<u8> {
    black_is_clear(low_byte(word >> 8), low_byte(word >> 3), low_byte(word << 3))
}

/// The colour of a word of the big-endian family, whose blue is shifted by
/// two bits only.
pub open spec fn pixel_565_be(word: u16) -> Rgba<u8> {
    black_is_clear(low_byte(word >> 8), low_byte(word >> 3), low_byte(word << 2))
}

/// The colour of a word in the given layout.
pub open spec fn pixel_of(word: u16, pixel_format: PixelFormat) -> Rgba<u8> {
    match pixel_format {
        PixelFormat::Format555 => pixel_555(word),
        PixelFormat::Format565 => pixel_565(word),
    }
}

/// The 5-5-5 word of a colour: the low bits of each channel are cut off.
pub open spec fn word_555(r: u8, g: u8, b: u8) -> u16 {
    (((r as u16) & 0xf8) << 7) | (((g as u16) & 0xf8) << 2) | (((b as u16) & 0xf8) >> 3)
}

/// The 5-6-5 word of a colour: the low bits of each channel are cut off.
pub open spec fn word_565(r: u8, g: u8, b: u8) -> u16 {
    (((r as u16) & 0xf8) << 8) | (((g as u16) & 0xfc) << 3) | (((b as u16) & 0xf8) >> 3)
}

/// The word of a pixel in the given layout. Alpha plays no part.
pub open spec fn word_of(pixel: Rgba<u8>, pixel_format: PixelFormat) -> u16 {
    match pixel_format {
        PixelFormat::Format555 => word_555(pixel.0[0], pixel.0[1], pixel.0[2]),
        PixelFormat::Format565 => word_565(pixel.0[0], pixel.0[1], pixel.0[2]),
    }
}

/// The bits of a word that a layout stores.
pub open spec fn word_mask(pixel_format: PixelFormat) -> u16 {
    match pixel_format {
        PixelFormat::Format555 => 0x7fff,
        PixelFormat::Format565 => 0xffff,
    }
}

fn byte_of(word: u16) -> (byte: u8)
    ensures
        byte == low_byte(word),
{
    assert(word & 0xff < 256) by (bit_vector);
    (word & 0xff) as u8
}

fn with_alpha(r: u8, g: u8, b: u8) -> (pixel: Rgba<u8>)
    ensures
        pixel == black_is_clear(r, g, b),
{
    let a: u8 = if r == 0 && g == 0 && b == 0 {
        0
    } else {
        255
    };
    Rgba([r, g, b, a])
}

fn parse_pixel_555(pixel: u16) -> (color: Rgba<u8>)
    ensures
        color == pixel_555(pixel),
{
    with_alpha(byte_of(pixel >> 7), byte_of(pixel >> 2), byte_of(pixel << 3))
}

fn parse_pixel_565(pixel: u16) -> (color: Rgba<u8>)
    ensures
        color == pixel_565(pixel),
{
    with_alpha(byte_of(pixel >> 8), byte_of(pixel >> 3), byte_of(pixel << 3))
}

/// Unpacks a word of the big-endian family.
pub fn parse_pixel_565_be(pixel: u16) -> (color: Rgba<u8>)
    ensures
        color == pixel_565_be(pixel),
{
    with_alpha(byte_of(pixel >> 8), byte_of(pixel >> 3), byte_of(pixel << 2))
}

/// Unpacks a word in the given layout. A word whose three channels are zero
/// gives a transparent pixel, any other an opaque one.
pub fn parse_pixel(pixel: u16, pixel_format: PixelFormat) -> (color: Rgba<u8>)
    ensures
        color == pixel_of(pixel, pixel_format),
{
    match pixel_format {
        PixelFormat::Format555 => parse_pixel_555(pixel),
        PixelFormat::Format565 => parse_pixel_565(pixel),
    }
}

fn encode_pixel_555(pixel: &Rgba<u8>) -> (word: u16)
    ensures
        word == word_555(pixel.0[0], pixel.0[1], pixel.0[2]),
{
    let r: u16 = ((pixel.0[0] as u16) & 0xf8) << 7;
    let g: u16 = ((pixel.0[1] as u16) & 0xf8) << 2;
    let b: u16 = ((pixel.0[2] as u16) & 0xf8) >> 3;
    r | g | b
}

fn encode_pixel_565(pixel: &Rgba<u8>) -> (word: u16)
    ensures
        word == word_565(pixel.0[0], pixel.0[1], pixel.0[2]),
{
    let r: u16 = ((pixel.0[0] as u16) & 0xf8) << 8;
    let g: u16 = ((pixel.0[1] as u16) & 0xfc) << 3;
    let b: u16 = ((pixel.0[2] as u16) & 0xf8) >> 3;
    r | g | b
}

/// Packs a pixel in the given layout by cutting off the low bits of each
/// channel. Alpha is not looked at.
pub fn encode_pixel(pixel: &Rgba<u8>, pixel_format: PixelFormat) -> (word: u16)
    ensures
        word == word_of(*pixel, pixel_format),
{
    match pixel_format {
        PixelFormat::Format555 => encode_pixel_555(pixel),
        PixelFormat::Format565 => encode_pixel_565(pixel),
    }
}

/// A word that is unpacked and packed again keeps every bit its layout
/// stores: all sixteen in 5-6-5, all but the unused top bit in 5-5-5.
pub proof fn lemma_word_roundtrip(word: u16, pixel_format: PixelFormat)
    ensures
        word_of(pixel_of(word, pixel_format), pixel_format) & word_mask(pixel_format) == word
            & word_mask(pixel_format),
        word_of(pixel_of(word, pixel_format), pixel_format) == word & word_mask(pixel_format),
{
    match pixel_format {
        PixelFormat::Format555 => {
            assert(word_555(
                ((word >> 7) & 0xff) as u8,
                ((word >> 2) & 0xff) as u8,
                ((word << 3) & 0xff) as u8,
            ) == word & 0x7fff) by (bit_vector);
            assert((word & 0x7fff) & 0x7fff == word & 0x7fff) by (bit_vector);
        },
        PixelFormat::Format565 => {
            assert(word_565(
                ((word >> 8) & 0xff) as u8,
                ((word >> 3) & 0xff) as u8,
                ((word << 3) & 0xff) as u8,
            ) == word & 0xffff) by (bit_vector);
            assert((word & 0xffff) & 0xffff == word & 0xffff) by (bit_vector);
        },
    }
}

/// A word of the big-endian family that is unpacked and packed again keeps
/// every bit but the lowest, which that family does not use.
pub proof fn lemma_word_be_roundtrip(word: u16)
    ensures
        word_be(
            pixel_565_be(word).0[0],
            pixel_565_be(word).0[1],
            pixel_565_be(word).0[2],
        ) == word & 0xfffe,
{
    assert(word_be(
        ((word >> 8) & 0xff) as u8,
        ((word >> 3) & 0xff) as u8,
        ((word << 2) & 0xff) as u8,
    ) == word & 0xfffe) by (bit_vector);
}

/// How a format of raw pixel words stores one pixel.
#[derive(Debug, Copy, Clone, PartialEq, Eq, Structural)]
pub enum RawStyle {
    /// Little-endian words in the given layout; a transparent pixel is
    /// written as the zero word.
    Keyed(PixelFormat),
    /// Little-endian words in the given layout; alpha is not written.
    Plain(PixelFormat),
    /// Big-endian words whose blue is shifted by two bits only.
    BigEndian,
}

/// The big-endian family's word of a colour.
pub open spec fn word_be(r: u8, g: u8, b: u8) -> u16 {
    (((r as u16) << 8) & 0xf800) | (((g as u16) << 3) & 0x07c0) | (((b as u16) >> 2) & 0x003e)
}

/// The pixel stored at byte `at` of `bytes`.
pub open spec fn stored_pixel(bytes: Seq<u8>, at: int, style: RawStyle) -> Rgba<u8> {
    match style {
        RawStyle::Keyed(pixel_format) => pixel_of(le16(bytes.skip(at)) as u16, pixel_format),
        RawStyle::Plain(pixel_format) => pixel_of(le16(bytes.skip(at)) as u16, pixel_format),
        RawStyle::BigEndian => pixel_565_be(be16(bytes.skip(at)) as u16),
    }
}

/// The `count` pixels stored from byte `offset` on, two bytes each.
pub open spec fn stored_pixels(bytes: Seq<u8>, offset: int, count: nat, style: RawStyle) -> Seq<
    Rgba<u8>,
> {
    Seq::new(count, |i: int| stored_pixel(bytes, offset + 2 * i, style))
}

/// The image of raw pixel words that starts at byte `offset`: its data must
/// lie inside the file, and the image must be one that can be allocated.
pub open spec fn stored_image(
    bytes: Seq<u8>,
    offset: int,
    width: nat,
    height: nat,
    style: RawStyle,
) -> Result<ImageView, FormatError> {
    if offset + 2 * (width * height) > bytes.len() {
        Err(FormatError::ImageDataTruncated)
    } else if !allocatable(width as int, height as int) {
        Err(FormatError::StructuralViolation(Violation::TooLarge))
    } else {
        Ok(ImageView { width, height, pixels: stored_pixels(bytes, offset, width * height, style) })
    }
}

/// The two bytes that a style writes for a pixel.
pub open spec fn pixel_bytes(pixel: Rgba<u8>, style: RawStyle) -> Seq<u8> {
    match style {
        RawStyle::Keyed(pixel_format) => if pixel.0[3] == 0 {
            le16_bytes(0)
        } else {
            le16_bytes(word_of(pixel, pixel_format) as int)
        },
        RawStyle::Plain(pixel_format) => le16_bytes(word_of(pixel, pixel_format) as int),
        RawStyle::BigEndian => be16_bytes(word_be(pixel.0[0], pixel.0[1], pixel.0[2]) as int),
    }
}

/// The bytes of a run of pixels, two per pixel, in order.
pub open spec fn raw_bytes(pixels: Seq<Rgba<u8>>, style: RawStyle) -> Seq<u8> {
    Seq::new(2 * pixels.len(), |j: int| pixel_bytes(pixels[j / 2], style)[j % 2])
}

/// The view of an encoder's outcome: the bytes of the file, all unread.
pub open spec fn bytes_outcome(result: Result<Bytes, FormatError>) -> Result<Seq<u8>, FormatError> {
    match result {
        Ok(bytes) => Ok(unread(bytes)),
        Err(error) => Err(error),
    }
}

/// The view of an image decoder's outcome.
pub open spec fn image_outcome(result: Result<RgbaImage, FormatError>) -> Result<
    ImageView,
    FormatError,
> {
    match result {
        Ok(image) => Ok(image@),
        Err(error) => Err(error),
    }
}

/// Reads an image of raw pixel words out of `file`, a cursor at the start of
/// the whole file.
pub(crate) fn read_raw_image(
    file: &Bytes,
    offset: u64,
    width: u16,
    height: u16,
    style: RawStyle,
) -> (read: Result<RgbaImage, FormatError>)
    ensures
        image_outcome(read) == stored_image(
            unread(*file),
            offset as int,
            width as nat,
            height as nat,
            style,
        ),
        read matches Ok(image) ==> image@.wf(),
{
    let ghost bytes = unread(*file);
    let mut buffer = share(file);
    let available = remaining(&buffer);
    proof {
        lemma_product_bounded(width as int, height as int, 65535, 65535);
    }
    let needed: u64 = 2 * ((width as u64) * (height as u64));
    if offset > available as u64 || (available as u64) - offset < needed {
        return Err(FormatError::ImageDataTruncated);
    }
    let mut image = match RgbaImage::new(width as u32, height as u32) {
        Some(image) => image,
        None => {
            return Err(FormatError::StructuralViolation(Violation::TooLarge));
        },
    };
    advance(&mut buffer, offset as usize);
    let ghost count = (width * height) as nat;
    let ghost mut done: int = 0;
    let mut y: u16 = 0;
    while y < height
        invariant
            0 <= y <= height,
            done == y * width,
            count == width * height,
            offset + 2 * count <= bytes.len(),
            unread(buffer) == bytes.skip(offset + 2 * done),
            image@.width == width,
            image@.height == height,
            image@.pixels.len() == count,
            forall|j: int|
                0 <= j < done ==> image@.pixels[j] == stored_pixel(bytes, offset + 2 * j, style),
        decreases height - y,
    {
        let mut x: u16 = 0;
        while x < width
            invariant
                0 <= x <= width,
                0 <= y < height,
                done == y * width + x,
                count == width * height,
                offset + 2 * count <= bytes.len(),
                unread(buffer) == bytes.skip(offset + 2 * done),
                image@.width == width,
                image@.height == height,
                image@.pixels.len() == count,
                forall|j: int|
                    0 <= j < done ==> image@.pixels[j] == stored_pixel(bytes, offset + 2 * j, style),
            decreases width - x,
        {
            proof {
                lemma_index_in_grid(x as int, y as int, width as int, height as int);
            }
            let color = match style {
                RawStyle::Keyed(pixel_format) => parse_pixel(get_u16_le(&mut buffer), pixel_format),
                RawStyle::Plain(pixel_format) => parse_pixel(get_u16_le(&mut buffer), pixel_format),
                RawStyle::BigEndian => parse_pixel_565_be(get_u16_be(&mut buffer)),
            };
            image.put_pixel(x as u32, y as u32, color);
            proof {
                assert(bytes.skip(offset + 2 * done).skip(2) =~= bytes.skip(offset + 2 * (done + 1)));
                done = done + 1;
            }
            x += 1;
        }
        proof {
            assert((y + 1) * width == y * width + width) by (nonlinear_arith);
        }
        y += 1;
    }
    proof {
        assert(height * width == width * height) by (nonlinear_arith);
        assert(image@.pixels =~= stored_pixels(bytes, offset as int, count, style));
    }
    Ok(image)
}

fn encode_word_be(pixel: &Rgba<u8>) -> (word: u16)
    ensures
        word == word_be(pixel.0[0], pixel.0[1], pixel.0[2]),
{
    let r: u16 = pixel.0[0] as u16;
    let g: u16 = pixel.0[1] as u16;
    let b: u16 = pixel.0[2] as u16;
    ((r << 8) & 0xf800) | ((g << 3) & 0x07c0) | ((b >> 2) & 0x003e)
}

/// Appending the bytes of one more pixel extends the bytes of a run.
pub proof fn lemma_raw_bytes_push(pixels: Seq<Rgba<u8>>, pixel: Rgba<u8>, style: RawStyle)
    ensures
        raw_bytes(pixels.push(pixel), style) == raw_bytes(pixels, style) + pixel_bytes(pixel, style),
        pixel_bytes(pixel, style).len() == 2,
{
    assert(raw_bytes(pixels.push(pixel), style) =~= raw_bytes(pixels, style) + pixel_bytes(
        pixel,
        style,
    ));
}

/// Appends the raw words of every pixel of `image`, in row-major order.
pub(crate) fn write_raw_image(buffer: &mut BytesMut, image: &RgbaImage, style: RawStyle)
    requires
        written(*old(buffer)).len() + 2 * image@.pixels.len() <= isize::MAX,
    ensures
        written(*final(buffer)) == written(*old(buffer)) + raw_bytes(image@.pixels, style),
        raw_bytes(image@.pixels, style).len() == 2 * image@.pixels.len(),
{
    let width = image.width();
    let height = image.height();
    let ghost start = written(*buffer);
    let ghost pixels = image@.pixels;
    let ghost mut done: int = 0;
    let mut y: u32 = 0;
    proof {
        assert(raw_bytes(pixels.take(0), style) =~= Seq::<u8>::empty());
        assert(start + Seq::<u8>::empty() =~= start);
    }
    while y < height
        invariant
            0 <= y <= height,
            done == y * width,
            width == image@.width,
            height == image@.height,
            pixels == image@.pixels,
            pixels.len() == width * height,
            start.len() + 2 * pixels.len() <= isize::MAX,
            written(*buffer) == start + raw_bytes(pixels.take(done), style),
        decreases height - y,
    {
        let mut x: u32 = 0;
        while x < width
            invariant
                0 <= x <= width,
                0 <= y < height,
                done == y * width + x,
                width == image@.width,
                height == image@.height,
                pixels == image@.pixels,
                pixels.len() == width * height,
                start.len() + 2 * pixels.len() <= isize::MAX,
                written(*buffer) == start + raw_bytes(pixels.take(done), style),
            decreases width - x,
        {
            proof {
                lemma_index_in_grid(x as int, y as int, width as int, height as int);
                lemma_raw_bytes_push(pixels.take(done), pixels[done], style);
                assert(pixels.take(done).push(pixels[done]) =~= pixels.take(done + 1));
            }
            let pixel = image.get_pixel(x, y);
            let ghost before = written(*buffer);
            match style {
                RawStyle::Keyed(pixel_format) => {
                    if pixel.0[3] == 0 {
                        put_u16_le(buffer, 0);
                    } else {
                        put_u16_le(buffer, encode_pixel(&pixel, pixel_format));
                    }
                },
                RawStyle::Plain(pixel_format) => {
                    put_u16_le(buffer, encode_pixel(&pixel, pixel_format));
                },
                RawStyle::BigEndian => {
                    put_u16_be(buffer, encode_word_be(&pixel));
                },
            }
            proof {
                assert(written(*buffer) == before + pixel_bytes(pixel, style));
                assert(before + pixel_bytes(pixel, style) =~= start + raw_bytes(
                    pixels.take(done + 1),
                    style,
                ));
                done = done + 1;
            }
            x += 1;
        }
        proof {
            assert((y + 1) * width == y * width + width) by (nonlinear_arith);
        }
        y += 1;
    }
    proof {
        assert(height * width == width * height) by (nonlinear_arith);
        assert(pixels.take(done) =~= pixels);
    }
}

/// Reads the next `count` bytes.
pub(crate) fn read_bytes(buffer: &mut Bytes, count: usize) -> (data: Vec<u8>)
    requires
        count <= unread(*old(buffer)).len(),
    ensures
        data@ == unread(*old(buffer)).take(count as int),
        unread(*final(buffer)) == unread(*old(buffer)).skip(count as int),
{
    let ghost from = unread(*buffer);
    let mut data: Vec<u8> = Vec::new();
    let mut i: usize = 0;
    while i < count
        invariant
            0 <= i <= count,
            count <= from.len(),
            unread(*buffer) == from.skip(i as int),
            data@ == from.take(i as int),
        decreases count - i,
    {
        let byte = crate::buffer::get_u8(buffer);
        data.push(byte);
        proof {
            assert(from.skip(i as int).skip(1) =~= from.skip(i + 1));
            assert(from.take(i as int).push(byte) =~= from.take(i + 1));
        }
        i += 1;
    }
    data
}

/// An indexed frame: the palette indexes and the image they stand for.
pub open spec fn indexed_frame(
    colors: Seq<(u8, u8, u8)>,
    width: nat,
    height: nat,
    indexes: Seq<u8>,
) -> FrameView {
    FrameView {
        image: crate::palette::indexed_image(colors, width, height, indexes),
        color_indexes: indexes,
    }
}

/// Builds the frame of the given palette indexes, one per pixel. A frame
/// whose image cannot be allocated is rejected.
pub(crate) fn build_indexed_frame(
    palette: &Palette,
    width: u32,
    height: u32,
    color_indexes: Vec<u8>,
) -> (built: Result<Frame, FormatError>)
    requires
        color_indexes@.len() == width * height,
    ensures
        allocatable(width as int, height as int) ==> built is Ok && built->Ok_0@ == indexed_frame(
            palette.colors@,
            width as nat,
            height as nat,
            color_indexes@,
        ) && built->Ok_0@.wf(),
        !allocatable(width as int, height as int) ==> built == Err::<Frame, FormatError>(
            FormatError::StructuralViolation(Violation::TooLarge),
        ),
{
    match palette.render(width, height, &color_indexes) {
        Some(image) => Ok(Frame { image, color_indexes }),
        None => Err(FormatError::StructuralViolation(Violation::TooLarge)),
    }
}

/// A pixel with the alpha that a format without alpha implies: black is
/// transparent, any other colour keeps its alpha.
pub open spec fn keyed(pixel: Rgba<u8>) -> Rgba<u8> {
    if pixel.0[0] == 0 && pixel.0[1] == 0 && pixel.0[2] == 0 {
        rgba(0, 0, 0, 0)
    } else {
        pixel
    }
}

/// An image with every black pixel made transparent.
pub open spec fn keyed_image(image: ImageView) -> ImageView {
    ImageView {
        width: image.width,
        height: image.height,
        pixels: Seq::new(image.pixels.len(), |i: int| keyed(image.pixels[i])),
    }
}

/// Makes every black pixel of an image transparent.
pub fn black_to_transparent(img: RgbaImage) -> (img2: RgbaImage)
    ensures
        img2@ == keyed_image(img@),
        img2@.wf(),
{
    let ghost before = img@;
    let width = img.width();
    let height = img.height();
    let mut img2 = img;
    let ghost mut done: int = 0;
    let mut y: u32 = 0;
    while y < height
        invariant
            0 <= y <= height,
            done == y * width,
            before.wf(),
            width == before.width,
            height == before.height,
            img2@.width == width,
            img2@.height == height,
            img2@.pixels.len() == before.pixels.len(),
            forall|j: int| 0 <= j < done ==> img2@.pixels[j] == keyed(before.pixels[j]),
            forall|j: int| done <= j < before.pixels.len() ==> img2@.pixels[j] == before.pixels[j],
        decreases height - y,
    {
        let mut x: u32 = 0;
        while x < width
            invariant
                0 <= x <= width,
                0 <= y < height,
                done == y * width + x,
                before.wf(),
                width == before.width,
                height == before.height,
                img2@.width == width,
                img2@.height == height,
                img2@.pixels.len() == before.pixels.len(),
                forall|j: int| 0 <= j < done ==> img2@.pixels[j] == keyed(before.pixels[j]),
                forall|j: int|
                    done <= j < before.pixels.len() ==> img2@.pixels[j] == before.pixels[j],
            decreases width - x,
        {
            proof {
                lemma_index_in_grid(x as int, y as int, width as int, height as int);
            }
            let pixel = img2.get_pixel(x, y);
            if pixel.0[0] == 0 && pixel.0[1] == 0 && pixel.0[2] == 0 {
                img2.put_pixel(x, y, Rgba([0, 0, 0, 0]));
            }
            proof {
                done = done + 1;
            }
            x += 1;
        }
        proof {
            assert((y + 1) * width == y * width + width) by (nonlinear_arith);
        }
        y += 1;
    }
    proof {
        assert(height * width == width * height) by (nonlinear_arith);
        assert(img2@.pixels =~= keyed_image(before).pixels);
    }
    img2
}

} // verus!
