//! The run-length 16-bit sprite format. Each scanline is a list of runs: a
//! 16-bit run header whose lowest bit tells a run of colour from a run of
//! transparency and whose other fifteen bits give its length, followed, for
//! colour, by that many pixel words. A zero header ends the scanline. An
//! image header holds the offset of every scanline.

use crate::buffer::{
    advance, cursor_over, freeze, get_u16_le, get_u32_le, le16, le16_bytes, le32, le32_bytes,
    put_u16_le, put_u32_le, remaining, share, unread, unsplit, writer, written, written_len,
};
use crate::error::{FormatError, Violation};
use crate::file::{frame_views, outcome, Frame, FrameView, SpriteInfo, SpriteView};
use crate::format::{
    bytes_outcome, encode_pixel, file_header_error, image_header_error, image_outcome,
    parse_pixel, pixel_of, stored_pixels, word_555, word_of, PixelFormat, RawStyle,
};
use crate::raster::{allocatable, can_allocate, clear_pixel, ImageView, RgbaImage};
use crate::sequence::{
    collect, join, joined_len, lemma_collect_failed, lemma_join_len, lemma_joined_len_grows,
};
use bytes::{Bytes, BytesMut};
use image::Rgba;
use vstd::prelude::*;

verus! {

struct FileHeader {
    flags: u32,
    image_count: u16,
}

struct ImageHeader {
    width: u16,
    height: u16,
    line_offsets: Vec<u32>,
}

/// The pixel layout that the flags of a file header select: their lowest bit.
pub open spec fn layout_of(flags: int) -> PixelFormat {
    if flags % 2 == 1 {
        PixelFormat::Format565
    } else {
        PixelFormat::Format555
    }
}

/// The size of the header of an image of the given height: the offset of the
/// first scanline, the width and the height, then one offset for each
/// further scanline.
pub open spec fn header_len(height: int) -> int {
    if height <= 1 {
        8
    } else {
        4 + 4 * height
    }
}

/// The width that an image header declares; `header` starts at the header.
pub open spec fn header_width(header: Seq<u8>) -> int {
    le16(header.skip(4))
}

/// The height that an image header declares.
pub open spec fn header_height(header: Seq<u8>) -> int {
    le16(header.skip(6))
}

/// Whether the data from an image header on holds all of that header.
pub open spec fn header_held(header: Seq<u8>) -> bool {
    header.len() >= 8 && header.len() >= header_len(header_height(header))
}

/// The offset in the file of scanline `y`, as an image header gives it.
pub open spec fn line_offset(header: Seq<u8>, y: int) -> u32 {
    if y == 0 {
        le32(header) as u32
    } else {
        le32(header.skip(4 + 4 * y)) as u32
    }
}

/// The scanline offsets of an image header. An image without scanlines still
/// has the first offset.
pub open spec fn declared_offsets(header: Seq<u8>) -> Seq<u32> {
    Seq::new(
        if header_height(header) <= 1 {
            1
        } else {
            header_height(header) as nat
        },
        |y: int| line_offset(header, y),
    )
}

/// Where image header `index` starts: the headers follow the six bytes of
/// the file header, each as long as its height makes it.
pub open spec fn header_start(bytes: Seq<u8>, index: nat) -> int
    decreases index,
{
    if index == 0 {
        6
    } else {
        let before = header_start(bytes, (index - 1) as nat);
        before + header_len(header_height(bytes.skip(before)))
    }
}

/// Whether the file holds the first `count` image headers, each of them in
/// full.
pub open spec fn headers_held(bytes: Seq<u8>, count: nat) -> bool
    decreases count,
{
    count == 0 || (headers_held(bytes, (count - 1) as nat) && header_held(
        bytes.skip(header_start(bytes, (count - 1) as nat)),
    ))
}

/// A file that holds its first headers holds fewer of them too.
pub proof fn lemma_headers_held(bytes: Seq<u8>, count: nat, more: nat)
    requires
        count <= more,
        headers_held(bytes, more),
    ensures
        headers_held(bytes, count),
    decreases more,
{
    if more > count {
        lemma_headers_held(bytes, count, (more - 1) as nat);
    }
}

/// `count` transparent pixels.
pub open spec fn clear_run(count: int) -> Seq<Rgba<u8>> {
    Seq::new(count as nat, |i: int| clear_pixel())
}

/// `pixels` followed by what `rest` holds, or the error of `rest`.
pub open spec fn prepend(pixels: Seq<Rgba<u8>>, rest: Result<Seq<Rgba<u8>>, FormatError>) -> Result<
    Seq<Rgba<u8>>,
    FormatError,
> {
    match rest {
        Ok(more) => Ok(pixels + more),
        Err(error) => Err(error),
    }
}

/// The pixels of a scanline from column `x` on, read from byte `at`. A zero
/// header ends the line and leaves the rest transparent; a run that would
/// pass the width, a header or a run of colour that the file does not hold
/// are errors.
pub open spec fn line_from(
    bytes: Seq<u8>,
    at: int,
    x: int,
    width: int,
    pixel_format: PixelFormat,
) -> Result<Seq<Rgba<u8>>, FormatError>
    decreases bytes.len() - at,
{
    if x >= width {
        Ok(Seq::empty())
    } else if at < 0 || at + 2 > bytes.len() {
        Err(FormatError::ImageDataTruncated)
    } else {
        let header = le16(bytes.skip(at));
        let run = header / 2;
        if header == 0 {
            Ok(clear_run(width - x))
        } else if x + run > width {
            Err(FormatError::StructuralViolation(Violation::RunPastScanline))
        } else if header % 2 == 1 {
            if at + 2 + 2 * run > bytes.len() {
                Err(FormatError::ImageDataTruncated)
            } else {
                prepend(
                    stored_pixels(bytes, at + 2, run as nat, RawStyle::Plain(pixel_format)),
                    line_from(bytes, at + 2 + 2 * run, x + run, width, pixel_format),
                )
            }
        } else {
            prepend(clear_run(run), line_from(bytes, at + 2, x + run, width, pixel_format))
        }
    }
}

/// The first `count` scanlines of an image, one after the other.
pub open spec fn rows(
    bytes: Seq<u8>,
    offsets: Seq<u32>,
    width: int,
    pixel_format: PixelFormat,
    count: nat,
) -> Result<Seq<Rgba<u8>>, FormatError>
    decreases count,
{
    if count == 0 {
        Ok(Seq::empty())
    } else {
        match rows(bytes, offsets, width, pixel_format, (count - 1) as nat) {
            Err(error) => Err(error),
            Ok(above) => prepend(
                above,
                line_from(bytes, offsets[count - 1] as int, 0, width, pixel_format),
            ),
        }
    }
}

/// The image that a header describes: an image that cannot be allocated is
/// rejected, then the scanlines are read in order.
pub open spec fn image_of(
    bytes: Seq<u8>,
    width: nat,
    height: nat,
    offsets: Seq<u32>,
    pixel_format: PixelFormat,
) -> Result<ImageView, FormatError> {
    if !allocatable(width as int, height as int) {
        Err(FormatError::StructuralViolation(Violation::TooLarge))
    } else {
        match rows(bytes, offsets, width as int, pixel_format, height) {
            Ok(pixels) => Ok(ImageView { width, height, pixels }),
            Err(error) => Err(error),
        }
    }
}

/// The frame that image header `index` describes.
pub open spec fn frame_at(bytes: Seq<u8>, index: int) -> Result<FrameView, FormatError> {
    let header = bytes.skip(header_start(bytes, index as nat));
    match image_of(
        bytes,
        header_width(header) as nat,
        header_height(header) as nat,
        declared_offsets(header),
        layout_of(le32(bytes)),
    ) {
        Ok(image) => Ok(FrameView { image, color_indexes: Seq::empty() }),
        Err(error) => Err(error),
    }
}

/// The frames of a file, as a function of the header index.
pub open spec fn frames_of(bytes: Seq<u8>) -> spec_fn(int) -> Result<FrameView, FormatError> {
    |index: int| frame_at(bytes, index)
}

/// What a file of this format holds. A file shorter than its six-byte header
/// is rejected, and so is one that ends before the last of the image headers
/// that it declares; the images are read in header order, and the first that
/// fails gives the error.
pub open spec fn decoded(bytes: Seq<u8>) -> Result<SpriteView, FormatError> {
    if bytes.len() < 6 {
        Err(FormatError::FileHeaderTruncated)
    } else if !headers_held(bytes, le16(bytes.skip(4)) as nat) {
        Err(FormatError::ImageHeaderTruncated)
    } else {
        match collect(le16(bytes.skip(4)) as nat, frames_of(bytes)) {
            Ok(frames) => Ok(
                SpriteView {
                    frames,
                    pixel_format: layout_of(le32(bytes)),
                    cols: 0,
                    rows: 0,
                    read_only: false,
                },
            ),
            Err(error) => Err(error),
        }
    }
}

/// A scanline that is read in full is as wide as the image.
pub proof fn lemma_line_width(
    bytes: Seq<u8>,
    at: int,
    x: int,
    width: int,
    pixel_format: PixelFormat,
)
    requires
        0 <= x <= width,
    ensures
        line_from(bytes, at, x, width, pixel_format) matches Ok(row) ==> row.len() == width - x,
    decreases bytes.len() - at,
{
    if x < width && 0 <= at && at + 2 <= bytes.len() {
        let header = le16(bytes.skip(at));
        let run = header / 2;
        if header != 0 && x + run <= width {
            if header % 2 == 1 {
                if at + 2 + 2 * run <= bytes.len() {
                    lemma_line_width(bytes, at + 2 + 2 * run, x + run, width, pixel_format);
                }
            } else {
                lemma_line_width(bytes, at + 2, x + run, width, pixel_format);
            }
        }
    }
}

fn read_file_header(buffer: &mut Bytes) -> (read: Result<FileHeader, FormatError>)
    ensures
        unread(*old(buffer)).len() < 6 ==> read == Err::<FileHeader, FormatError>(
            FormatError::FileHeaderTruncated,
        ),
        unread(*old(buffer)).len() >= 6 ==> read is Ok && read->Ok_0.flags == le32(
            unread(*old(buffer)),
        ) && read->Ok_0.image_count == le16(unread(*old(buffer)).skip(4)) && unread(*final(buffer))
            == unread(*old(buffer)).skip(6),
{
    if remaining(buffer) < 6 {
        return Err(file_header_error());
    }
    let ghost bytes = unread(*buffer);
    let flags = get_u32_le(buffer);
    let image_count = get_u16_le(buffer);
    proof {
        assert(bytes.skip(4).skip(2) =~= bytes.skip(6));
    }
    Ok(FileHeader { flags, image_count })
}

spec fn header_read(header: ImageHeader, from: Seq<u8>) -> bool {
    &&& header.width == header_width(from)
    &&& header.height == header_height(from)
    &&& header.line_offsets@ == declared_offsets(from)
}

fn read_image_header(buffer: &mut Bytes) -> (read: Result<ImageHeader, FormatError>)
    ensures
        header_held(unread(*old(buffer))) ==> read is Ok && header_read(
            read->Ok_0,
            unread(*old(buffer)),
        ) && unread(*final(buffer)) == unread(*old(buffer)).skip(
            header_len(header_height(unread(*old(buffer)))),
        ),
        !header_held(unread(*old(buffer))) ==> read == Err::<ImageHeader, FormatError>(
            FormatError::ImageHeaderTruncated,
        ),
{
    if remaining(buffer) < 8 {
        return Err(image_header_error());
    }
    let ghost from = unread(*buffer);
    let mut line_offsets: Vec<u32> = Vec::new();
    line_offsets.push(get_u32_le(buffer));
    let width = get_u16_le(buffer);
    let height = get_u16_le(buffer);
    proof {
        assert(from.skip(4).skip(2) =~= from.skip(6));
        assert(from.skip(6).skip(2) =~= from.skip(8));
    }
    let further: u16 = if height > 0 {
        height - 1
    } else {
        0
    };
    let mut j: u16 = 0;
    while j < further
        invariant
            0 <= j <= further,
            from == unread(*old(buffer)),
            from.len() >= 8 + 4 * j,
            height == header_height(from),
            further == if height > 0 {
                height - 1
            } else {
                0
            },
            unread(*buffer) == from.skip(8 + 4 * j),
            line_offsets@.len() == j + 1,
            forall|y: int| 0 <= y <= j ==> line_offsets@[y] == line_offset(from, y),
        decreases further - j,
    {
        if remaining(buffer) < 4 {
            return Err(image_header_error());
        }
        line_offsets.push(get_u32_le(buffer));
        proof {
            assert(from.skip(8 + 4 * j).skip(4) =~= from.skip(8 + 4 * (j + 1)));
        }
        j += 1;
    }
    proof {
        assert(line_offsets@ =~= declared_offsets(from));
    }
    Ok(ImageHeader { width, height, line_offsets })
}

/// Reads one scanline and appends its pixels to `pixels`.
fn read_line(
    file: &Bytes,
    line_offset: u32,
    width: u16,
    pixel_format: PixelFormat,
    pixels: &mut Vec<Rgba<u8>>,
) -> (read: Result<(), FormatError>)
    ensures
        match read {
            Ok(_) => prepend(
                old(pixels)@,
                line_from(unread(*file), line_offset as int, 0, width as int, pixel_format),
            ) == Ok::<Seq<Rgba<u8>>, FormatError>(final(pixels)@) && final(pixels)@.len() == old(
                pixels,
            )@.len() + width,
            Err(error) => line_from(
                unread(*file),
                line_offset as int,
                0,
                width as int,
                pixel_format,
            ) == Err::<Seq<Rgba<u8>>, FormatError>(error),
        },
{
    let ghost bytes = unread(*file);
    let ghost above = pixels@;
    let ghost whole = line_from(bytes, line_offset as int, 0, width as int, pixel_format);
    proof {
        assert(above + Seq::<Rgba<u8>>::empty() =~= above);
        lemma_line_width(bytes, line_offset as int, 0, width as int, pixel_format);
    }
    if width == 0 {
        return Ok(());
    }
    let mut buffer = share(file);
    if line_offset as usize > remaining(&buffer) {
        return Err(FormatError::ImageDataTruncated);
    }
    advance(&mut buffer, line_offset as usize);
    let ghost mut at: int = line_offset as int;
    let ghost mut done: Seq<Rgba<u8>> = Seq::empty();
    let mut x: u16 = 0;
    while x < width
        invariant
            0 <= x <= width,
            0 <= at <= bytes.len(),
            bytes == unread(*file),
            above == old(pixels)@,
            unread(buffer) == bytes.skip(at),
            pixels@ == above + done,
            done.len() == x,
            whole == line_from(bytes, line_offset as int, 0, width as int, pixel_format),
            whole == prepend(done, line_from(bytes, at, x as int, width as int, pixel_format)),
            whole matches Ok(row) ==> row.len() == width,
        decreases bytes.len() - at,
    {
        if remaining(&buffer) < 2 {
            return Err(FormatError::ImageDataTruncated);
        }
        let run_header = get_u16_le(&mut buffer);
        if run_header == 0 {
            let mut filled: u16 = x;
            while filled < width
                invariant
                    x <= filled <= width,
                    pixels@ == above + done + clear_run(filled - x),
                decreases width - filled,
            {
                pixels.push(Rgba([0, 0, 0, 0]));
                proof {
                    assert(clear_run(filled - x).push(clear_pixel()) =~= clear_run(filled + 1 - x));
                    assert((above + done + clear_run(filled - x)).push(clear_pixel()) =~= above
                        + done + clear_run(filled + 1 - x));
                }
                filled += 1;
            }
            proof {
                assert(above + done + clear_run(width - x) =~= above + (done + clear_run(
                    width - x,
                )));
            }
            return Ok(());
        }
        let run_type = run_header & 0x1;
        let run_length = (run_header & 0xfffe) >> 1;
        proof {
            assert(run_header & 0x1 == run_header % 2) by (bit_vector);
            assert((run_header & 0xfffe) >> 1 == run_header / 2) by (bit_vector);
        }
        if run_length > width - x {
            return Err(FormatError::StructuralViolation(Violation::RunPastScanline));
        }
        let ghost before = pixels@;
        if run_type == 1 {
            if remaining(&buffer) < 2 * (run_length as usize) {
                return Err(FormatError::ImageDataTruncated);
            }
            let mut i: u16 = 0;
            while i < run_length
                invariant
                    0 <= i <= run_length,
                    0 <= at,
                    at + 2 + 2 * run_length <= bytes.len(),
                    unread(buffer) == bytes.skip(at + 2 + 2 * i),
                    pixels@ == before + stored_pixels(
                        bytes,
                        at + 2,
                        i as nat,
                        RawStyle::Plain(pixel_format),
                    ),
                decreases run_length - i,
            {
                let pixel_data = get_u16_le(&mut buffer);
                let color = parse_pixel(pixel_data, pixel_format);
                pixels.push(color);
                proof {
                    assert(bytes.skip(at + 2 + 2 * i).skip(2) =~= bytes.skip(at + 2 + 2 * (i + 1)));
                    assert(stored_pixels(
                        bytes,
                        at + 2,
                        i as nat,
                        RawStyle::Plain(pixel_format),
                    ).push(color) =~= stored_pixels(
                        bytes,
                        at + 2,
                        (i + 1) as nat,
                        RawStyle::Plain(pixel_format),
                    ));
                    assert((before + stored_pixels(
                        bytes,
                        at + 2,
                        i as nat,
                        RawStyle::Plain(pixel_format),
                    )).push(color) =~= before + stored_pixels(
                        bytes,
                        at + 2,
                        (i + 1) as nat,
                        RawStyle::Plain(pixel_format),
                    ));
                }
                i += 1;
            }
            proof {
                let run = stored_pixels(
                    bytes,
                    at + 2,
                    run_length as nat,
                    RawStyle::Plain(pixel_format),
                );
                assert(above + done + run =~= above + (done + run));
                let rest = line_from(
                    bytes,
                    at + 2 + 2 * run_length,
                    x + run_length,
                    width as int,
                    pixel_format,
                );
                assert(prepend(done, prepend(run, rest)) == prepend(done + run, rest)) by {
                    if rest is Ok {
                        assert(done + (run + rest->Ok_0) =~= (done + run) + rest->Ok_0);
                    }
                }
                done = done + run;
                at = at + 2 + 2 * run_length;
            }
        } else {
            let mut i: u16 = 0;
            while i < run_length
                invariant
                    0 <= i <= run_length,
                    pixels@ == before + clear_run(i as int),
                decreases run_length - i,
            {
                pixels.push(Rgba([0, 0, 0, 0]));
                proof {
                    assert(clear_run(i as int).push(clear_pixel()) =~= clear_run(i + 1));
                    assert((before + clear_run(i as int)).push(clear_pixel()) =~= before
                        + clear_run(i + 1));
                }
                i += 1;
            }
            proof {
                let run = clear_run(run_length as int);
                assert(above + done + run =~= above + (done + run));
                let rest = line_from(bytes, at + 2, x + run_length, width as int, pixel_format);
                assert(prepend(done, prepend(run, rest)) == prepend(done + run, rest)) by {
                    if rest is Ok {
                        assert(done + (run + rest->Ok_0) =~= (done + run) + rest->Ok_0);
                    }
                }
                assert(bytes.skip(at).skip(2) =~= bytes.skip(at + 2));
                done = done + run;
                at = at + 2;
            }
        }
        x += run_length;
    }
    proof {
        assert(done + Seq::<Rgba<u8>>::empty() =~= done);
    }
    Ok(())
}

fn read_image_data(file: &Bytes, header: &ImageHeader, pixel_format: PixelFormat) -> (read: Result<
    RgbaImage,
    FormatError,
>)
    requires
        header.line_offsets@.len() >= header.height,
    ensures
        image_outcome(read) == image_of(
            unread(*file),
            header.width as nat,
            header.height as nat,
            header.line_offsets@,
            pixel_format,
        ),
        read matches Ok(image) ==> image@.wf(),
{
    let ghost bytes = unread(*file);
    if !can_allocate(header.width as u32, header.height as u32) {
        return Err(FormatError::StructuralViolation(Violation::TooLarge));
    }
    let mut pixels: Vec<Rgba<u8>> = Vec::new();
    let mut y: usize = 0;
    while y < header.height as usize
        invariant
            0 <= y <= header.height,
            bytes == unread(*file),
            allocatable(header.width as int, header.height as int),
            header.line_offsets@.len() >= header.height,
            pixels@.len() == y * header.width,
            rows(bytes, header.line_offsets@, header.width as int, pixel_format, y as nat) == Ok::<
                Seq<Rgba<u8>>,
                FormatError,
            >(pixels@),
        decreases header.height - y,
    {
        let line_offset = header.line_offsets[y];
        match read_line(file, line_offset, header.width, pixel_format, &mut pixels) {
            Ok(_) => {
                proof {
                    assert((y + 1) * header.width == y * header.width + header.width)
                        by (nonlinear_arith);
                }
            },
            Err(error) => {
                proof {
                    lemma_rows_failed(
                        bytes,
                        header.line_offsets@,
                        header.width as int,
                        pixel_format,
                        (y + 1) as nat,
                        header.height as nat,
                    );
                }
                return Err(error);
            },
        }
        y += 1;
    }
    match RgbaImage::from_pixels(header.width as u32, header.height as u32, &pixels) {
        Some(image) => Ok(image),
        None => {
            proof {
                assert(header.height * header.width == header.width * header.height)
                    by (nonlinear_arith);
            }
            Err(FormatError::StructuralViolation(Violation::TooLarge))
        },
    }
}

/// Once a scanline has failed, reading further scanlines gives the same error.
pub proof fn lemma_rows_failed(
    bytes: Seq<u8>,
    offsets: Seq<u32>,
    width: int,
    pixel_format: PixelFormat,
    count: nat,
    more: nat,
)
    requires
        count <= more,
        rows(bytes, offsets, width, pixel_format, count) is Err,
    ensures
        rows(bytes, offsets, width, pixel_format, more) == rows(
            bytes,
            offsets,
            width,
            pixel_format,
            count,
        ),
    decreases more,
{
    if more > count {
        lemma_rows_failed(bytes, offsets, width, pixel_format, count, (more - 1) as nat);
    }
}

/// Reads a sprite file of this format.
pub fn decode(contents: &[u8]) -> (result: Result<SpriteInfo, FormatError>)
    ensures
        outcome(result) == decoded(contents@),
{
    let ghost bytes = contents@;
    let file = cursor_over(contents);
    let mut buffer = share(&file);
    let file_header = match read_file_header(&mut buffer) {
        Ok(file_header) => file_header,
        Err(error) => {
            return Err(error);
        },
    };
    let flags = file_header.flags;
    proof {
        assert(flags & 0x00000001 == flags % 2) by (bit_vector);
    }
    let pixel_format = if file_header.flags & 0x00000001 == 1 {
        PixelFormat::Format565
    } else {
        PixelFormat::Format555
    };
    let mut image_headers: Vec<ImageHeader> = Vec::new();
    let mut k: u16 = 0;
    while k < file_header.image_count
        invariant
            0 <= k <= file_header.image_count,
            bytes == contents@,
            bytes.len() >= 6,
            file_header.image_count == le16(bytes.skip(4)),
            headers_held(bytes, k as nat),
            image_headers@.len() == k,
            unread(buffer) == bytes.skip(header_start(bytes, k as nat)),
            0 <= header_start(bytes, k as nat) <= bytes.len(),
            forall|j: int|
                0 <= j < image_headers@.len() ==> header_read(
                    #[trigger] image_headers@[j],
                    bytes.skip(header_start(bytes, j as nat)),
                ),
        decreases file_header.image_count - k,
    {
        let ghost at = header_start(bytes, k as nat);
        match read_image_header(&mut buffer) {
            Ok(image_header) => {
                proof {
                    let size = header_len(header_height(bytes.skip(at)));
                    assert(bytes.skip(at).skip(size) =~= bytes.skip(at + size));
                }
                image_headers.push(image_header);
            },
            Err(error) => {
                proof {
                    if headers_held(bytes, le16(bytes.skip(4)) as nat) {
                        lemma_headers_held(bytes, (k + 1) as nat, le16(bytes.skip(4)) as nat);
                    }
                }
                return Err(error);
            },
        }
        k += 1;
    }
    let mut frames: Vec<Frame> = Vec::new();
    let mut i: usize = 0;
    assert(frame_views(frames@) =~= Seq::<FrameView>::empty());
    while i < image_headers.len()
        invariant
            0 <= i <= image_headers@.len(),
            bytes == contents@,
            unread(file) == bytes,
            bytes.len() >= 6,
            pixel_format == layout_of(le32(bytes)),
            headers_held(bytes, le16(bytes.skip(4)) as nat),
            image_headers@.len() == le16(bytes.skip(4)),
            forall|j: int|
                0 <= j < image_headers@.len() ==> header_read(
                    #[trigger] image_headers@[j],
                    bytes.skip(header_start(bytes, j as nat)),
                ),
            collect(i as nat, frames_of(bytes)) == Ok::<Seq<FrameView>, FormatError>(
                frame_views(frames@),
            ),
        decreases image_headers@.len() - i,
    {
        let header = &image_headers[i];
        proof {
            assert(header_read(*header, bytes.skip(header_start(bytes, i as nat))));
        }
        match read_image_data(&file, header, pixel_format) {
            Ok(image) => {
                let ghost before = frame_views(frames@);
                let frame = Frame { image, color_indexes: Vec::new() };
                proof {
                    assert(frames_of(bytes)(i as int) == Ok::<FrameView, FormatError>(frame@));
                }
                frames.push(frame);
                proof {
                    assert(frame_views(frames@) =~= before.push(frame@));
                }
            },
            Err(error) => {
                proof {
                    assert(frames_of(bytes)(i as int) == Err::<FrameView, FormatError>(error));
                    assert(collect((i + 1) as nat, frames_of(bytes)) == Err::<
                        Seq<FrameView>,
                        FormatError,
                    >(error));
                    lemma_collect_failed(
                        (i + 1) as nat,
                        le16(bytes.skip(4)) as nat,
                        frames_of(bytes),
                    );
                }
                return Err(error);
            },
        }
        i += 1;
    }
    Ok(SpriteInfo { frames, pixel_format, cols: 0, rows: 0, read_only: false })
}

/// The flags that a file header stores for a pixel layout.
pub open spec fn flags_of(pixel_format: PixelFormat) -> int {
    match pixel_format {
        PixelFormat::Format555 => 2,
        PixelFormat::Format565 => 3,
    }
}

/// Whether a pixel is fully transparent.
pub open spec fn is_clear(pixel: Rgba<u8>) -> bool {
    pixel.0[3] == 0
}

/// The near-black word written for an opaque pixel whose own word would be
/// zero, the mark of transparency.
pub open spec fn dark_grey(pixel_format: PixelFormat) -> u16 {
    match pixel_format {
        PixelFormat::Format555 => 0x0421,
        PixelFormat::Format565 => 0x0821,
    }
}

/// The word written for an opaque pixel: never zero.
pub open spec fn solid_word(pixel: Rgba<u8>, pixel_format: PixelFormat) -> u16 {
    if word_of(pixel, pixel_format) == 0 {
        dark_grey(pixel_format)
    } else {
        word_of(pixel, pixel_format)
    }
}

/// The longest a run can be: fifteen bits of length.
pub open spec fn max_run() -> int {
    32767
}

/// The length of the run that starts at column `from`, given that its first
/// `found` pixels are of one kind: the run goes on while the pixels stay
/// transparent, or stay opaque, up to the end of the row or the longest run.
pub open spec fn run_from(row: Seq<Rgba<u8>>, from: int, found: int) -> int
    decreases row.len() - from - found,
{
    if found < max_run() && 0 <= from && 0 <= found && from + found < row.len() && is_clear(
        row[from + found],
    ) == is_clear(row[from]) {
        run_from(row, from, found + 1)
    } else {
        found
    }
}

/// The words of the `count` pixels from column `from` on.
pub open spec fn run_words(
    row: Seq<Rgba<u8>>,
    from: int,
    count: int,
    pixel_format: PixelFormat,
) -> Seq<u8> {
    Seq::new(
        (2 * count) as nat,
        |j: int| le16_bytes(solid_word(row[from + j / 2], pixel_format) as int)[j % 2],
    )
}

/// The bytes of one run: its header, and for a run of colour its words.
pub open spec fn run_bytes(
    row: Seq<Rgba<u8>>,
    from: int,
    count: int,
    pixel_format: PixelFormat,
) -> Seq<u8> {
    if is_clear(row[from]) {
        le16_bytes(2 * count)
    } else {
        le16_bytes(2 * count + 1) + run_words(row, from, count, pixel_format)
    }
}

/// The bytes of a scanline from column `from` on: its runs, then a zero header.
pub open spec fn line_bytes(row: Seq<Rgba<u8>>, from: int, pixel_format: PixelFormat) -> Seq<u8>
    decreases row.len() - from,
{
    if from < 0 || from >= row.len() {
        le16_bytes(0)
    } else {
        let count = run_from(row, from, 1);
        proof {
            lemma_run_from(row, from, 1);
        }
        run_bytes(row, from, count, pixel_format) + line_bytes(row, from + count, pixel_format)
    }
}

/// A run holds between one and 32767 pixels of one kind, lies inside its row,
/// and ends only where it must.
pub proof fn lemma_run_from(row: Seq<Rgba<u8>>, from: int, found: int)
    requires
        0 <= from,
        1 <= found <= max_run(),
        from + found <= row.len(),
        forall|i: int| 0 <= i < found ==> is_clear(#[trigger] row[from + i]) == is_clear(row[from]),
    ensures
        found <= run_from(row, from, found) <= max_run(),
        from + run_from(row, from, found) <= row.len(),
        forall|i: int|
            0 <= i < run_from(row, from, found) ==> is_clear(#[trigger] row[from + i]) == is_clear(
                row[from],
            ),
        run_from(row, from, found) == max_run() || from + run_from(row, from, found) == row.len()
            || is_clear(row[from + run_from(row, from, found)]) != is_clear(row[from]),
    decreases row.len() - from - found,
{
    if found < max_run() && from + found < row.len() && is_clear(row[from + found]) == is_clear(
        row[from],
    ) {
        assert forall|i: int| 0 <= i < found + 1 implies is_clear(#[trigger] row[from + i])
            == is_clear(row[from]) by {
            if i < found {
            }
        }
        lemma_run_from(row, from, found + 1);
    }
}

/// Row `y` of an image.
pub open spec fn row_of(image: ImageView, y: int) -> Seq<Rgba<u8>> {
    image.pixels.subrange(y * image.width, (y + 1) * image.width)
}

/// The bytes of each scanline of an image, as a function of the row.
pub open spec fn lines_of(image: ImageView, pixel_format: PixelFormat) -> spec_fn(int) -> Seq<u8> {
    |y: int| line_bytes(row_of(image, y), 0, pixel_format)
}

/// The data of an image: its scanlines, then one more zero header.
pub open spec fn image_data(image: ImageView, pixel_format: PixelFormat) -> Seq<u8> {
    join(image.height, lines_of(image, pixel_format)) + le16_bytes(0)
}

/// The data of each frame, as a function of the frame index.
pub open spec fn data_of(sprite: SpriteView) -> spec_fn(int) -> Seq<u8> {
    |index: int| image_data(sprite.frames[index].image, sprite.pixel_format)
}

/// The total size of the image headers of the first `count` frames.
pub open spec fn table_len(frames: Seq<FrameView>, count: nat) -> int
    decreases count,
{
    if count == 0 {
        0
    } else {
        table_len(frames, (count - 1) as nat) + header_len(frames[count - 1].image.height as int)
    }
}

/// Where the data of frame `index` starts in the file: behind the file
/// header, all the image headers, and the data of the frames before it.
pub open spec fn image_start(sprite: SpriteView, index: int) -> int {
    6 + table_len(sprite.frames, sprite.frames.len()) + joined_len(index as nat, data_of(sprite))
}

/// Where scanline `y` of frame `index` starts in the file.
pub open spec fn line_start(sprite: SpriteView, index: int, y: int) -> int {
    image_start(sprite, index) + joined_len(
        y as nat,
        lines_of(sprite.frames[index].image, sprite.pixel_format),
    )
}

/// The offsets of the scanlines after the first, as four bytes each.
pub open spec fn further_offsets(sprite: SpriteView, index: int) -> spec_fn(int) -> Seq<u8> {
    |j: int| le32_bytes(line_start(sprite, index, j + 1))
}

/// The number of the last scanline of an image; an image without scanlines
/// still stores the offset of a first one.
pub open spec fn last_line(height: nat) -> nat {
    if height >= 1 {
        (height - 1) as nat
    } else {
        0
    }
}

/// The header of frame `index`.
pub open spec fn header_bytes(sprite: SpriteView, index: int) -> Seq<u8> {
    let image = sprite.frames[index].image;
    le32_bytes(line_start(sprite, index, 0)) + le16_bytes(image.width as int) + le16_bytes(
        image.height as int,
    ) + join(last_line(image.height), further_offsets(sprite, index))
}

/// The header of each frame, as a function of the frame index.
pub open spec fn headers_of(sprite: SpriteView) -> spec_fn(int) -> Seq<u8> {
    |index: int| header_bytes(sprite, index)
}

/// Whether frame `index` can be written: its width and height must fit 16
/// bits and the offset of its last scanline, the largest of them, 32 bits.
pub open spec fn frame_fits(sprite: SpriteView, index: int) -> bool {
    let image = sprite.frames[index].image;
    &&& image.width <= 65535
    &&& image.height <= 65535
    &&& line_start(sprite, index, last_line(image.height) as int) <= u32::MAX
}

/// Whether a sprite can be written: at most 65535 frames, each of which
/// fits, in a file no larger than one allocation can be.
pub open spec fn encodable(sprite: SpriteView) -> bool {
    &&& sprite.frames.len() <= 65535
    &&& forall|index: int| 0 <= index < sprite.frames.len() ==> frame_fits(sprite, index)
    &&& image_start(sprite, sprite.frames.len() as int) <= isize::MAX
}

/// The file of a sprite: the flags and the frame count, the header of every
/// frame, then the data of every frame.
pub open spec fn encoded(sprite: SpriteView) -> Result<Seq<u8>, FormatError> {
    let count = sprite.frames.len();
    if encodable(sprite) {
        Ok(
            le32_bytes(flags_of(sprite.pixel_format)) + le16_bytes(count as int) + join(
                count,
                headers_of(sprite),
            ) + join(count, data_of(sprite)),
        )
    } else {
        Err(FormatError::StructuralViolation(Violation::TooLarge))
    }
}

/// The table of image headers grows with the number of frames.
pub proof fn lemma_table_len_grows(frames: Seq<FrameView>, count: nat, more: nat)
    requires
        count <= more,
    ensures
        0 <= table_len(frames, count) <= table_len(frames, more),
    decreases more,
{
    if more > count {
        lemma_table_len_grows(frames, count, (more - 1) as nat);
    } else if count > 0 {
        lemma_table_len_grows(frames, (count - 1) as nat, (count - 1) as nat);
    }
}

fn write_file_header(buffer: &mut BytesMut, pixel_format: PixelFormat, image_count: u16)
    requires
        written(*old(buffer)).len() + 6 <= isize::MAX,
    ensures
        written(*final(buffer)) == written(*old(buffer)) + le32_bytes(flags_of(pixel_format))
            + le16_bytes(image_count as int),
{
    put_u32_le(
        buffer,
        match pixel_format {
            PixelFormat::Format555 => 2,
            PixelFormat::Format565 => 3,
        },
    );
    put_u16_le(buffer, image_count);
}

/// The offsets after the first of a list, as four bytes each.
pub open spec fn offsets_after_first(offsets: Seq<u32>) -> spec_fn(int) -> Seq<u8> {
    |j: int| le32_bytes(offsets[j + 1] as int)
}

fn write_image_header(buffer: &mut BytesMut, width: u16, height: u16, line_offsets: &Vec<u32>)
    requires
        line_offsets@.len() >= 1,
        written(*old(buffer)).len() + 4 + 4 * line_offsets@.len() <= isize::MAX,
    ensures
        written(*final(buffer)) == written(*old(buffer)) + (le32_bytes(line_offsets@[0] as int)
            + le16_bytes(width as int) + le16_bytes(height as int) + join(
            (line_offsets@.len() - 1) as nat,
            offsets_after_first(line_offsets@),
        )),
        written(*final(buffer)).len() == written(*old(buffer)).len() + 4 + 4 * line_offsets@.len(),
{
    let ghost start = written(*buffer);
    let ghost fixed = le32_bytes(line_offsets@[0] as int) + le16_bytes(width as int) + le16_bytes(
        height as int,
    );
    put_u32_le(buffer, line_offsets[0]);
    put_u16_le(buffer, width);
    put_u16_le(buffer, height);
    let count = line_offsets.len();
    let mut j: usize = 1;
    proof {
        assert(written(*buffer) =~= start + (fixed + join(0, offsets_after_first(line_offsets@))));
    }
    while j < count
        invariant
            1 <= j <= count,
            count == line_offsets@.len(),
            start.len() + 4 + 4 * count <= isize::MAX,
            written(*buffer) == start + (fixed + join(
                (j - 1) as nat,
                offsets_after_first(line_offsets@),
            )),
            written(*buffer).len() == start.len() + 4 + 4 * j,
        decreases count - j,
    {
        let ghost before = written(*buffer);
        put_u32_le(buffer, line_offsets[j]);
        proof {
            let after_first = offsets_after_first(line_offsets@);
            assert(after_first(j - 1) == le32_bytes(line_offsets@[j as int] as int));
            assert(join(j as nat, after_first) == join((j - 1) as nat, after_first) + after_first(
                j - 1,
            ));
            assert(written(*buffer) =~= start + (fixed + join(j as nat, after_first)));
        }
        j += 1;
    }
}

/// Appending the word of one more pixel extends the words of a run.
proof fn lemma_run_words_push(
    row: Seq<Rgba<u8>>,
    from: int,
    count: int,
    pixel_format: PixelFormat,
)
    requires
        0 <= count,
    ensures
        run_words(row, from, count + 1, pixel_format) == run_words(row, from, count, pixel_format)
            + le16_bytes(solid_word(row[from + count], pixel_format) as int),
        run_words(row, from, count, pixel_format).len() == 2 * count,
{
    assert(run_words(row, from, count + 1, pixel_format) =~= run_words(
        row,
        from,
        count,
        pixel_format,
    ) + le16_bytes(solid_word(row[from + count], pixel_format) as int));
}

/// Writes scanline `y` of `image` into a buffer of its own.
fn encode_line(image: &RgbaImage, y: u32, pixel_format: PixelFormat) -> (line: BytesMut)
    requires
        y < image@.height,
        image@.width <= 65535,
        image@.wf(),
    ensures
        written(line) == line_bytes(row_of(image@, y as int), 0, pixel_format),
        written(line).len() <= 4 * image@.width + 2,
{
    let width = image.width();
    let ghost row = row_of(image@, y as int);
    proof {
        crate::raster::lemma_index_in_grid(0, y as int, width as int + 1, image@.height as int);
        assert((y + 1) * width == y * width + width) by (nonlinear_arith);
        assert((y + 1) * width <= image@.height * width) by (nonlinear_arith)
            requires
                y + 1 <= image@.height,
                width >= 0,
        ;
        assert(image@.height * width == width * image@.height) by (nonlinear_arith);
        assert(y * width >= 0) by (nonlinear_arith)
            requires
                y >= 0,
                width >= 0,
        ;
        assert(row.len() == width);
    }
    let mut buffer = writer();
    let mut from: u32 = 0;
    proof {
        assert(written(buffer) + line_bytes(row, 0, pixel_format) =~= line_bytes(
            row,
            0,
            pixel_format,
        ));
    }
    while from < width
        invariant
            0 <= from <= width,
            width == image@.width,
            width <= 65535,
            y < image@.height,
            image@.wf(),
            row == row_of(image@, y as int),
            row.len() == width,
            forall|x: int| 0 <= x < width ==> #[trigger] row[x] == image@.at(x, y as int),
            written(buffer) + line_bytes(row, from as int, pixel_format) == line_bytes(
                row,
                0,
                pixel_format,
            ),
            written(buffer).len() <= 4 * from,
        decreases width - from,
    {
        let first = image.get_pixel(from, y);
        let clear = first.0[3] == 0;
        let mut count: u32 = 1;
        proof {
            assert(row[from as int] == first);
        }
        while count < 32767 && from + count < width && (image.get_pixel(from + count, y).0[3] == 0)
            == clear
            invariant
                1 <= count <= 32767,
                from + count <= width,
                width == image@.width,
                width <= 65535,
                y < image@.height,
                row.len() == width,
                clear == is_clear(row[from as int]),
                forall|x: int| 0 <= x < width ==> #[trigger] row[x] == image@.at(x, y as int),
                forall|i: int|
                    0 <= i < count ==> is_clear(#[trigger] row[from + i]) == is_clear(
                        row[from as int],
                    ),
                run_from(row, from as int, count as int) == run_from(row, from as int, 1),
            decreases width - from - count,
        {
            proof {
                assert(row[from + count] == image@.at(from + count, y as int));
                assert forall|i: int| 0 <= i < count + 1 implies is_clear(#[trigger] row[from + i])
                    == is_clear(row[from as int]) by {
                    if i < count {
                    }
                }
            }
            count += 1;
        }
        proof {
            if count < 32767 && from + count < width {
                assert(row[from + count] == image@.at(from + count, y as int));
            }
            assert(run_from(row, from as int, count as int) == count);
            lemma_run_from(row, from as int, 1);
        }
        let ghost before = written(buffer);
        if clear {
            put_u16_le(&mut buffer, (2 * count) as u16);
        } else {
            put_u16_le(&mut buffer, (2 * count + 1) as u16);
            let ghost header = written(buffer);
            let mut i: u32 = 0;
            proof {
                assert(header + run_words(row, from as int, 0, pixel_format) =~= header);
            }
            while i < count
                invariant
                    0 <= i <= count,
                    count <= 32767,
                    from + count <= width,
                    width == image@.width,
                    width <= 65535,
                    y < image@.height,
                    header.len() <= 4 * from + 2,
                    forall|x: int| 0 <= x < width ==> #[trigger] row[x] == image@.at(x, y as int),
                    written(buffer) == header + run_words(
                        row,
                        from as int,
                        i as int,
                        pixel_format,
                    ),
                decreases count - i,
            {
                let pixel = image.get_pixel(from + i, y);
                let encoded_pixel = encode_pixel(&pixel, pixel_format);
                proof {
                    assert(row[from + i] == pixel);
                    lemma_run_words_push(row, from as int, i as int, pixel_format);
                }
                let ghost so_far = written(buffer);
                if encoded_pixel == 0 {
                    put_u16_le(
                        &mut buffer,
                        match pixel_format {
                            PixelFormat::Format555 => 0x0421,
                            PixelFormat::Format565 => 0x0821,
                        },
                    );
                } else {
                    put_u16_le(&mut buffer, encoded_pixel);
                }
                proof {
                    assert(written(buffer) =~= header + run_words(
                        row,
                        from as int,
                        i + 1,
                        pixel_format,
                    ));
                }
                i += 1;
            }
            proof {
                lemma_run_words_push(row, from as int, count as int, pixel_format);
            }
        }
        proof {
            assert(written(buffer) =~= before + run_bytes(
                row,
                from as int,
                count as int,
                pixel_format,
            ));
            assert(line_bytes(row, from as int, pixel_format) == run_bytes(
                row,
                from as int,
                count as int,
                pixel_format,
            ) + line_bytes(row, from + count, pixel_format));
            assert(written(buffer) + line_bytes(row, from + count, pixel_format) =~= before
                + line_bytes(row, from as int, pixel_format));
        }
        from += count;
    }
    let ghost before_end = written(buffer);
    put_u16_le(&mut buffer, 0);
    proof {
        assert(line_bytes(row, width as int, pixel_format) == le16_bytes(0));
    }
    buffer
}

/// Where scanline `y` of an image starts whose data starts at `start`.
pub open spec fn line_at(image: ImageView, pixel_format: PixelFormat, start: int, y: int) -> int {
    start + joined_len(y as nat, lines_of(image, pixel_format))
}

/// Appends the data of `image`, which starts at `image_offset` in the file,
/// and returns the offset of every scanline; `None`, with the buffer in no
/// particular state, when an offset does not fit 32 bits or the file would
/// pass the largest allocation.
fn write_image_data(
    buffer: &mut BytesMut,
    image: &RgbaImage,
    image_offset: u64,
    pixel_format: PixelFormat,
) -> (offsets: Option<Vec<u32>>)
    requires
        image@.width <= 65535,
        image@.height <= 65535,
        written(*old(buffer)).len() <= image_offset <= isize::MAX,
    ensures
        match offsets {
            Some(line_offsets) => {
                &&& written(*final(buffer)) == written(*old(buffer)) + image_data(
                    image@,
                    pixel_format,
                )
                &&& line_offsets@.len() == last_line(image@.height) + 1
                &&& forall|y: int|
                    0 <= y < line_offsets@.len() ==> #[trigger] line_offsets@[y] == line_at(
                        image@,
                        pixel_format,
                        image_offset as int,
                        y,
                    )
                &&& image_offset + image_data(image@, pixel_format).len() <= isize::MAX
            },
            None => line_at(
                image@,
                pixel_format,
                image_offset as int,
                last_line(image@.height) as int,
            ) > u32::MAX || image_offset + image_data(image@, pixel_format).len() > isize::MAX,
        },
{
    let width = image.width();
    let height = image.height();
    let ghost lines = lines_of(image@, pixel_format);
    let ghost above = written(*buffer);
    proof {
        lemma_join_len(image@.height, lines);
    }
    let mut position: u64 = image_offset;
    let mut line_offsets: Vec<u32> = Vec::new();
    if height == 0 {
        if position > u32::MAX as u64 {
            return None;
        }
        line_offsets.push(position as u32);
    }
    let mut y: u32 = 0;
    proof {
        assert(above + join(0, lines) =~= above);
    }
    while y < height
        invariant
            0 <= y <= height,
            lines == lines_of(image@, pixel_format),
            width == image@.width,
            height == image@.height,
            width <= 65535,
            height <= 65535,
            image@.wf(),
            above.len() <= image_offset,
            position == line_at(image@, pixel_format, image_offset as int, y as int),
            position <= isize::MAX,
            written(*buffer) == above + join(y as nat, lines),
            join(image@.height, lines).len() == joined_len(image@.height, lines),
            line_offsets@.len() == if height == 0 {
                1
            } else {
                y as int
            },
            forall|j: int|
                0 <= j < line_offsets@.len() ==> #[trigger] line_offsets@[j] == line_at(
                    image@,
                    pixel_format,
                    image_offset as int,
                    j,
                ),
        decreases height - y,
    {
        proof {
            lemma_joined_len_grows(y as nat, last_line(image@.height), lines);
            lemma_joined_len_grows((y + 1) as nat, image@.height, lines);
            lemma_join_len(y as nat, lines);
        }
        if position > u32::MAX as u64 {
            return None;
        }
        line_offsets.push(position as u32);
        let line = encode_line(image, y, pixel_format);
        let line_len = written_len(&line) as u64;
        proof {
            assert(lines(y as int) == written(line));
        }
        if position + line_len > isize::MAX as u64 {
            return None;
        }
        unsplit(buffer, line);
        proof {
            assert(written(*buffer) =~= above + join((y + 1) as nat, lines));
        }
        position += line_len;
        y += 1;
    }
    proof {
        lemma_join_len(image@.height, lines);
    }
    if position + 2 > isize::MAX as u64 {
        return None;
    }
    put_u16_le(buffer, 0);
    proof {
        assert(written(*buffer) =~= above + image_data(image@, pixel_format));
    }
    Some(line_offsets)
}

/// The data of the frames before `index` ends where the data of frame
/// `index` starts, and no data starts beyond the end of the file.
proof fn lemma_image_start(sprite: SpriteView, index: int)
    requires
        0 <= index < sprite.frames.len(),
    ensures
        image_start(sprite, index + 1) == image_start(sprite, index) + image_data(
            sprite.frames[index].image,
            sprite.pixel_format,
        ).len(),
        image_start(sprite, index + 1) <= image_start(sprite, sprite.frames.len() as int),
        forall|y: int|
            line_start(sprite, index, y) == line_at(
                sprite.frames[index].image,
                sprite.pixel_format,
                image_start(sprite, index),
                y,
            ),
{
    assert(data_of(sprite)(index) == image_data(sprite.frames[index].image, sprite.pixel_format));
    assert(joined_len((index + 1) as nat, data_of(sprite)) == joined_len(
        index as nat,
        data_of(sprite),
    ) + data_of(sprite)(index).len());
    lemma_joined_len_grows((index + 1) as nat, sprite.frames.len(), data_of(sprite));
}

/// The header that `write_image_header` writes from the offsets of frame
/// `index` is the header of that frame.
proof fn lemma_header_bytes(sprite: SpriteView, index: int, line_offsets: Seq<u32>)
    requires
        0 <= index < sprite.frames.len(),
        line_offsets.len() == last_line(sprite.frames[index].image.height) + 1,
        forall|y: int|
            0 <= y < line_offsets.len() ==> #[trigger] line_offsets[y] == line_start(
                sprite,
                index,
                y,
            ),
    ensures
        headers_of(sprite)(index) == le32_bytes(line_offsets[0] as int) + le16_bytes(
            sprite.frames[index].image.width as int,
        ) + le16_bytes(sprite.frames[index].image.height as int) + join(
            (line_offsets.len() - 1) as nat,
            offsets_after_first(line_offsets),
        ),
{
    let image = sprite.frames[index].image;
    let further = further_offsets(sprite, index);
    let after_first = offsets_after_first(line_offsets);
    assert forall|j: int| 0 <= j < last_line(image.height) implies #[trigger] after_first(j)
        == further(j) by {
        assert(line_offsets[j + 1] == line_start(sprite, index, j + 1));
    }
    crate::sequence::lemma_join_same(last_line(image.height), after_first, further);
    assert(line_offsets[0] == line_start(sprite, index, 0));
}

/// Writes a sprite as a file of this format.
pub fn encode(sprite_info: SpriteInfo) -> (result: Result<Bytes, FormatError>)
    ensures
        bytes_outcome(result) == encoded(sprite_info@),
{
    let ghost sprite = sprite_info@;
    let pixel_format = sprite_info.pixel_format;
    let frame_count = sprite_info.frames.len();
    if frame_count > 65535 {
        return Err(FormatError::StructuralViolation(Violation::TooLarge));
    }
    let mut image_offset: u64 = 6;
    let mut k: usize = 0;
    while k < frame_count
        invariant
            0 <= k <= frame_count,
            frame_count == sprite_info.frames@.len(),
            frame_count <= 65535,
            sprite == sprite_info@,
            image_offset == 6 + table_len(sprite.frames, k as nat),
            image_offset <= 6 + k * 262144,
            forall|j: int|
                0 <= j < k ==> (#[trigger] sprite.frames[j]).image.width <= 65535
                    && sprite.frames[j].image.height <= 65535,
        decreases frame_count - k,
    {
        let frame = &sprite_info.frames[k];
        let width = frame.image.width();
        let height = frame.image.height();
        proof {
            assert(frame@ == sprite.frames[k as int]);
        }
        if width > 65535 || height > 65535 {
            proof {
                assert(!frame_fits(sprite, k as int));
            }
            return Err(FormatError::StructuralViolation(Violation::TooLarge));
        }
        let image_header_size: u64 = if height <= 1 {
            8
        } else {
            4 + 4 * (height as u64)
        };
        image_offset += image_header_size;
        k += 1;
    }
    proof {
        lemma_joined_len_grows(0, frame_count as nat, data_of(sprite));
    }
    if image_offset > isize::MAX as u64 {
        return Err(FormatError::StructuralViolation(Violation::TooLarge));
    }
    let mut headers_buffer = writer();
    let mut images_buffer = writer();
    let mut k: usize = 0;
    while k < frame_count
        invariant
            0 <= k <= frame_count,
            frame_count == sprite_info.frames@.len(),
            frame_count <= 65535,
            sprite == sprite_info@,
            pixel_format == sprite.pixel_format,
            image_offset == 6 + table_len(sprite.frames, frame_count as nat),
            image_offset <= isize::MAX,
            forall|j: int|
                0 <= j < frame_count ==> (#[trigger] sprite.frames[j]).image.width <= 65535
                    && sprite.frames[j].image.height <= 65535,
            forall|j: int| 0 <= j < k ==> frame_fits(sprite, j),
            image_start(sprite, k as int) <= isize::MAX,
            written(headers_buffer) == join(k as nat, headers_of(sprite)),
            written(headers_buffer).len() == table_len(sprite.frames, k as nat),
            written(images_buffer) == join(k as nat, data_of(sprite)),
            written(images_buffer).len() + image_offset == image_start(sprite, k as int),
        decreases frame_count - k,
    {
        let frame = &sprite_info.frames[k];
        let width = frame.image.width();
        let height = frame.image.height();
        proof {
            assert(frame@ == sprite.frames[k as int]);
            assert(sprite.frames[k as int].image.width <= 65535);
            lemma_image_start(sprite, k as int);
            lemma_table_len_grows(sprite.frames, (k + 1) as nat, frame_count as nat);
            lemma_table_len_grows(sprite.frames, k as nat, k as nat);
        }
        let position: u64 = image_offset + written_len(&images_buffer) as u64;
        let line_offsets = match write_image_data(
            &mut images_buffer,
            &frame.image,
            position,
            pixel_format,
        ) {
            Some(line_offsets) => line_offsets,
            None => {
                proof {
                    assert(!frame_fits(sprite, k as int) || image_start(sprite, k + 1)
                        > isize::MAX);
                }
                return Err(FormatError::StructuralViolation(Violation::TooLarge));
            },
        };
        write_image_header(&mut headers_buffer, width as u16, height as u16, &line_offsets);
        proof {
            lemma_header_bytes(sprite, k as int, line_offsets@);
            assert(data_of(sprite)(k as int) == image_data(frame.image@, pixel_format));
            assert(line_offsets@[last_line(frame.image@.height) as int] == line_start(
                sprite,
                k as int,
                last_line(frame.image@.height) as int,
            ));
            assert(frame_fits(sprite, k as int));
        }
        k += 1;
    }
    let mut buffer = writer();
    write_file_header(&mut buffer, pixel_format, frame_count as u16);
    proof {
        lemma_join_len(frame_count as nat, data_of(sprite));
        lemma_join_len(frame_count as nat, headers_of(sprite));
    }
    unsplit(&mut buffer, headers_buffer);
    unsplit(&mut buffer, images_buffer);
    proof {
        assert(written(buffer) =~= le32_bytes(flags_of(sprite.pixel_format)) + le16_bytes(
            frame_count as int,
        ) + join(frame_count as nat, headers_of(sprite)) + join(
            frame_count as nat,
            data_of(sprite),
        ));
    }
    Ok(freeze(buffer))
}

/// What a pixel looks like after it was written and read again: a
/// transparent pixel is fully clear, an opaque one has the colour of its
/// word, cut to the precision of the pixel layout.
pub open spec fn shown(pixel: Rgba<u8>, pixel_format: PixelFormat) -> Rgba<u8> {
    if is_clear(pixel) {
        clear_pixel()
    } else {
        pixel_of(solid_word(pixel, pixel_format), pixel_format)
    }
}

/// A run of pixels after it was written and read again.
pub open spec fn shown_pixels(pixels: Seq<Rgba<u8>>, pixel_format: PixelFormat) -> Seq<Rgba<u8>> {
    Seq::new(pixels.len(), |i: int| shown(pixels[i], pixel_format))
}

/// An image after it was written and read again.
pub open spec fn shown_image(image: ImageView, pixel_format: PixelFormat) -> ImageView {
    ImageView {
        width: image.width,
        height: image.height,
        pixels: shown_pixels(image.pixels, pixel_format),
    }
}

/// The frames that are read back from the file of a sprite.
pub open spec fn reread(sprite: SpriteView) -> Seq<FrameView> {
    Seq::new(
        sprite.frames.len(),
        |index: int|
            FrameView {
                image: shown_image(sprite.frames[index].image, sprite.pixel_format),
                color_indexes: Seq::empty(),
            },
    )
}

/// A channel is zero exactly when its window on the word is.
proof fn lemma_low_byte_zero(word: u16)
    ensures
        crate::format::low_byte(word) == 0 <==> word & 0xff == 0,
{
    assert(word & 0xff < 256) by (bit_vector);
}

/// Writing and reading keeps transparent pixels transparent and opaque
/// pixels opaque: black itself is written as dark grey.
pub proof fn lemma_shown_alpha(pixel: Rgba<u8>, pixel_format: PixelFormat)
    ensures
        shown(pixel, pixel_format).0[3] == if is_clear(pixel) {
            0u8
        } else {
            255u8
        },
{
    if !is_clear(pixel) {
        let word = solid_word(pixel, pixel_format);
        let r = pixel.0[0];
        let g = pixel.0[1];
        let b = pixel.0[2];
        match pixel_format {
            PixelFormat::Format555 => {
                assert(word_555(r, g, b) & 0x8000 == 0) by (bit_vector);
                assert(0x0421u16 & 0x8000 == 0) by (bit_vector);
                assert(word != 0 && word & 0x8000 == 0);
                assert(word != 0 && word & 0x8000 == 0 ==> !((word >> 7) & 0xff == 0 && (word >> 2)
                    & 0xff == 0 && (word << 3) & 0xff == 0)) by (bit_vector);
                lemma_low_byte_zero(word >> 7);
                lemma_low_byte_zero(word >> 2);
                lemma_low_byte_zero(word << 3);
            },
            PixelFormat::Format565 => {
                assert(word != 0);
                assert(word != 0 ==> !((word >> 8) & 0xff == 0 && (word >> 3) & 0xff == 0 && (word
                    << 3) & 0xff == 0)) by (bit_vector);
                lemma_low_byte_zero(word >> 8);
                lemma_low_byte_zero(word >> 3);
                lemma_low_byte_zero(word << 3);
            },
        }
    }
}

/// The words of a run of colour are read back as the pixels shown.
#[verifier::rlimit(40)]
proof fn lemma_run_words_read(
    file: Seq<u8>,
    at: int,
    row: Seq<Rgba<u8>>,
    from: int,
    count: int,
    pixel_format: PixelFormat,
)
    requires
        0 <= from,
        0 <= count,
        from + count <= row.len(),
        crate::sequence::holds_at(file, at, run_words(row, from, count, pixel_format)),
        forall|i: int| 0 <= i < count ==> !is_clear(#[trigger] row[from + i]),
    ensures
        stored_pixels(file, at, count as nat, RawStyle::Plain(pixel_format)) == shown_pixels(
            row,
            pixel_format,
        ).subrange(from, from + count),
{
    let words = run_words(row, from, count, pixel_format);
    let read = stored_pixels(file, at, count as nat, RawStyle::Plain(pixel_format));
    let expected = shown_pixels(row, pixel_format).subrange(from, from + count);
    assert forall|i: int| 0 <= i < count implies read[i] == expected[i] by {
        let word = solid_word(row[from + i], pixel_format);
        let part = file.subrange(at, at + words.len());
        assert(file.subrange(at + 2 * i, at + 2 * i + 2) =~= le16_bytes(word as int)) by {
            assert(file[at + 2 * i] == part[2 * i]);
            assert(file[at + 2 * i + 1] == part[2 * i + 1]);
            assert(words[2 * i] == le16_bytes(word as int)[0]);
            assert(words[2 * i + 1] == le16_bytes(word as int)[1]);
        }
        crate::buffer::lemma_le16_at(file, at + 2 * i, word as int);
        assert(!is_clear(row[from + i]));
    }
    assert(read =~= expected);
}

/// A scanline that was written is read back as the pixels shown: the runs
/// lose nothing.
#[verifier::rlimit(40)]
pub proof fn lemma_line_roundtrip(
    file: Seq<u8>,
    at: int,
    row: Seq<Rgba<u8>>,
    from: int,
    pixel_format: PixelFormat,
)
    requires
        0 <= from <= row.len(),
        crate::sequence::holds_at(file, at, line_bytes(row, from, pixel_format)),
    ensures
        line_from(file, at, from, row.len() as int, pixel_format) == Ok::<
            Seq<Rgba<u8>>,
            FormatError,
        >(shown_pixels(row, pixel_format).skip(from)),
    decreases row.len() - from,
{
    let all = shown_pixels(row, pixel_format);
    if from == row.len() {
        assert(all.skip(from) =~= Seq::<Rgba<u8>>::empty());
    } else {
        let count = run_from(row, from, 1);
        lemma_run_from(row, from, 1);
        let run = run_bytes(row, from, count, pixel_format);
        let rest = line_bytes(row, from + count, pixel_format);
        assert(line_bytes(row, from, pixel_format) == run + rest);
        crate::sequence::lemma_holds_both(file, at, run, rest);
        if is_clear(row[from]) {
            crate::buffer::lemma_le16_at(file, at, 2 * count);
            lemma_line_roundtrip(file, at + 2, row, from + count, pixel_format);
            assert(clear_run(count) + all.skip(from + count) =~= all.skip(from)) by {
                assert forall|k: int| from <= k < from + count implies #[trigger] all[k]
                    == clear_pixel() by {
                    assert(is_clear(row[from + (k - from)]));
                }
            }
        } else {
            let words = run_words(row, from, count, pixel_format);
            crate::sequence::lemma_holds_both(file, at, le16_bytes(2 * count + 1), words);
            crate::buffer::lemma_le16_at(file, at, 2 * count + 1);
            assert(words.len() == 2 * count);
            assert forall|i: int| 0 <= i < count implies !is_clear(#[trigger] row[from + i]) by {}
            lemma_run_words_read(file, at + 2, row, from, count, pixel_format);
            lemma_line_roundtrip(file, at + 2 + 2 * count, row, from + count, pixel_format);
            assert(all.subrange(from, from + count) + all.skip(from + count) =~= all.skip(from));
        }
    }
}

/// The row of an image is as long as the image is wide, and lies inside
/// its pixels.
proof fn lemma_row(image: ImageView, y: int)
    requires
        image.wf(),
        0 <= y < image.height,
    ensures
        0 <= y * image.width,
        (y + 1) * image.width == y * image.width + image.width,
        (y + 1) * image.width <= image.pixels.len(),
        row_of(image, y).len() == image.width,
{
    crate::raster::lemma_index_in_grid(0, y, image.width as int + 1, image.height as int);
    assert((y + 1) * image.width == y * image.width + image.width) by (nonlinear_arith);
    assert((y + 1) * image.width <= image.height * image.width) by (nonlinear_arith)
        requires
            y + 1 <= image.height,
            image.width >= 0,
    ;
    assert(image.height * image.width == image.width * image.height) by (nonlinear_arith);
    assert(y * image.width >= 0) by (nonlinear_arith)
        requires
            y >= 0,
            image.width >= 0,
    ;
}

/// Scanlines that were written are read back as the pixels shown.
#[verifier::rlimit(40)]
proof fn lemma_rows_roundtrip(
    file: Seq<u8>,
    offsets: Seq<u32>,
    image: ImageView,
    pixel_format: PixelFormat,
    count: nat,
)
    requires
        image.wf(),
        count <= image.height,
        offsets.len() >= count,
        forall|y: int|
            0 <= y < count ==> crate::sequence::holds_at(
                file,
                #[trigger] offsets[y] as int,
                lines_of(image, pixel_format)(y),
            ),
    ensures
        0 <= count * image.width <= image.pixels.len(),
        rows(file, offsets, image.width as int, pixel_format, count) == Ok::<
            Seq<Rgba<u8>>,
            FormatError,
        >(shown_pixels(image.pixels, pixel_format).take((count * image.width) as int)),
    decreases count,
{
    let all = shown_pixels(image.pixels, pixel_format);
    if count == 0 {
        assert(0 * image.width == 0) by (nonlinear_arith);
        assert(all.take(0) =~= Seq::<Rgba<u8>>::empty());
    } else {
        let y = count - 1;
        lemma_rows_roundtrip(file, offsets, image, pixel_format, y as nat);
        lemma_row(image, y);
        let row = row_of(image, y);
        assert(lines_of(image, pixel_format)(y) == line_bytes(row, 0, pixel_format));
        assert(crate::sequence::holds_at(
            file,
            offsets[y] as int,
            lines_of(image, pixel_format)(y),
        ));
        lemma_line_roundtrip(file, offsets[y] as int, row, 0, pixel_format);
        let above = all.take(y * image.width);
        let line = shown_pixels(row, pixel_format).skip(0);
        assert(above + line =~= all.take((count * image.width) as int));
    }
}

/// The bytes of the further scanline offsets of a header: four for each.
proof fn lemma_further_len(sprite: SpriteView, index: int, count: nat)
    ensures
        joined_len(count, further_offsets(sprite, index)) == 4 * count,
    decreases count,
{
    if count > 0 {
        lemma_further_len(sprite, index, (count - 1) as nat);
    }
}

/// The header of a frame is as long as its height makes it.
proof fn lemma_header_len(sprite: SpriteView, index: int)
    ensures
        header_bytes(sprite, index).len() == header_len(
            sprite.frames[index].image.height as int,
        ),
{
    let image = sprite.frames[index].image;
    lemma_further_len(sprite, index, last_line(image.height));
    lemma_join_len(last_line(image.height), further_offsets(sprite, index));
}

/// The headers of the first frames are as long as their table.
proof fn lemma_headers_len(sprite: SpriteView, count: nat)
    ensures
        joined_len(count, headers_of(sprite)) == table_len(sprite.frames, count),
    decreases count,
{
    if count > 0 {
        lemma_headers_len(sprite, (count - 1) as nat);
        lemma_header_len(sprite, count - 1);
    }
}

/// The scanlines of a frame start one behind the other, the first where the
/// data of the frame starts.
proof fn lemma_line_starts(sprite: SpriteView, index: int, y: int)
    requires
        0 <= index < sprite.frames.len(),
        0 <= y <= last_line(sprite.frames[index].image.height),
    ensures
        0 <= image_start(sprite, index) <= line_start(sprite, index, y) <= line_start(
            sprite,
            index,
            last_line(sprite.frames[index].image.height) as int,
        ),
{
    let lines = lines_of(sprite.frames[index].image, sprite.pixel_format);
    lemma_joined_len_grows(y as nat, last_line(sprite.frames[index].image.height), lines);
    lemma_table_len_grows(sprite.frames, 0, sprite.frames.len());
}

/// The file of a sprite, cut into the parts that it was joined from.
pub open spec fn file_of(sprite: SpriteView) -> Seq<u8> {
    le32_bytes(flags_of(sprite.pixel_format)) + le16_bytes(sprite.frames.len() as int) + join(
        sprite.frames.len(),
        headers_of(sprite),
    ) + join(sprite.frames.len(), data_of(sprite))
}

/// The file of a sprite holds the header of each frame behind the headers
/// of the frames before it.
#[verifier::rlimit(40)]
proof fn lemma_header_held(sprite: SpriteView, index: int)
    requires
        0 <= index < sprite.frames.len(),
    ensures
        crate::sequence::holds_at(
            file_of(sprite),
            6 + table_len(sprite.frames, index as nat),
            header_bytes(sprite, index),
        ),
        0 <= table_len(sprite.frames, index as nat),
        file_of(sprite).len() == 6 + table_len(sprite.frames, sprite.frames.len()) + joined_len(
            sprite.frames.len(),
            data_of(sprite),
        ),
{
    let count = sprite.frames.len();
    let front = le32_bytes(flags_of(sprite.pixel_format)) + le16_bytes(count as int);
    lemma_headers_len(sprite, index as nat);
    lemma_headers_len(sprite, count);
    lemma_join_len(count, headers_of(sprite));
    lemma_join_len(count, data_of(sprite));
    lemma_table_len_grows(sprite.frames, index as nat, count);
    crate::sequence::lemma_join_holds(count, headers_of(sprite), index);
    crate::sequence::lemma_holds_framed(
        front,
        join(count, headers_of(sprite)),
        join(count, data_of(sprite)),
        table_len(sprite.frames, index as nat),
        header_bytes(sprite, index),
    );
}

/// The file of a sprite holds the four parts of each header one behind the
/// other: the offset of the first scanline, the width, the height, and the
/// offsets of the further scanlines.
#[verifier::rlimit(40)]
proof fn lemma_header_parts(sprite: SpriteView, index: int)
    requires
        0 <= index < sprite.frames.len(),
    ensures
        ({
            let file = file_of(sprite);
            let at = 6 + table_len(sprite.frames, index as nat);
            let image = sprite.frames[index].image;
            &&& 0 <= at
            &&& at + header_len(image.height as int) <= file.len()
            &&& crate::sequence::holds_at(file, at, le32_bytes(line_start(sprite, index, 0)))
            &&& crate::sequence::holds_at(file, at + 4, le16_bytes(image.width as int))
            &&& crate::sequence::holds_at(file, at + 6, le16_bytes(image.height as int))
            &&& crate::sequence::holds_at(
                file,
                at + 8,
                join(last_line(image.height), further_offsets(sprite, index)),
            )
        }),
{
    let file = file_of(sprite);
    let at = 6 + table_len(sprite.frames, index as nat);
    let image = sprite.frames[index].image;
    let tail = join(last_line(image.height), further_offsets(sprite, index));
    let first = le32_bytes(line_start(sprite, index, 0));
    let width = le16_bytes(image.width as int);
    let height = le16_bytes(image.height as int);
    lemma_header_held(sprite, index);
    lemma_header_len(sprite, index);
    assert(header_bytes(sprite, index) == first + width + height + tail);
    crate::sequence::lemma_holds_both(file, at, first + width + height, tail);
    crate::sequence::lemma_holds_both(file, at, first + width, height);
    crate::sequence::lemma_holds_both(file, at, first, width);
}

/// The file of a sprite holds the offset of each further scanline in the
/// header of its frame, behind the eight bytes of the fixed fields.
#[verifier::rlimit(40)]
proof fn lemma_further_held(sprite: SpriteView, index: int, y: int)
    requires
        0 <= index < sprite.frames.len(),
        1 <= y <= last_line(sprite.frames[index].image.height),
    ensures
        crate::sequence::holds_at(
            file_of(sprite),
            6 + table_len(sprite.frames, index as nat) + 4 + 4 * y,
            le32_bytes(line_start(sprite, index, y)),
        ),
{
    let file = file_of(sprite);
    let at = 6 + table_len(sprite.frames, index as nat);
    let count = last_line(sprite.frames[index].image.height);
    let further = further_offsets(sprite, index);
    let tail = join(count, further);
    lemma_header_parts(sprite, index);
    lemma_further_len(sprite, index, (y - 1) as nat);
    crate::sequence::lemma_join_holds(count, further, y - 1);
    assert(further(y - 1) == le32_bytes(line_start(sprite, index, y)));
    crate::sequence::lemma_holds_within(file, at + 8, tail, 4 * (y - 1), further(y - 1));
}

/// The offset of scanline `y` is read back from the header of its frame.
#[verifier::rlimit(40)]
proof fn lemma_offset_field(sprite: SpriteView, index: int, y: int)
    requires
        0 <= index < sprite.frames.len(),
        0 <= y <= last_line(sprite.frames[index].image.height),
        0 <= line_start(sprite, index, y) <= u32::MAX,
    ensures
        line_offset(
            file_of(sprite).skip(6 + table_len(sprite.frames, index as nat)),
            y,
        ) == line_start(sprite, index, y),
{
    let file = file_of(sprite);
    let at = 6 + table_len(sprite.frames, index as nat);
    let header = file.skip(at);
    if y == 0 {
        lemma_header_parts(sprite, index);
        crate::buffer::lemma_le32_at(file, at, line_start(sprite, index, 0));
    } else {
        lemma_further_held(sprite, index, y);
        lemma_table_len_grows(sprite.frames, 0, index as nat);
        crate::buffer::lemma_le32_at(file, at + 4 + 4 * y, line_start(sprite, index, y));
        assert(header.skip(4 + 4 * y) =~= file.skip(at + 4 + 4 * y));
    }
}

/// The width and the height of a frame are read back from its header.
#[verifier::rlimit(40)]
proof fn lemma_header_size(sprite: SpriteView, index: int)
    requires
        0 <= index < sprite.frames.len(),
        sprite.frames[index].image.width <= 65535,
        sprite.frames[index].image.height <= 65535,
    ensures
        ({
            let file = file_of(sprite);
            let at = 6 + table_len(sprite.frames, index as nat);
            let image = sprite.frames[index].image;
            &&& 0 <= at
            &&& at + header_len(image.height as int) <= file.len()
            &&& header_width(file.skip(at)) == image.width
            &&& header_height(file.skip(at)) == image.height
        }),
{
    let file = file_of(sprite);
    let at = 6 + table_len(sprite.frames, index as nat);
    let image = sprite.frames[index].image;
    lemma_header_parts(sprite, index);
    crate::buffer::lemma_le16_at(file, at + 4, image.width as int);
    crate::buffer::lemma_le16_at(file, at + 6, image.height as int);
    let header = file.skip(at);
    assert(header.skip(4) =~= file.skip(at + 4));
    assert(header.skip(6) =~= file.skip(at + 6));
}

/// The offsets of the scanlines of a frame are read back from its header.
#[verifier::rlimit(40)]
proof fn lemma_header_offsets(sprite: SpriteView, index: int)
    requires
        encodable(sprite),
        0 <= index < sprite.frames.len(),
    ensures
        declared_offsets(file_of(sprite).skip(6 + table_len(sprite.frames, index as nat)))
            == Seq::new(
            last_line(sprite.frames[index].image.height) + 1,
            |y: int| line_start(sprite, index, y) as u32,
        ),
{
    let at = 6 + table_len(sprite.frames, index as nat);
    let image = sprite.frames[index].image;
    let header = file_of(sprite).skip(at);
    assert(frame_fits(sprite, index));
    lemma_header_size(sprite, index);
    let read = declared_offsets(header);
    let expected = Seq::new(
        last_line(image.height) + 1,
        |y: int| line_start(sprite, index, y) as u32,
    );
    assert(read.len() == expected.len());
    assert forall|y: int| 0 <= y < expected.len() implies read[y] == expected[y] by {
        lemma_line_starts(sprite, index, y);
        lemma_offset_field(sprite, index, y);
        assert(read[y] == line_offset(header, y));
    }
    assert(read =~= expected);
}

/// The fields of a header are read back as they were written.
proof fn lemma_header_fields(sprite: SpriteView, index: int)
    requires
        encodable(sprite),
        0 <= index < sprite.frames.len(),
    ensures
        ({
            let file = file_of(sprite);
            let at = 6 + table_len(sprite.frames, index as nat);
            let image = sprite.frames[index].image;
            &&& 0 <= at
            &&& at + header_len(image.height as int) <= file.len()
            &&& header_width(file.skip(at)) == image.width
            &&& header_height(file.skip(at)) == image.height
            &&& declared_offsets(file.skip(at)) == Seq::new(
                last_line(image.height) + 1,
                |y: int| line_start(sprite, index, y) as u32,
            )
        }),
{
    assert(frame_fits(sprite, index));
    lemma_header_size(sprite, index);
    lemma_header_offsets(sprite, index);
}

/// The headers of a file that was written start where the table says, and
/// all of them are held.
#[verifier::rlimit(40)]
proof fn lemma_header_starts(sprite: SpriteView, count: nat)
    requires
        encodable(sprite),
        count <= sprite.frames.len(),
    ensures
        header_start(file_of(sprite), count) == 6 + table_len(sprite.frames, count),
        headers_held(file_of(sprite), count),
    decreases count,
{
    if count > 0 {
        lemma_header_starts(sprite, (count - 1) as nat);
        lemma_header_fields(sprite, count - 1);
    }
}

/// The file of a sprite holds each scanline where its header says.
#[verifier::rlimit(40)]
proof fn lemma_line_held(sprite: SpriteView, index: int, y: int)
    requires
        0 <= index < sprite.frames.len(),
        0 <= y < sprite.frames[index].image.height,
    ensures
        crate::sequence::holds_at(
            file_of(sprite),
            line_start(sprite, index, y),
            lines_of(sprite.frames[index].image, sprite.pixel_format)(y),
        ),
{
    let count = sprite.frames.len();
    let image = sprite.frames[index].image;
    let lines = lines_of(image, sprite.pixel_format);
    let data = data_of(sprite);
    let front = le32_bytes(flags_of(sprite.pixel_format)) + le16_bytes(count as int) + join(
        count,
        headers_of(sprite),
    );
    lemma_headers_len(sprite, count);
    lemma_join_len(count, headers_of(sprite));
    crate::sequence::lemma_join_holds(image.height, lines, y);
    crate::sequence::lemma_holds_framed(
        Seq::<u8>::empty(),
        join(image.height, lines),
        le16_bytes(0),
        joined_len(y as nat, lines) as int,
        lines(y),
    );
    assert(Seq::<u8>::empty() + join(image.height, lines) + le16_bytes(0) =~= data(index));
    crate::sequence::lemma_join_holds(count, data, index);
    crate::sequence::lemma_holds_within(
        join(count, data),
        joined_len(index as nat, data) as int,
        data(index),
        joined_len(y as nat, lines) as int,
        lines(y),
    );
    crate::sequence::lemma_holds_framed(
        front,
        join(count, data),
        Seq::<u8>::empty(),
        (joined_len(index as nat, data) + joined_len(y as nat, lines)) as int,
        lines(y),
    );
    assert(front + join(count, data) + Seq::<u8>::empty() =~= file_of(sprite));
}

/// A frame of a file that was written is read back as the frame shown.
#[verifier::rlimit(40)]
proof fn lemma_frame_roundtrip(sprite: SpriteView, index: int)
    requires
        encodable(sprite),
        0 <= index < sprite.frames.len(),
        sprite.frames[index].image.wf(),
    ensures
        frame_at(file_of(sprite), index) == Ok::<FrameView, FormatError>(reread(sprite)[index]),
{
    let file = file_of(sprite);
    let image = sprite.frames[index].image;
    let pixel_format = sprite.pixel_format;
    let count = sprite.frames.len();
    lemma_header_starts(sprite, index as nat);
    lemma_header_fields(sprite, index);
    let header = file.skip(header_start(file, index as nat));
    let offsets = declared_offsets(header);
    assert forall|y: int| 0 <= y < image.height implies crate::sequence::holds_at(
        file,
        #[trigger] offsets[y] as int,
        lines_of(image, pixel_format)(y),
    ) by {
        lemma_line_held(sprite, index, y);
        lemma_line_starts(sprite, index, y);
        assert(frame_fits(sprite, index));
    }
    lemma_rows_roundtrip(file, offsets, image, pixel_format, image.height);
    assert(image.height * image.width == image.width * image.height) by (nonlinear_arith);
    assert(shown_pixels(image.pixels, pixel_format).take((image.height * image.width) as int)
        =~= shown_pixels(image.pixels, pixel_format));
    lemma_layout(sprite);
}

/// The flags of a file that was written select the pixel layout of the
/// sprite, and its count is the number of frames.
#[verifier::rlimit(40)]
proof fn lemma_layout(sprite: SpriteView)
    requires
        sprite.frames.len() <= 65535,
    ensures
        file_of(sprite).len() >= 6,
        layout_of(le32(file_of(sprite))) == sprite.pixel_format,
        le16(file_of(sprite).skip(4)) == sprite.frames.len(),
{
    let count = sprite.frames.len();
    let file = file_of(sprite);
    let flags = le32_bytes(flags_of(sprite.pixel_format));
    let rest = join(count, headers_of(sprite)) + join(count, data_of(sprite));
    assert(file =~= flags + (le16_bytes(count as int) + rest));
    crate::buffer::lemma_le32_roundtrip(
        flags_of(sprite.pixel_format),
        le16_bytes(count as int) + rest,
    );
    assert(file.skip(4) =~= le16_bytes(count as int) + rest);
    crate::buffer::lemma_le16_roundtrip(count as int, rest);
}

/// A sprite that is written in the run-length format and read again has the
/// same frames in the same order and size; its pixels are those that were
/// written, each at the precision of the pixel layout. The runs lose
/// nothing: what is lost is lost by the 16-bit words alone.
pub proof fn lemma_roundtrip(sprite: SpriteView)
    requires
        encodable(sprite),
        forall|index: int|
            0 <= index < sprite.frames.len() ==> (#[trigger] sprite.frames[index]).image.wf(),
    ensures
        encoded(sprite) == Ok::<Seq<u8>, FormatError>(file_of(sprite)),
        decoded(file_of(sprite)) == Ok::<SpriteView, FormatError>(
            SpriteView {
                frames: reread(sprite),
                pixel_format: sprite.pixel_format,
                cols: 0,
                rows: 0,
                read_only: false,
            },
        ),
{
    let file = file_of(sprite);
    let count = sprite.frames.len();
    lemma_layout(sprite);
    lemma_header_starts(sprite, count);
    assert forall|index: int| 0 <= index < count implies #[trigger] frames_of(file)(index) == Ok::<
        FrameView,
        FormatError,
    >(reread(sprite)[index]) by {
        lemma_frame_roundtrip(sprite, index);
    }
    crate::sequence::lemma_collect_all(count, frames_of(file), reread(sprite));
}

} // verus!
