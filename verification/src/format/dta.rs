//! The glyph format of the game's fonts. A file holds the cells of all its
//! glyphs, one byte per pixel that names one of four colours, and, in all
//! but the smallest of its four sizes, a table of glyph widths behind them.
//! The size of the file tells the size of the cells.

use crate::buffer::{cursor_over, get_u16_le, le16, unread};
use crate::error::{FormatError, Violation};
use crate::file::{frame_views, outcome, Frame, FrameView, SpriteInfo, SpriteView};
use crate::format::{read_bytes, PixelFormat};
use crate::raster::{clear_pixel, lemma_index_in_grid, rgba, ImageView, RgbaImage};
use crate::sequence::{collect, lemma_collect_failed};
use image::Rgba;
use vstd::prelude::*;

verus! {

/// Whether a file has one of the four sizes of the format.
pub open spec fn valid_size(size: int) -> bool {
    size == 4096 || size == 9472 || size == 17152 || size == 18944
}

/// The width of the cells of a file of the given size.
pub open spec fn cell_width(size: int) -> int {
    if size == 4096 {
        8
    } else if size == 17152 {
        11
    } else {
        6
    }
}

/// The height of the cells of a file of the given size.
pub open spec fn cell_height(size: int) -> int {
    if size == 4096 {
        8
    } else {
        12
    }
}

/// The number of bytes of one cell.
pub open spec fn cell_len(size: int) -> int {
    cell_width(size) * cell_height(size)
}

/// The number of glyphs of a file: the smallest size holds cells only, the
/// others two bytes of width for each cell as well.
pub open spec fn glyph_count(size: int) -> int {
    if size == 4096 {
        size / cell_len(size)
    } else {
        size / (cell_len(size) + 2)
    }
}

/// The width of glyph `index`: the width of the cell in the smallest size,
/// else what the table behind the cells says.
pub open spec fn glyph_width(bytes: Seq<u8>, index: int) -> int {
    let size = bytes.len() as int;
    if size == 4096 {
        cell_width(size)
    } else {
        le16(bytes.skip(glyph_count(size) * cell_len(size) + 2 * index))
    }
}

/// The colour that a pixel byte names: transparent, white, grey, or navy
/// for any other value.
pub open spec fn class_color(class: u8) -> Rgba<u8> {
    if class == 0 {
        clear_pixel()
    } else if class == 1 {
        rgba(255, 255, 255, 255)
    } else if class == 2 {
        rgba(128, 128, 128, 255)
    } else {
        rgba(0, 0, 128, 255)
    }
}

/// The pixels of a glyph of the given width, cut out of its cell.
pub open spec fn glyph_pixels(cell: Seq<u8>, size: int, width: int) -> Seq<Rgba<u8>> {
    Seq::new(
        (width * cell_height(size)) as nat,
        |i: int| class_color(cell[i % width + (i / width) * cell_width(size)]),
    )
}

/// Glyph `index` of a file. A glyph wider than its cell is rejected.
pub open spec fn glyph_at(bytes: Seq<u8>, index: int) -> Result<FrameView, FormatError> {
    let size = bytes.len() as int;
    let width = glyph_width(bytes, index);
    if width > cell_width(size) {
        Err(FormatError::StructuralViolation(Violation::GlyphTooWide))
    } else {
        Ok(
            FrameView {
                image: ImageView {
                    width: width as nat,
                    height: cell_height(size) as nat,
                    pixels: glyph_pixels(
                        bytes.subrange(index * cell_len(size), (index + 1) * cell_len(size)),
                        size,
                        width,
                    ),
                },
                color_indexes: Seq::empty(),
            },
        )
    }
}

/// The glyphs of a file, as a function of the index.
pub open spec fn glyphs_of(bytes: Seq<u8>) -> spec_fn(int) -> Result<FrameView, FormatError> {
    |index: int| glyph_at(bytes, index)
}

/// What a font file holds: one frame per glyph, in a sprite that cannot be
/// written again. A file of another size than the four of the format is
/// rejected.
pub open spec fn decoded(bytes: Seq<u8>) -> Result<SpriteView, FormatError> {
    if !valid_size(bytes.len() as int) {
        Err(FormatError::StructuralViolation(Violation::InvalidCharsetSize))
    } else {
        match collect(glyph_count(bytes.len() as int) as nat, glyphs_of(bytes)) {
            Ok(frames) => Ok(
                SpriteView {
                    frames,
                    pixel_format: PixelFormat::Format565,
                    cols: 0,
                    rows: 0,
                    read_only: true,
                },
            ),
            Err(error) => Err(error),
        }
    }
}

/// The cells of a file and, where it has one, its table of widths fill the
/// file exactly.
pub proof fn lemma_sizes(size: int)
    requires
        valid_size(size),
    ensures
        cell_len(size) == if size == 17152 {
            132int
        } else if size == 4096 {
            64int
        } else {
            72int
        },
        glyph_count(size) == if size == 18944 {
            256int
        } else if size == 4096 {
            64int
        } else {
            128int
        },
        glyph_count(size) * cell_len(size) + (if size == 4096 {
            0
        } else {
            2 * glyph_count(size)
        }) == size,
{
}

fn color_of(class: u8) -> (color: Rgba<u8>)
    ensures
        color == class_color(class),
{
    match class {
        0 => Rgba([0, 0, 0, 0]),
        1 => Rgba([255, 255, 255, 255]),
        2 => Rgba([128, 128, 128, 255]),
        _ => Rgba([0, 0, 128, 255]),
    }
}

/// Cuts a glyph of the given width out of its cell.
fn glyph_image(
    char_data: &Vec<u8>,
    frame_width: usize,
    char_width: usize,
    char_height: usize,
    size: Ghost<int>,
) -> (image: RgbaImage)
    requires
        valid_size(size@),
        char_width == cell_width(size@),
        char_height == cell_height(size@),
        frame_width <= char_width,
        char_data@.len() == char_width * char_height,
    ensures
        image@ == (ImageView {
            width: frame_width as nat,
            height: char_height as nat,
            pixels: glyph_pixels(char_data@, size@, frame_width as int),
        }),
        image@.wf(),
{
    let mut pixels: Vec<Rgba<u8>> = Vec::new();
    let mut y: usize = 0;
    while y < char_height
        invariant
            0 <= y <= char_height,
            valid_size(size@),
            char_width == cell_width(size@),
            char_height == cell_height(size@),
            frame_width <= char_width,
            char_data@.len() == char_width * char_height,
            pixels@.len() == y * frame_width,
            forall|i: int|
                0 <= i < y * frame_width ==> pixels@[i] == glyph_pixels(
                    char_data@,
                    size@,
                    frame_width as int,
                )[i],
        decreases char_height - y,
    {
        let mut x: usize = 0;
        while x < frame_width
            invariant
                0 <= x <= frame_width,
                0 <= y < char_height,
                valid_size(size@),
                char_width == cell_width(size@),
                char_height == cell_height(size@),
                frame_width <= char_width,
                char_data@.len() == char_width * char_height,
                pixels@.len() == y * frame_width + x,
                forall|i: int|
                    0 <= i < y * frame_width + x ==> pixels@[i] == glyph_pixels(
                        char_data@,
                        size@,
                        frame_width as int,
                    )[i],
            decreases frame_width - x,
        {
            proof {
                lemma_index_in_grid(x as int, y as int, frame_width as int, char_height as int);
                lemma_index_in_grid(x as int, y as int, char_width as int, char_height as int);
                vstd::arithmetic::div_mod::lemma_fundamental_div_mod_converse(
                    y * frame_width + x,
                    frame_width as int,
                    y as int,
                    x as int,
                );
            }
            let color_index = char_data[x + (y * char_width)];
            pixels.push(color_of(color_index));
            x += 1;
        }
        proof {
            assert((y + 1) * frame_width == y * frame_width + frame_width) by (nonlinear_arith);
        }
        y += 1;
    }
    proof {
        assert(char_height * frame_width == frame_width * char_height) by (nonlinear_arith);
        assert(pixels@ =~= glyph_pixels(char_data@, size@, frame_width as int));
    }
    proof {
        crate::raster::lemma_product_bounded(frame_width as int, char_height as int, 11, 12);
        assert(4 * frame_width * char_height == 4 * (frame_width * char_height))
            by (nonlinear_arith);
    }
    RgbaImage::with_pixels(frame_width as u32, char_height as u32, &pixels)
}

/// Reads a font file.
pub fn decode(contents: &[u8]) -> (result: Result<SpriteInfo, FormatError>)
    ensures
        outcome(result) == decoded(contents@),
{
    let ghost bytes = contents@;
    let size = contents.len();
    if size != 4096 && size != 9472 && size != 17152 && size != 18944 {
        return Err(FormatError::StructuralViolation(Violation::InvalidCharsetSize));
    }
    let char_width: usize = match size {
        4096 => 8,
        17152 => 11,
        _ => 6,
    };
    let char_height: usize = match size {
        4096 => 8,
        _ => 12,
    };
    let char_length = char_width * char_height;
    let char_count = match size {
        4096 => size / char_length,
        _ => size / (char_length + 2),
    };
    let mut buffer = cursor_over(contents);
    let mut char_data_list: Vec<Vec<u8>> = Vec::new();
    let mut k: usize = 0;
    while k < char_count
        invariant
            0 <= k <= char_count,
            bytes == contents@,
            size == bytes.len(),
            valid_size(size as int),
            char_length == cell_len(size as int),
            char_count == glyph_count(size as int),
            unread(buffer) == bytes.skip(k * char_length),
            char_data_list@.len() == k,
            forall|j: int|
                0 <= j < k ==> (#[trigger] char_data_list@[j])@ == bytes.subrange(
                    j * char_length,
                    (j + 1) * char_length,
                ),
        decreases char_count - k,
    {
        proof {
            lemma_sizes(size as int);
            assert(k * char_length + char_length <= char_count * char_length) by (nonlinear_arith)
                requires
                    k < char_count,
                    char_length >= 0,
            ;
            assert((k + 1) * char_length == k * char_length + char_length) by (nonlinear_arith);
            assert(k * char_length >= 0) by (nonlinear_arith)
                requires
                    k >= 0,
                    char_length >= 0,
            ;
        }
        let char_data = read_bytes(&mut buffer, char_length);
        proof {
            assert(bytes.skip(k * char_length).take(char_length as int) =~= bytes.subrange(
                k * char_length,
                (k + 1) * char_length,
            ));
            assert(bytes.skip(k * char_length).skip(char_length as int) =~= bytes.skip(
                (k + 1) * char_length,
            ));
        }
        char_data_list.push(char_data);
        k += 1;
    }
    let mut frames: Vec<Frame> = Vec::new();
    let mut i: usize = 0;
    assert(frame_views(frames@) =~= Seq::<FrameView>::empty());
    while i < char_count
        invariant
            0 <= i <= char_count,
            bytes == contents@,
            size == bytes.len(),
            valid_size(size as int),
            char_width == cell_width(size as int),
            char_height == cell_height(size as int),
            char_length == cell_len(size as int),
            char_count == glyph_count(size as int),
            size != 4096 ==> unread(buffer) == bytes.skip(char_count * char_length + 2 * i),
            char_data_list@.len() == char_count,
            forall|j: int|
                0 <= j < char_count ==> (#[trigger] char_data_list@[j])@ == bytes.subrange(
                    j * char_length,
                    (j + 1) * char_length,
                ),
            collect(i as nat, glyphs_of(bytes)) == Ok::<Seq<FrameView>, FormatError>(
                frame_views(frames@),
            ),
        decreases char_count - i,
    {
        proof {
            lemma_sizes(size as int);
            assert(char_data_list@[i as int]@.len() == char_length) by {
                assert((i + 1) * char_length == i * char_length + char_length)
                    by (nonlinear_arith);
                assert(i * char_length + char_length <= char_count * char_length)
                    by (nonlinear_arith)
                    requires
                        i < char_count,
                        char_length >= 0,
                ;
                assert(i * char_length >= 0) by (nonlinear_arith)
                    requires
                        i >= 0,
                        char_length >= 0,
                ;
            }
        }
        let frame_width: usize = match size {
            4096 => char_width,
            _ => {
                let width = get_u16_le(&mut buffer) as usize;
                proof {
                    assert(bytes.skip(char_count * char_length + 2 * i).skip(2) =~= bytes.skip(
                        char_count * char_length + 2 * (i + 1),
                    ));
                }
                width
            },
        };
        if frame_width > char_width {
            proof {
                assert(glyphs_of(bytes)(i as int) == Err::<FrameView, FormatError>(
                    FormatError::StructuralViolation(Violation::GlyphTooWide),
                ));
                lemma_collect_failed((i + 1) as nat, char_count as nat, glyphs_of(bytes));
            }
            return Err(FormatError::StructuralViolation(Violation::GlyphTooWide));
        }
        let ghost before = frame_views(frames@);
        let image = glyph_image(
            &char_data_list[i],
            frame_width,
            char_width,
            char_height,
            Ghost(size as int),
        );
        let frame = Frame { image, color_indexes: Vec::new() };
        proof {
            assert(glyphs_of(bytes)(i as int) == Ok::<FrameView, FormatError>(frame@));
        }
        frames.push(frame);
        proof {
            assert(frame_views(frames@) =~= before.push(frame@));
        }
        i += 1;
    }
    Ok(
        SpriteInfo {
            frames,
            pixel_format: PixelFormat::Format565,
            cols: 0,
            rows: 0,
            read_only: true,
        },
    )
}

} // verus!
