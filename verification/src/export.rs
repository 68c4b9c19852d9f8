//! Putting the frames of a sprite side by side in one image.

use crate::error::{FormatError, Violation};
use crate::file::{frame_views, Frame, FrameView};
use crate::format::image_outcome;
use crate::raster::{
    allocatable, can_allocate, clear_pixel, lemma_index_in_grid, lemma_product_bounded, rgba,
    ImageView, RgbaImage,
};
use image::Rgba;
use vstd::prelude::*;
use vstd::string::StringSliceAdditionalSpecFns;

verus! {

/// The width of the widest of the first `count` frames.
pub open spec fn widest(frames: Seq<FrameView>, count: nat) -> nat
    decreases count,
{
    if count == 0 {
        0
    } else {
        let before = widest(frames, (count - 1) as nat);
        if frames[count - 1].image.width > before {
            frames[count - 1].image.width
        } else {
            before
        }
    }
}

/// The height of the highest of the first `count` frames.
pub open spec fn highest(frames: Seq<FrameView>, count: nat) -> nat
    decreases count,
{
    if count == 0 {
        0
    } else {
        let before = highest(frames, (count - 1) as nat);
        if frames[count - 1].image.height > before {
            frames[count - 1].image.height
        } else {
            before
        }
    }
}

/// The frame that stands in the cell in column `tile_x` of row `tile_y`:
/// the frames fill the grid row by row, or column by column.
pub open spec fn frame_in_cell(tile_x: int, tile_y: int, cols: int, rows: int, by_rows: bool) -> int {
    if by_rows {
        tile_y * cols + tile_x
    } else {
        tile_x * rows + tile_y
    }
}

/// The pixel at `(x, y)` of the combined image: the pixel of the frame in
/// whose cell it lies, or a transparent one where the cell has no frame or
/// the frame is smaller than the cell.
pub open spec fn combined_pixel(
    frames: Seq<FrameView>,
    cols: int,
    rows: int,
    by_rows: bool,
    x: int,
    y: int,
) -> Rgba<u8> {
    let tile_width = widest(frames, frames.len()) as int;
    let tile_height = highest(frames, frames.len()) as int;
    let index = frame_in_cell(x / tile_width, y / tile_height, cols, rows, by_rows);
    if index < frames.len() && x % tile_width < frames[index].image.width && y % tile_height
        < frames[index].image.height {
        frames[index].image.at(x % tile_width, y % tile_height)
    } else {
        clear_pixel()
    }
}

/// The frames of a sprite in a grid of `cols` by `rows` cells, each as large
/// as the largest frame. A grid without columns, or without rows, cannot
/// be filled row by row, or column by column, with any frame; an image
/// whose size passes 32 bits or what can be allocated is rejected.
pub open spec fn combined(frames: Seq<FrameView>, cols: int, rows: int, by_rows: bool) -> Result<
    ImageView,
    FormatError,
> {
    let width = widest(frames, frames.len()) * cols;
    let height = highest(frames, frames.len()) * rows;
    if frames.len() > 0 && (if by_rows {
        cols == 0
    } else {
        rows == 0
    }) {
        Err(FormatError::StructuralViolation(Violation::InvalidSpritesheetGrid))
    } else if width > u32::MAX || height > u32::MAX || !allocatable(width, height) {
        Err(FormatError::StructuralViolation(Violation::TooLarge))
    } else {
        Ok(
            ImageView {
                width: width as nat,
                height: height as nat,
                pixels: Seq::new(
                    (width * height) as nat,
                    |i: int| combined_pixel(frames, cols, rows, by_rows, i % width, i / width),
                ),
            },
        )
    }
}

/// Combines the frames of a sprite into one image.
pub fn combine_frames(frames: &Vec<Frame>, cols: usize, rows: usize, by_rows: bool) -> (result: Result<
    RgbaImage,
    FormatError,
>)
    ensures
        image_outcome(result) == combined(
            frame_views(frames@),
            cols as int,
            rows as int,
            by_rows,
        ),
        result matches Ok(image) ==> image@.wf(),
{
    let ghost views = frame_views(frames@);
    let frame_count = frames.len();
    let mut tile_width: u32 = 0;
    let mut tile_height: u32 = 0;
    let mut k: usize = 0;
    while k < frame_count
        invariant
            0 <= k <= frame_count,
            frame_count == frames@.len(),
            views == frame_views(frames@),
            tile_width == widest(views, k as nat),
            tile_height == highest(views, k as nat),
        decreases frame_count - k,
    {
        let frame = &frames[k];
        proof {
            assert(frame@ == views[k as int]);
        }
        if frame.image.width() > tile_width {
            tile_width = frame.image.width();
        }
        if frame.image.height() > tile_height {
            tile_height = frame.image.height();
        }
        k += 1;
    }
    if frame_count > 0 && (if by_rows {
        cols == 0
    } else {
        rows == 0
    }) {
        return Err(FormatError::StructuralViolation(Violation::InvalidSpritesheetGrid));
    }
    if cols as u64 > u32::MAX as u64 && tile_width > 0 {
        proof {
            assert(tile_width * cols > u32::MAX) by (nonlinear_arith)
                requires
                    tile_width >= 1,
                    cols > u32::MAX,
            ;
        }
        return Err(FormatError::StructuralViolation(Violation::TooLarge));
    }
    if rows as u64 > u32::MAX as u64 && tile_height > 0 {
        proof {
            assert(tile_height * rows > u32::MAX) by (nonlinear_arith)
                requires
                    tile_height >= 1,
                    rows > u32::MAX,
            ;
        }
        return Err(FormatError::StructuralViolation(Violation::TooLarge));
    }
    let wide: u64 = if tile_width == 0 {
        proof {
            assert(0 * cols == 0) by (nonlinear_arith);
        }
        0
    } else {
        proof {
            lemma_product_bounded(
                tile_width as int,
                cols as int,
                u32::MAX as int,
                u32::MAX as int,
            );
        }
        (tile_width as u64) * (cols as u64)
    };
    let high: u64 = if tile_height == 0 {
        proof {
            assert(0 * rows == 0) by (nonlinear_arith);
        }
        0
    } else {
        proof {
            lemma_product_bounded(
                tile_height as int,
                rows as int,
                u32::MAX as int,
                u32::MAX as int,
            );
        }
        (tile_height as u64) * (rows as u64)
    };
    if wide > u32::MAX as u64 || high > u32::MAX as u64 {
        return Err(FormatError::StructuralViolation(Violation::TooLarge));
    }
    let image_width = wide as u32;
    let image_height = high as u32;
    if !can_allocate(image_width, image_height) {
        return Err(FormatError::StructuralViolation(Violation::TooLarge));
    }
    let ghost expected = combined(views, cols as int, rows as int, by_rows)->Ok_0.pixels;
    let mut pixels: Vec<Rgba<u8>> = Vec::new();
    let mut y: u32 = 0;
    while y < image_height
        invariant
            0 <= y <= image_height,
            frame_count == frames@.len(),
            views == frame_views(frames@),
            tile_width == widest(views, frame_count as nat),
            tile_height == highest(views, frame_count as nat),
            image_width == tile_width * cols,
            image_height == tile_height * rows,
            expected == Seq::new(
                (image_width * image_height) as nat,
                |i: int|
                    combined_pixel(
                        views,
                        cols as int,
                        rows as int,
                        by_rows,
                        i % (image_width as int),
                        i / (image_width as int),
                    ),
            ),
            pixels@.len() == y * image_width,
            forall|i: int| 0 <= i < y * image_width ==> pixels@[i] == expected[i],
        decreases image_height - y,
    {
        let mut x: u32 = 0;
        while x < image_width
            invariant
                0 <= x <= image_width,
                0 <= y < image_height,
                frame_count == frames@.len(),
                views == frame_views(frames@),
                tile_width == widest(views, frame_count as nat),
                tile_height == highest(views, frame_count as nat),
                image_width == tile_width * cols,
                image_height == tile_height * rows,
                expected == Seq::new(
                    (image_width * image_height) as nat,
                    |i: int|
                        combined_pixel(
                            views,
                            cols as int,
                            rows as int,
                            by_rows,
                            i % (image_width as int),
                            i / (image_width as int),
                        ),
                ),
                pixels@.len() == y * image_width + x,
                forall|i: int| 0 <= i < y * image_width + x ==> pixels@[i] == expected[i],
            decreases image_width - x,
        {
            proof {
                lemma_index_in_grid(x as int, y as int, image_width as int, image_height as int);
                vstd::arithmetic::div_mod::lemma_fundamental_div_mod_converse(
                    y * image_width + x,
                    image_width as int,
                    y as int,
                    x as int,
                );
                assert(tile_width > 0 && tile_height > 0) by (nonlinear_arith)
                    requires
                        image_width == tile_width * cols,
                        image_height == tile_height * rows,
                        image_width > 0,
                        image_height > 0,
                        tile_width >= 0,
                        tile_height >= 0,
                ;
            }
            let tile_x = (x / tile_width) as u64;
            let tile_y = (y / tile_height) as u64;
            proof {
                lemma_product_bounded(tile_y as int, cols as int, u32::MAX as int, usize::MAX as int);
                lemma_product_bounded(tile_x as int, rows as int, u32::MAX as int, usize::MAX as int);
            }
            let index: u128 = if by_rows {
                (tile_y as u128) * (cols as u128) + tile_x as u128
            } else {
                (tile_x as u128) * (rows as u128) + tile_y as u128
            };
            let mut pixel = Rgba([0, 0, 0, 0]);
            if index < frame_count as u128 {
                let frame = &frames[index as usize];
                proof {
                    assert(frame@ == views[index as int]);
                }
                let inner_x = x % tile_width;
                let inner_y = y % tile_height;
                if inner_x < frame.image.width() && inner_y < frame.image.height() {
                    pixel = frame.image.get_pixel(inner_x, inner_y);
                }
            }
            pixels.push(pixel);
            x += 1;
        }
        proof {
            assert((y + 1) * image_width == y * image_width + image_width) by (nonlinear_arith);
        }
        y += 1;
    }
    proof {
        assert(image_height * image_width == image_width * image_height) by (nonlinear_arith);
        assert(pixels@ =~= expected);
    }
    Ok(RgbaImage::with_pixels(image_width, image_height, &pixels))
}

/// The first `count` bytes of a text without the hash signs among them.
pub open spec fn without_hash(text: Seq<u8>, count: nat) -> Seq<u8>
    decreases count,
{
    if count == 0 {
        Seq::empty()
    } else {
        let before = without_hash(text, (count - 1) as nat);
        if text[count - 1] == 35 {
            before
        } else {
            before.push(text[count - 1])
        }
    }
}

/// The value of a hexadecimal digit, in either case.
pub open spec fn hex_digit(byte: u8) -> Option<u8> {
    if 48 <= byte <= 57 {
        Some((byte - 48) as u8)
    } else if 97 <= byte <= 102 {
        Some((byte - 87) as u8)
    } else if 65 <= byte <= 70 {
        Some((byte - 55) as u8)
    } else {
        None
    }
}

/// The value of two characters read as a hexadecimal number: two digits,
/// or a plus sign and one digit.
pub open spec fn hex_pair(high: u8, low: u8) -> Option<u8> {
    match (hex_digit(high), hex_digit(low)) {
        (Some(high), Some(low)) => Some((16 * high + low) as u8),
        (None, Some(low)) => if high == 43 {
            Some(low)
        } else {
            None
        },
        _ => None,
    }
}

/// The opaque colour that a text names: with its hash signs taken out it must
/// be six characters, a pair for red, for green and for blue.
pub open spec fn hex_color(text: Seq<u8>) -> Option<Rgba<u8>> {
    let digits = without_hash(text, text.len());
    if digits.len() != 6 {
        None
    } else {
        match (
            hex_pair(digits[0], digits[1]),
            hex_pair(digits[2], digits[3]),
            hex_pair(digits[4], digits[5]),
        ) {
            (Some(r), Some(g), Some(b)) => Some(rgba(r, g, b, 255)),
            _ => None,
        }
    }
}

fn digit_of(byte: u8) -> (digit: Option<u8>)
    ensures
        digit == hex_digit(byte),
        digit matches Some(value) ==> value < 16,
{
    if 48 <= byte && byte <= 57 {
        Some(byte - 48)
    } else if 97 <= byte && byte <= 102 {
        Some(byte - 87)
    } else if 65 <= byte && byte <= 70 {
        Some(byte - 55)
    } else {
        None
    }
}

fn pair_of(high: u8, low: u8) -> (value: Option<u8>)
    ensures
        value == hex_pair(high, low),
{
    match (digit_of(high), digit_of(low)) {
        (Some(high), Some(low)) => Some(16 * high + low),
        (None, Some(low)) => if high == 43 {
            Some(low)
        } else {
            None
        },
        _ => None,
    }
}

/// Reads a colour written as six hexadecimal digits, with or without hash
/// signs.
pub fn hex_to_rgba(hex_color: &str) -> (result: Result<Rgba<u8>, FormatError>)
    ensures
        match result {
            Ok(color) => self::hex_color(hex_color.spec_bytes()) == Some(color),
            Err(error) => self::hex_color(hex_color.spec_bytes()) is None && error
                == FormatError::StructuralViolation(Violation::InvalidHexColor),
        },
{
    let text = hex_color.as_bytes();
    let mut digits: Vec<u8> = Vec::new();
    let mut i: usize = 0;
    while i < text.len()
        invariant
            0 <= i <= text@.len(),
            text@ == hex_color.spec_bytes(),
            digits@ == without_hash(text@, i as nat),
        decreases text@.len() - i,
    {
        if text[i] != 35 {
            digits.push(text[i]);
        }
        i += 1;
    }
    if digits.len() != 6 {
        return Err(FormatError::StructuralViolation(Violation::InvalidHexColor));
    }
    match (pair_of(digits[0], digits[1]), pair_of(digits[2], digits[3]), pair_of(digits[4], digits[5])) {
        (Some(r), Some(g), Some(b)) => Ok(Rgba([r, g, b, 255])),
        _ => Err(FormatError::StructuralViolation(Violation::InvalidHexColor)),
    }
}

/// The space left around and between the frames of a packed spritesheet.
pub open spec fn margin() -> int {
    5
}

/// How far the frames of a sprite have been packed into a spritesheet.
/// The frames are put side by side into rows no wider than asked for.
pub struct Packing {
    /// The width and the height of the sheet, for the rows that are full.
    pub sheet_width: int,
    pub sheet_height: int,
    /// The width and the height that the current row is counted with.
    pub row_width: int,
    pub row_height: int,
    /// Whether the current row holds a frame.
    pub row_started: bool,
    /// Where the next frame of the current row goes, and the height of the
    /// highest frame in it.
    pub x: int,
    pub y: int,
    pub highest: int,
    /// Where each frame so far was put.
    pub places: Seq<(int, int)>,
}

/// The packing before the first frame.
pub open spec fn packing_start() -> Packing {
    Packing {
        sheet_width: 0,
        sheet_height: margin(),
        row_width: margin(),
        row_height: 0,
        row_started: false,
        x: margin(),
        y: margin(),
        highest: 0,
        places: Seq::empty(),
    }
}

/// The larger of two numbers.
pub open spec fn larger(a: int, b: int) -> int {
    if a > b {
        a
    } else {
        b
    }
}

/// The packing after one more frame of `width` by `height` pixels. A frame
/// that fits behind the others of its row goes there. Any other frame
/// closes the row and begins the next; like the first frame of the sheet,
/// it is not counted into the width and the height of its row.
pub open spec fn packing_step(packing: Packing, width: int, height: int, max_width: int) -> Packing {
    if packing.row_width + width + margin() <= max_width {
        Packing {
            row_width: packing.row_width + width + margin(),
            row_height: larger(packing.row_height, height + margin()),
            row_started: true,
            x: packing.x + width + margin(),
            highest: larger(packing.highest, height),
            places: packing.places.push((packing.x, packing.y)),
            ..packing
        }
    } else {
        let y = if packing.row_started {
            packing.y + packing.highest + margin()
        } else {
            packing.y
        };
        Packing {
            sheet_width: if packing.row_started {
                larger(packing.sheet_width, packing.row_width)
            } else {
                packing.sheet_width
            },
            sheet_height: if packing.row_started {
                packing.sheet_height + packing.row_height
            } else {
                packing.sheet_height
            },
            row_width: margin(),
            row_height: 0,
            row_started: true,
            x: margin() + width + margin(),
            y,
            highest: height,
            places: packing.places.push((margin(), y)),
        }
    }
}

/// The packing of the first `count` frames.
pub open spec fn packing_of(frames: Seq<FrameView>, max_width: int, count: nat) -> Packing
    decreases count,
{
    if count == 0 {
        packing_start()
    } else {
        packing_step(
            packing_of(frames, max_width, (count - 1) as nat),
            frames[count - 1].image.width as int,
            frames[count - 1].image.height as int,
            max_width,
        )
    }
}

/// The width of the sheet when the last row is closed.
pub open spec fn packed_width(packing: Packing) -> int {
    if packing.row_started {
        larger(packing.sheet_width, packing.row_width)
    } else {
        packing.sheet_width
    }
}

/// The height of the sheet when the last row is closed.
pub open spec fn packed_height(packing: Packing) -> int {
    if packing.row_started {
        packing.sheet_height + packing.row_height
    } else {
        packing.sheet_height
    }
}

/// An image with another drawn into it, its top left corner at `(x, y)`.
/// An image that does not fit there is not drawn at all.
pub open spec fn painted(canvas: ImageView, image: ImageView, x: int, y: int) -> ImageView {
    if x + image.width <= canvas.width && y + image.height <= canvas.height {
        ImageView {
            width: canvas.width,
            height: canvas.height,
            pixels: Seq::new(
                canvas.pixels.len(),
                |i: int|
                    if x <= i % (canvas.width as int) < x + image.width && y <= i / (
                    canvas.width as int) < y + image.height {
                        image.at(i % (canvas.width as int) - x, i / (canvas.width as int) - y)
                    } else {
                        canvas.pixels[i]
                    },
            ),
        }
    } else {
        canvas
    }
}

/// An image with the first `count` frames drawn into it, each at its place.
pub open spec fn painted_all(
    canvas: ImageView,
    frames: Seq<FrameView>,
    places: Seq<(int, int)>,
    count: nat,
) -> ImageView
    decreases count,
{
    if count == 0 {
        canvas
    } else {
        painted(
            painted_all(canvas, frames, places, (count - 1) as nat),
            frames[count - 1].image,
            places[count - 1].0,
            places[count - 1].1,
        )
    }
}

/// The packed spritesheet of a sprite: a sheet of the divider colour, as
/// large as the packing makes it, with every frame drawn at its place. A
/// sheet whose size passes 32 bits or what can be allocated is rejected.
pub open spec fn packed_sheet(frames: Seq<FrameView>, max_width: int, divider_color: Rgba<u8>) -> Result<
    ImageView,
    FormatError,
> {
    let packing = packing_of(frames, max_width, frames.len());
    let width = packed_width(packing);
    let height = packed_height(packing);
    if width > u32::MAX || height > u32::MAX || !allocatable(width, height) {
        Err(FormatError::StructuralViolation(Violation::TooLarge))
    } else {
        Ok(
            painted_all(
                ImageView {
                    width: width as nat,
                    height: height as nat,
                    pixels: Seq::new((width * height) as nat, |i: int| divider_color),
                },
                frames,
                packing.places,
                frames.len(),
            ),
        )
    }
}

/// The sizes and the places of a packing do not shrink below their start,
/// and every frame has a place.
pub proof fn lemma_packing(frames: Seq<FrameView>, max_width: int, count: nat)
    ensures
        ({
            let packing = packing_of(frames, max_width, count);
            &&& packing.places.len() == count
            &&& 0 <= packing.sheet_width
            &&& margin() <= packing.sheet_height
            &&& margin() <= packing.row_width
            &&& 0 <= packing.row_height
            &&& margin() <= packing.x
            &&& margin() <= packing.y
            &&& 0 <= packing.highest
        }),
    decreases count,
{
    if count > 0 {
        lemma_packing(frames, max_width, (count - 1) as nat);
    }
}

/// Draws `image` into `canvas`, its top left corner at `(x, y)`, where it
/// fits there.
pub fn paint(canvas: &mut RgbaImage, image: &RgbaImage, x: u64, y: u64)
    ensures
        final(canvas)@ == painted(old(canvas)@, image@, x as int, y as int),
        final(canvas)@.wf(),
{
    let canvas_width = canvas.width();
    let canvas_height = canvas.height();
    let width = image.width();
    let height = image.height();
    let ghost before = canvas@;
    let ghost target = painted(before, image@, x as int, y as int);
    if x > canvas_width as u64 || y > canvas_height as u64 || (canvas_width as u64 - x)
        < width as u64 || (canvas_height as u64 - y) < height as u64 {
        return;
    }
    let mut image_y: u32 = 0;
    while image_y < height
        invariant
            0 <= image_y <= height,
            before.wf(),
            image@.wf(),
            width == image@.width,
            height == image@.height,
            canvas_width == before.width,
            canvas_height == before.height,
            x + width <= canvas_width,
            y + height <= canvas_height,
            canvas@.width == before.width,
            canvas@.height == before.height,
            canvas@.pixels.len() == before.pixels.len(),
            target == painted(before, image@, x as int, y as int),
            forall|i: int|
                0 <= i < before.pixels.len() ==> canvas@.pixels[i] == (if x <= i % (
                canvas_width as int) < x + width && y <= i / (canvas_width as int) < y + image_y {
                    target.pixels[i]
                } else {
                    before.pixels[i]
                }),
        decreases height - image_y,
    {
        let mut image_x: u32 = 0;
        while image_x < width
            invariant
                0 <= image_x <= width,
                0 <= image_y < height,
                before.wf(),
                image@.wf(),
                width == image@.width,
                height == image@.height,
                canvas_width == before.width,
                canvas_height == before.height,
                x + width <= canvas_width,
                y + height <= canvas_height,
                canvas@.width == before.width,
                canvas@.height == before.height,
                canvas@.pixels.len() == before.pixels.len(),
                target == painted(before, image@, x as int, y as int),
                forall|i: int|
                    0 <= i < before.pixels.len() ==> canvas@.pixels[i] == (if (x <= i % (
                    canvas_width as int) < x + width && y <= i / (canvas_width as int) < y
                        + image_y) || (x <= i % (canvas_width as int) < x + image_x && i / (
                    canvas_width as int) == y + image_y) {
                        target.pixels[i]
                    } else {
                        before.pixels[i]
                    }),
            decreases width - image_x,
        {
            let pixel = image.get_pixel(image_x, image_y);
            let to_x = (x + image_x as u64) as u32;
            let to_y = (y + image_y as u64) as u32;
            proof {
                lemma_index_in_grid(
                    to_x as int,
                    to_y as int,
                    canvas_width as int,
                    canvas_height as int,
                );
                vstd::arithmetic::div_mod::lemma_fundamental_div_mod_converse(
                    to_y * canvas_width + to_x,
                    canvas_width as int,
                    to_y as int,
                    to_x as int,
                );
            }
            let ghost earlier = canvas@.pixels;
            canvas.put_pixel(to_x, to_y, pixel);
            proof {
                let at = to_y * canvas_width + to_x;
                assert(target.pixels[at] == pixel);
                assert forall|i: int| 0 <= i < before.pixels.len() implies canvas@.pixels[i] == (if (
                x <= i % (canvas_width as int) < x + width && y <= i / (canvas_width as int) < y
                    + image_y) || (x <= i % (canvas_width as int) < x + image_x + 1 && i / (
                canvas_width as int) == y + image_y) {
                    target.pixels[i]
                } else {
                    before.pixels[i]
                }) by {
                    vstd::arithmetic::div_mod::lemma_fundamental_div_mod(i, canvas_width as int);
                    assert((i / (canvas_width as int)) * canvas_width == canvas_width * (i / (
                    canvas_width as int))) by (nonlinear_arith);
                    if i != at {
                        assert(canvas@.pixels[i] == earlier[i]);
                    }
                }
            }
            image_x += 1;
        }
        image_y += 1;
    }
    proof {
        assert(canvas@.pixels =~= target.pixels);
    }
}

/// The most that a packing grows by with one frame.
spec fn packing_growth() -> int {
    4294967305
}

/// Whether a packing of `count` frames is counted without overflow.
spec fn packing_bounded(packing: Packing, count: int) -> bool {
    let bound = 5 + count * packing_growth();
    &&& packing.places.len() == count
    &&& 0 <= packing.sheet_width <= bound
    &&& 5 <= packing.sheet_height <= bound
    &&& 5 <= packing.row_width <= bound
    &&& 0 <= packing.row_height <= packing_growth()
    &&& 5 <= packing.x <= bound
    &&& 5 <= packing.y <= bound
    &&& 0 <= packing.highest <= u32::MAX
}

proof fn lemma_packing_bounded(frames: Seq<FrameView>, max_width: int, count: nat)
    requires
        forall|i: int|
            0 <= i < count ==> (#[trigger] frames[i]).image.width <= u32::MAX
                && frames[i].image.height <= u32::MAX,
    ensures
        packing_bounded(packing_of(frames, max_width, count), count as int),
    decreases count,
{
    if count > 0 {
        lemma_packing_bounded(frames, max_width, (count - 1) as nat);
        assert(frames[count - 1].image.width <= u32::MAX);
        assert(5 + count * packing_growth() == 5 + (count - 1) * packing_growth()
            + packing_growth()) by (nonlinear_arith);
        assert((count - 1) * packing_growth() >= 0) by (nonlinear_arith)
            requires
                count >= 1,
        ;
    }
}

/// Packs the frames of a sprite into one sheet: side by side in rows no
/// wider than `max_width`, with a margin of the divider colour around each.
pub fn export_spritebuilder_spritesheet(
    frames: &Vec<Frame>,
    max_width: u32,
    divider_color: Rgba<u8>,
) -> (result: Result<RgbaImage, FormatError>)
    ensures
        image_outcome(result) == packed_sheet(
            frame_views(frames@),
            max_width as int,
            divider_color,
        ),
{
    let ghost views = frame_views(frames@);
    let margin: u128 = 5;
    let frame_count = frames.len();
    let mut places: Vec<(u128, u128)> = Vec::new();
    let mut row_started = false;
    let mut spritesheet_width: u128 = 0;
    let mut row_width: u128 = margin;
    let mut spritesheet_height: u128 = margin;
    let mut row_height: u128 = 0;
    let mut x: u128 = margin;
    let mut y: u128 = margin;
    let mut max_height: u128 = 0;
    let mut k: usize = 0;
    proof {
        assert(places@.len() == 0);
    }
    while k < frame_count
        invariant
            0 <= k <= frame_count,
            frame_count == frames@.len(),
            views == frame_views(frames@),
            margin == 5,
            forall|i: int|
                0 <= i < k ==> (#[trigger] views[i]).image.width <= u32::MAX
                    && views[i].image.height <= u32::MAX,
            packing_bounded(packing_of(views, max_width as int, k as nat), k as int),
            ({
                let packing = packing_of(views, max_width as int, k as nat);
                &&& packing.sheet_width == spritesheet_width
                &&& packing.sheet_height == spritesheet_height
                &&& packing.row_width == row_width
                &&& packing.row_height == row_height
                &&& packing.row_started == row_started
                &&& packing.x == x
                &&& packing.y == y
                &&& packing.highest == max_height
                &&& packing.places.len() == places@.len()
                &&& forall|i: int|
                    0 <= i < places@.len() ==> (#[trigger] places@[i]).0 == packing.places[i].0
                        && places@[i].1 == packing.places[i].1
            }),
        decreases frame_count - k,
    {
        let frame = &frames[k];
        let width = frame.image.width() as u128;
        let height = frame.image.height() as u128;
        proof {
            assert(frame@ == views[k as int]);
            lemma_packing_bounded(views, max_width as int, (k + 1) as nat);
            assert(k * packing_growth() <= usize::MAX * packing_growth()) by (nonlinear_arith)
                requires
                    0 <= k <= usize::MAX,
            ;
        }
        if row_width + width + margin <= max_width as u128 {
            row_width += width + margin;
            if height + margin > row_height {
                row_height = height + margin;
            }
            places.push((x, y));
            x += width + margin;
            if height > max_height {
                max_height = height;
            }
            row_started = true;
        } else {
            if row_started {
                if row_width > spritesheet_width {
                    spritesheet_width = row_width;
                }
                spritesheet_height += row_height;
                y += max_height + margin;
            }
            row_width = margin;
            row_height = 0;
            places.push((margin, y));
            x = margin + width + margin;
            max_height = height;
            row_started = true;
        }
        k += 1;
    }
    if row_started {
        if row_width > spritesheet_width {
            spritesheet_width = row_width;
        }
        spritesheet_height += row_height;
    }
    if spritesheet_width > u32::MAX as u128 || spritesheet_height > u32::MAX as u128 {
        return Err(FormatError::StructuralViolation(Violation::TooLarge));
    }
    let mut spritesheet_image = match RgbaImage::filled(
        spritesheet_width as u32,
        spritesheet_height as u32,
        divider_color,
    ) {
        Some(image) => image,
        None => {
            return Err(FormatError::StructuralViolation(Violation::TooLarge));
        },
    };
    let ghost packing = packing_of(views, max_width as int, frame_count as nat);
    let ghost blank = spritesheet_image@;
    let mut i: usize = 0;
    while i < frame_count
        invariant
            0 <= i <= frame_count,
            frame_count == frames@.len(),
            views == frame_views(frames@),
            packing == packing_of(views, max_width as int, frame_count as nat),
            packing.places.len() == places@.len(),
            places@.len() == frame_count,
            forall|j: int|
                0 <= j < places@.len() ==> (#[trigger] places@[j]).0 == packing.places[j].0
                    && places@[j].1 == packing.places[j].1,
            spritesheet_image@.wf(),
            spritesheet_image@.width <= u32::MAX,
            spritesheet_image@.height <= u32::MAX,
            spritesheet_image@ == painted_all(blank, views, packing.places, i as nat),
        decreases frame_count - i,
    {
        let frame = &frames[i];
        let place = places[i];
        proof {
            assert(frame@ == views[i as int]);
            assert(places@[i as int].0 == packing.places[i as int].0);
        }
        if place.0 <= u32::MAX as u128 && place.1 <= u32::MAX as u128 {
            paint(&mut spritesheet_image, &frame.image, place.0 as u64, place.1 as u64);
        }
        i += 1;
    }
    Ok(spritesheet_image)
}

} // verus!
