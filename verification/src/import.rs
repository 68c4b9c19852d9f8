//! Cutting a large image into frames: the tiles of a background, and the
//! cells of a spritesheet.

use crate::error::{FormatError, Violation};
use crate::file::{frame_views, Frame, FrameView};
use crate::raster::{lemma_index_in_grid, lemma_product_bounded, rgba, ImageView, RgbaImage};
use image::Rgba;
use vstd::prelude::*;

verus! {

/// The number of tiles of 128 pixels that cover `size` pixels.
pub open spec fn tiles_across(size: int) -> int {
    (size + 127) / 128
}

/// The pixel at position `i` of the tile in column `col` and row `row` of a
/// background: the pixel of the image where the tile covers it, opaque
/// black beyond its right and lower edge.
pub open spec fn tile_pixel(image: ImageView, col: int, row: int, i: int) -> Rgba<u8> {
    let x = col * 128 + i % 128;
    let y = row * 128 + i / 128;
    if x < image.width && y < image.height {
        image.at(x, y)
    } else {
        rgba(0, 0, 0, 255)
    }
}

/// The tile in column `col` and row `row` of a background.
pub open spec fn tile_of(image: ImageView, col: int, row: int) -> FrameView {
    FrameView {
        image: ImageView {
            width: 128,
            height: 128,
            pixels: Seq::new(16384, |i: int| tile_pixel(image, col, row, i)),
        },
        color_indexes: Seq::empty(),
    }
}

fn cut_tile(image: &RgbaImage, col: u32, row: u32) -> (tile: Frame)
    requires
        col < tiles_across(image@.width as int),
        row < tiles_across(image@.height as int),
    ensures
        tile@ == tile_of(image@, col as int, row as int),
        tile@.image.wf(),
{
    let width = image.width();
    let height = image.height();
    let tile_x: u64 = col as u64 * 128;
    let tile_y: u64 = row as u64 * 128;
    let mut pixels: Vec<Rgba<u8>> = Vec::new();
    let mut y: u32 = 0;
    while y < 128
        invariant
            0 <= y <= 128,
            width == image@.width,
            height == image@.height,
            image@.wf(),
            tile_x == col * 128,
            tile_y == row * 128,
            pixels@.len() == y * 128,
            forall|i: int|
                0 <= i < y * 128 ==> pixels@[i] == tile_pixel(image@, col as int, row as int, i),
        decreases 128 - y,
    {
        let mut x: u32 = 0;
        while x < 128
            invariant
                0 <= x <= 128,
                0 <= y < 128,
                width == image@.width,
                height == image@.height,
                image@.wf(),
                tile_x == col * 128,
                tile_y == row * 128,
                pixels@.len() == y * 128 + x,
                forall|i: int|
                    0 <= i < y * 128 + x ==> pixels@[i] == tile_pixel(
                        image@,
                        col as int,
                        row as int,
                        i,
                    ),
            decreases 128 - x,
        {
            let image_x = tile_x + x as u64;
            let image_y = tile_y + y as u64;
            let pixel = if image_x < width as u64 && image_y < height as u64 {
                image.get_pixel(image_x as u32, image_y as u32)
            } else {
                Rgba([0, 0, 0, 255])
            };
            pixels.push(pixel);
            x += 1;
        }
        y += 1;
    }
    proof {
        assert(pixels@ =~= tile_of(image@, col as int, row as int).image.pixels);
    }
    Frame { image: RgbaImage::with_pixels(128, 128, &pixels), color_indexes: Vec::new() }
}

/// Cuts an image into the tiles of a background, 128 by 128 pixels each.
/// The tiles come column by column, each column from top to bottom; with
/// them come the columns and the rows of the grid.
pub fn split_into_tiles(image: &RgbaImage) -> (cut: (Vec<Frame>, u32, u32))
    ensures
        cut.1 == tiles_across(image@.width as int),
        cut.2 == tiles_across(image@.height as int),
        cut.0@.len() == cut.1 * cut.2,
        forall|col: int, row: int|
            0 <= col < cut.1 && 0 <= row < cut.2 ==> (#[trigger] cut.0@[col * cut.2 + row])@
                == tile_of(image@, col, row),
{
    let cols: u32 = ((image.width() as u64 + 127) / 128) as u32;
    let rows: u32 = ((image.height() as u64 + 127) / 128) as u32;
    let mut frames: Vec<Frame> = Vec::new();
    let mut col: u32 = 0;
    while col < cols
        invariant
            0 <= col <= cols,
            cols == tiles_across(image@.width as int),
            rows == tiles_across(image@.height as int),
            frames@.len() == col * rows,
            forall|c: int, r: int|
                0 <= c < col && 0 <= r < rows ==> (#[trigger] frames@[c * rows + r])@ == tile_of(
                    image@,
                    c,
                    r,
                ),
        decreases cols - col,
    {
        let mut row: u32 = 0;
        while row < rows
            invariant
                0 <= row <= rows,
                0 <= col < cols,
                cols == tiles_across(image@.width as int),
                rows == tiles_across(image@.height as int),
                frames@.len() == col * rows + row,
                forall|c: int, r: int|
                    0 <= c < col && 0 <= r < rows ==> (#[trigger] frames@[c * rows + r])@
                        == tile_of(image@, c, r),
                forall|r: int|
                    0 <= r < row ==> (#[trigger] frames@[col * rows + r])@ == tile_of(
                        image@,
                        col as int,
                        r,
                    ),
            decreases rows - row,
        {
            let ghost before = frames@;
            let tile = cut_tile(image, col, row);
            frames.push(tile);
            proof {
                assert forall|c: int, r: int| 0 <= c < col && 0 <= r < rows implies (
                #[trigger] frames@[c * rows + r])@ == tile_of(image@, c, r) by {
                    lemma_index_in_grid(r, c, rows as int, col as int);
                    assert(rows * col == col * rows) by (nonlinear_arith);
                    assert(frames@[c * rows + r] == before[c * rows + r]);
                }
                assert forall|r: int| 0 <= r < row + 1 implies (#[trigger] frames@[col * rows
                    + r])@ == tile_of(image@, col as int, r) by {
                    if r < row {
                        assert(frames@[col * rows + r] == before[col * rows + r]);
                    }
                }
            }
            row += 1;
        }
        proof {
            assert((col + 1) * rows == col * rows + rows) by (nonlinear_arith);
            assert forall|c: int, r: int| 0 <= c < col + 1 && 0 <= r < rows implies (
            #[trigger] frames@[c * rows + r])@ == tile_of(image@, c, r) by {
                if c == col {
                    assert((frames@[col * rows + r])@ == tile_of(image@, col as int, r));
                }
            }
        }
        col += 1;
    }
    (frames, cols, rows)
}

/// The cell in column `tile_x` of row `tile_y` of a spritesheet whose cells
/// are `tile_width` by `tile_height` pixels.
pub open spec fn cell_of(
    image: ImageView,
    tile_width: int,
    tile_height: int,
    tile_x: int,
    tile_y: int,
) -> ImageView {
    ImageView {
        width: tile_width as nat,
        height: tile_height as nat,
        pixels: Seq::new(
            (tile_width * tile_height) as nat,
            |i: int| image.at(tile_x * tile_width + i % tile_width, tile_y * tile_height + i / tile_width),
        ),
    }
}

/// Whether an image has no fully opaque pixel.
pub open spec fn is_empty_cell(image: ImageView) -> bool {
    forall|i: int| 0 <= i < image.pixels.len() ==> (#[trigger] image.pixels[i]).0[3] != 255
}

/// The frames of the first `count` cells of row `tile_y` of a spritesheet:
/// the cells from left to right, those without an opaque pixel left out.
pub open spec fn row_frames(
    image: ImageView,
    cols: int,
    rows: int,
    tile_y: int,
    count: nat,
) -> Seq<FrameView>
    decreases count,
{
    if count == 0 {
        Seq::empty()
    } else {
        let before = row_frames(image, cols, rows, tile_y, (count - 1) as nat);
        let cell = cell_of(
            image,
            (image.width as int) / cols,
            (image.height as int) / rows,
            count - 1,
            tile_y,
        );
        if is_empty_cell(cell) {
            before
        } else {
            before.push(FrameView { image: cell, color_indexes: Seq::empty() })
        }
    }
}

/// The frames of the first `count` rows of a spritesheet.
pub open spec fn sheet_frames(image: ImageView, cols: int, rows: int, count: nat) -> Seq<FrameView>
    decreases count,
{
    if count == 0 {
        Seq::empty()
    } else {
        sheet_frames(image, cols, rows, (count - 1) as nat) + row_frames(
            image,
            cols,
            rows,
            count - 1,
            cols as nat,
        )
    }
}

/// Cuts one cell out of a spritesheet; `None` for a cell without an opaque
/// pixel.
fn cut_cell(
    image: &RgbaImage,
    tile_width: u32,
    tile_height: u32,
    tile_x: u32,
    tile_y: u32,
) -> (cut: Option<Frame>)
    requires
        (tile_x + 1) * tile_width <= image@.width,
        (tile_y + 1) * tile_height <= image@.height,
    ensures
        ({
            let cell = cell_of(
                image@,
                tile_width as int,
                tile_height as int,
                tile_x as int,
                tile_y as int,
            );
            match cut {
                Some(frame) => !is_empty_cell(cell) && frame@ == (FrameView {
                    image: cell,
                    color_indexes: Seq::empty(),
                }) && frame@.image.wf(),
                None => is_empty_cell(cell),
            }
        }),
{
    let width = image.width();
    let height = image.height();
    let ghost cell = cell_of(
        image@,
        tile_width as int,
        tile_height as int,
        tile_x as int,
        tile_y as int,
    );
    proof {
        assert(tile_x * tile_width + tile_width == (tile_x + 1) * tile_width) by (nonlinear_arith);
        assert(tile_y * tile_height + tile_height == (tile_y + 1) * tile_height)
            by (nonlinear_arith);
        assert(tile_x * tile_width >= 0 && tile_y * tile_height >= 0) by (nonlinear_arith)
            requires
                tile_x >= 0,
                tile_y >= 0,
                tile_width >= 0,
                tile_height >= 0,
        ;
        lemma_product_bounded(
            tile_width as int,
            tile_height as int,
            width as int,
            height as int,
        );
        assert(4 * tile_width * tile_height == 4 * (tile_width * tile_height))
            by (nonlinear_arith);
        assert(4 * width * height == 4 * (width * height)) by (nonlinear_arith);
    }
    let image_x = tile_x * tile_width;
    let image_y = tile_y * tile_height;
    let mut pixels: Vec<Rgba<u8>> = Vec::new();
    let mut empty_image = true;
    let mut y: u32 = 0;
    while y < tile_height
        invariant
            0 <= y <= tile_height,
            width == image@.width,
            height == image@.height,
            image@.wf(),
            image_x == tile_x * tile_width,
            image_y == tile_y * tile_height,
            image_x + tile_width <= width,
            image_y + tile_height <= height,
            cell == cell_of(
                image@,
                tile_width as int,
                tile_height as int,
                tile_x as int,
                tile_y as int,
            ),
            pixels@.len() == y * tile_width,
            forall|i: int| 0 <= i < y * tile_width ==> pixels@[i] == cell.pixels[i],
            empty_image == forall|i: int|
                0 <= i < y * tile_width ==> (#[trigger] cell.pixels[i]).0[3] != 255,
        decreases tile_height - y,
    {
        let mut x: u32 = 0;
        while x < tile_width
            invariant
                0 <= x <= tile_width,
                0 <= y < tile_height,
                width == image@.width,
                height == image@.height,
                image@.wf(),
                image_x == tile_x * tile_width,
                image_y == tile_y * tile_height,
                image_x + tile_width <= width,
                image_y + tile_height <= height,
                cell == cell_of(
                    image@,
                    tile_width as int,
                    tile_height as int,
                    tile_x as int,
                    tile_y as int,
                ),
                pixels@.len() == y * tile_width + x,
                forall|i: int| 0 <= i < y * tile_width + x ==> pixels@[i] == cell.pixels[i],
                empty_image == forall|i: int|
                    0 <= i < y * tile_width + x ==> (#[trigger] cell.pixels[i]).0[3] != 255,
            decreases tile_width - x,
        {
            proof {
                lemma_index_in_grid(x as int, y as int, tile_width as int, tile_height as int);
                vstd::arithmetic::div_mod::lemma_fundamental_div_mod_converse(
                    y * tile_width + x,
                    tile_width as int,
                    y as int,
                    x as int,
                );
            }
            let pixel = image.get_pixel(image_x + x, image_y + y);
            proof {
                assert(cell.pixels[y * tile_width + x] == pixel);
            }
            if pixel.0[3] == 255 {
                empty_image = false;
            }
            pixels.push(pixel);
            x += 1;
        }
        proof {
            assert((y + 1) * tile_width == y * tile_width + tile_width) by (nonlinear_arith);
        }
        y += 1;
    }
    proof {
        assert(tile_height * tile_width == tile_width * tile_height) by (nonlinear_arith);
        assert(pixels@ =~= cell.pixels);
    }
    if !empty_image {
        Some(
            Frame {
                image: RgbaImage::with_pixels(tile_width, tile_height, &pixels),
                color_indexes: Vec::new(),
            },
        )
    } else {
        None
    }
}

/// Cuts a spritesheet of `cols` by `rows` cells into frames, row by row.
/// The cells are as large as fit that many times into the image; cells
/// without an opaque pixel give no frame. A grid without columns or rows
/// is rejected.
pub fn import_spritesheet_as_frames(image: &RgbaImage, cols: u32, rows: u32) -> (result: Result<
    Vec<Frame>,
    FormatError,
>)
    ensures
        cols == 0 || rows == 0 ==> result matches Err(
            FormatError::StructuralViolation(Violation::InvalidSpritesheetGrid),
        ),
        cols > 0 && rows > 0 ==> result is Ok && frame_views(result->Ok_0@) == sheet_frames(
            image@,
            cols as int,
            rows as int,
            rows as nat,
        ),
{
    if cols == 0 || rows == 0 {
        return Err(FormatError::StructuralViolation(Violation::InvalidSpritesheetGrid));
    }
    let tile_width = image.width() / cols;
    let tile_height = image.height() / rows;
    let mut frames: Vec<Frame> = Vec::new();
    let mut tile_y: u32 = 0;
    assert(frame_views(frames@) =~= Seq::<FrameView>::empty());
    while tile_y < rows
        invariant
            0 <= tile_y <= rows,
            cols > 0,
            rows > 0,
            tile_width == (image@.width as int) / (cols as int),
            tile_height == (image@.height as int) / (rows as int),
            frame_views(frames@) == sheet_frames(image@, cols as int, rows as int, tile_y as nat),
        decreases rows - tile_y,
    {
        let ghost above = frame_views(frames@);
        let mut tile_x: u32 = 0;
        proof {
            assert(above + Seq::<FrameView>::empty() =~= above);
        }
        while tile_x < cols
            invariant
                0 <= tile_x <= cols,
                0 <= tile_y < rows,
                cols > 0,
                rows > 0,
                tile_width == (image@.width as int) / (cols as int),
                tile_height == (image@.height as int) / (rows as int),
                frame_views(frames@) == above + row_frames(
                    image@,
                    cols as int,
                    rows as int,
                    tile_y as int,
                    tile_x as nat,
                ),
            decreases cols - tile_x,
        {
            proof {
                vstd::arithmetic::div_mod::lemma_fundamental_div_mod(
                    image@.width as int,
                    cols as int,
                );
                vstd::arithmetic::div_mod::lemma_fundamental_div_mod(
                    image@.height as int,
                    rows as int,
                );
                vstd::arithmetic::div_mod::lemma_mod_pos_bound(image@.width as int, cols as int);
                vstd::arithmetic::div_mod::lemma_mod_pos_bound(image@.height as int, rows as int);
                assert((tile_x + 1) * tile_width <= cols * tile_width) by (nonlinear_arith)
                    requires
                        tile_x + 1 <= cols,
                        tile_width >= 0,
                ;
                assert((tile_y + 1) * tile_height <= rows * tile_height) by (nonlinear_arith)
                    requires
                        tile_y + 1 <= rows,
                        tile_height >= 0,
                ;
            }
            let ghost so_far = frame_views(frames@);
            match cut_cell(image, tile_width, tile_height, tile_x, tile_y) {
                Some(frame) => {
                    frames.push(frame);
                    proof {
                        assert(frame_views(frames@) =~= so_far.push(frame@));
                        assert(so_far.push(frame@) =~= above + row_frames(
                            image@,
                            cols as int,
                            rows as int,
                            tile_y as int,
                            (tile_x + 1) as nat,
                        ));
                    }
                },
                None => {},
            }
            tile_x += 1;
        }
        tile_y += 1;
    }
    Ok(frames)
}

/// The first column from `from` up to `to` of row `y` whose pixel is not
/// of the divider colour, or `to` where there is none.
pub open spec fn next_other(sheet: ImageView, divider: Rgba<u8>, y: int, from: int, to: int) -> int
    decreases to - from,
{
    if from >= to {
        to
    } else if sheet.at(from, y) != divider {
        from
    } else {
        next_other(sheet, divider, y, from + 1, to)
    }
}

/// The first column from `from` on of row `y` whose pixel is of the divider
/// colour, or the width of the sheet where there is none.
pub open spec fn divider_right(sheet: ImageView, divider: Rgba<u8>, y: int, from: int) -> int
    decreases sheet.width - from,
{
    if from >= sheet.width {
        sheet.width as int
    } else if sheet.at(from, y) == divider {
        from
    } else {
        divider_right(sheet, divider, y, from + 1)
    }
}

/// The first row from `from` on of column `x` whose pixel is of the divider
/// colour, or the height of the sheet where there is none.
pub open spec fn divider_below(sheet: ImageView, divider: Rgba<u8>, x: int, from: int) -> int
    decreases sheet.height - from,
{
    if from >= sheet.height {
        sheet.height as int
    } else if sheet.at(x, from) == divider {
        from
    } else {
        divider_below(sheet, divider, x, from + 1)
    }
}

/// Where the next sprite of a sheet starts: the first pixel, row by row
/// from row `from` on and inside the margin, that is not of the divider
/// colour.
pub open spec fn next_sprite(sheet: ImageView, margin: int, divider: Rgba<u8>, from: int) -> Option<
    (int, int),
>
    decreases sheet.height - margin - from,
{
    if from >= sheet.height - margin {
        None
    } else {
        let x = next_other(sheet, divider, from, margin, sheet.width - margin);
        if x < sheet.width - margin {
            Some((x, from))
        } else {
            next_sprite(sheet, margin, divider, from + 1)
        }
    }
}

/// The part of a sheet that is `width` by `height` pixels from `(x, y)` on.
pub open spec fn cut_out(sheet: ImageView, x: int, y: int, width: int, height: int) -> ImageView {
    ImageView {
        width: width as nat,
        height: height as nat,
        pixels: Seq::new(
            (width * height) as nat,
            |i: int| sheet.at(x + i % width, y + i / width),
        ),
    }
}

/// A sheet with the part of `width` by `height` pixels from `(x, y)` on
/// painted over in one colour.
pub open spec fn blanked(
    sheet: ImageView,
    x: int,
    y: int,
    width: int,
    height: int,
    color: Rgba<u8>,
) -> ImageView {
    ImageView {
        width: sheet.width,
        height: sheet.height,
        pixels: Seq::new(
            sheet.pixels.len(),
            |i: int|
                if x <= i % (sheet.width as int) < x + width && y <= i / (sheet.width as int) < y
                    + height {
                    color
                } else {
                    sheet.pixels[i]
                },
        ),
    }
}

/// The sprite that starts at `(x, y)`: it reaches to the right and down to
/// the next pixel of the divider colour in its first row and in its first
/// column, or to the edge of the sheet.
pub open spec fn sprite_at(sheet: ImageView, divider: Rgba<u8>, x: int, y: int) -> ImageView {
    cut_out(
        sheet,
        x,
        y,
        divider_right(sheet, divider, y, x) - x,
        divider_below(sheet, divider, x, y) - y,
    )
}

/// The sheet after the sprite that starts at `(x, y)` was taken out.
pub open spec fn without_sprite(sheet: ImageView, divider: Rgba<u8>, x: int, y: int) -> ImageView {
    blanked(
        sheet,
        x,
        y,
        divider_right(sheet, divider, y, x) - x,
        divider_below(sheet, divider, x, y) - y,
        divider,
    )
}

fn same_pixel(first: &Rgba<u8>, second: &Rgba<u8>) -> (same: bool)
    ensures
        same == (*first == *second),
{
    let same = first.0[0] == second.0[0] && first.0[1] == second.0[1] && first.0[2] == second.0[2]
        && first.0[3] == second.0[3];
    proof {
        if same {
            assert(first.0 =~= second.0);
        }
    }
    same
}

/// The first divider of a row lies behind where the search starts and not
/// beyond the edge; so does the first of a column.
pub proof fn lemma_divider(sheet: ImageView, divider: Rgba<u8>, x: int, y: int)
    requires
        0 <= x <= sheet.width,
        0 <= y <= sheet.height,
    ensures
        x <= divider_right(sheet, divider, y, x) <= sheet.width,
        y <= divider_below(sheet, divider, x, y) <= sheet.height,
        x < sheet.width && sheet.at(x, y) != divider ==> x < divider_right(sheet, divider, y, x),
        y < sheet.height && sheet.at(x, y) != divider ==> y < divider_below(sheet, divider, x, y),
    decreases sheet.width - x + sheet.height - y,
{
    if x < sheet.width && sheet.at(x, y) != divider {
        lemma_divider(sheet, divider, x + 1, y);
    }
    if y < sheet.height && sheet.at(x, y) != divider {
        lemma_divider(sheet, divider, x, y + 1);
    }
}

/// Takes the next sprite out of a sheet: the sprite that starts at the first
/// pixel inside the margin that is not of the divider colour. Its place on
/// the sheet is painted over with the divider colour.
pub fn get_next_sprite(spritesheet: &mut RgbaImage, margin: u32, divider_color: &Rgba<u8>) -> (sprite:
    Option<RgbaImage>)
    ensures
        final(spritesheet)@.wf(),
        match next_sprite(old(spritesheet)@, margin as int, *divider_color, margin as int) {
            Some((x, y)) => sprite is Some && sprite->0@ == sprite_at(
                old(spritesheet)@,
                *divider_color,
                x,
                y,
            ) && final(spritesheet)@ == without_sprite(old(spritesheet)@, *divider_color, x, y),
            None => sprite is None && final(spritesheet)@ == old(spritesheet)@,
        },
{
    let width = spritesheet.width();
    let height = spritesheet.height();
    let ghost sheet = spritesheet@;
    if margin >= height || margin >= width || height - margin <= margin {
        proof {
            lemma_no_sprite(sheet, margin as int, *divider_color, margin as int);
        }
        return None;
    }
    let right = width - margin;
    let bottom = height - margin;
    let mut y: u32 = margin;
    while y < bottom
        invariant
            margin <= y <= bottom,
            width == sheet.width,
            height == sheet.height,
            right == width - margin,
            bottom == height - margin,
            margin < width,
            sheet.wf(),
            sheet == old(spritesheet)@,
            spritesheet@ == sheet,
            next_sprite(sheet, margin as int, *divider_color, y as int) == next_sprite(
                sheet,
                margin as int,
                *divider_color,
                margin as int,
            ),
        decreases bottom - y,
    {
        let mut x: u32 = margin;
        while x < right
            invariant
                margin <= x,
                x <= right || right < margin,
                margin <= y < bottom,
                width == sheet.width,
                height == sheet.height,
                right == width - margin,
                bottom == height - margin,
                margin < width,
                sheet.wf(),
                sheet == old(spritesheet)@,
                spritesheet@ == sheet,
                next_sprite(sheet, margin as int, *divider_color, y as int) == next_sprite(
                    sheet,
                    margin as int,
                    *divider_color,
                    margin as int,
                ),
                next_other(sheet, *divider_color, y as int, x as int, right as int) == next_other(
                    sheet,
                    *divider_color,
                    y as int,
                    margin as int,
                    right as int,
                ),
            decreases right - x,
        {
            let pixel = spritesheet.get_pixel(x, y);
            if !same_pixel(&pixel, divider_color) {
                proof {
                    lemma_divider(sheet, *divider_color, x as int, y as int);
                }
                let sprite_width = row_reach(spritesheet, x, y, divider_color) - x;
                let sprite_height = column_reach(spritesheet, x, y, divider_color) - y;
                let sprite = copy_part(spritesheet, x, y, sprite_width, sprite_height);
                blank_part(spritesheet, x, y, sprite_width, sprite_height, *divider_color);
                return Some(sprite);
            }
            x += 1;
        }
        y += 1;
    }
    None
}

/// A sheet whose margins leave no room holds no sprite.
proof fn lemma_no_sprite(sheet: ImageView, margin: int, divider: Rgba<u8>, from: int)
    requires
        margin >= sheet.width - margin || from >= sheet.height - margin,
        0 <= margin,
    ensures
        next_sprite(sheet, margin, divider, from) is None,
    decreases sheet.height - margin - from,
{
    if from < sheet.height - margin {
        lemma_no_sprite(sheet, margin, divider, from + 1);
    }
}

fn row_reach(sheet: &RgbaImage, x: u32, y: u32, divider_color: &Rgba<u8>) -> (reach: u32)
    requires
        sheet@.wf(),
        x < sheet@.width,
        y < sheet@.height,
    ensures
        reach == divider_right(sheet@, *divider_color, y as int, x as int),
        x <= reach <= sheet@.width,
{
    let width = sheet.width();
    let mut last_x = x;
    proof {
        lemma_divider(sheet@, *divider_color, x as int, y as int);
    }
    while last_x < width
        invariant
            x <= last_x <= width,
            width == sheet@.width,
            y < sheet@.height,
            sheet@.wf(),
            divider_right(sheet@, *divider_color, y as int, last_x as int) == divider_right(
                sheet@,
                *divider_color,
                y as int,
                x as int,
            ),
        decreases width - last_x,
    {
        let pixel = sheet.get_pixel(last_x, y);
        if same_pixel(&pixel, divider_color) {
            return last_x;
        }
        last_x += 1;
    }
    last_x
}

fn column_reach(sheet: &RgbaImage, x: u32, y: u32, divider_color: &Rgba<u8>) -> (reach: u32)
    requires
        sheet@.wf(),
        x < sheet@.width,
        y < sheet@.height,
    ensures
        reach == divider_below(sheet@, *divider_color, x as int, y as int),
        y <= reach <= sheet@.height,
{
    let height = sheet.height();
    let mut last_y = y;
    while last_y < height
        invariant
            y <= last_y <= height,
            height == sheet@.height,
            x < sheet@.width,
            sheet@.wf(),
            divider_below(sheet@, *divider_color, x as int, last_y as int) == divider_below(
                sheet@,
                *divider_color,
                x as int,
                y as int,
            ),
        decreases height - last_y,
    {
        let pixel = sheet.get_pixel(x, last_y);
        if same_pixel(&pixel, divider_color) {
            return last_y;
        }
        last_y += 1;
    }
    last_y
}

/// A copy of the part of `width` by `height` pixels from `(x, y)` on.
fn copy_part(sheet: &RgbaImage, x: u32, y: u32, width: u32, height: u32) -> (part: RgbaImage)
    requires
        sheet@.wf(),
        x + width <= sheet@.width,
        y + height <= sheet@.height,
    ensures
        part@ == cut_out(sheet@, x as int, y as int, width as int, height as int),
        part@.wf(),
{
    let sheet_width = sheet.width();
    let sheet_height = sheet.height();
    let ghost expected = cut_out(sheet@, x as int, y as int, width as int, height as int);
    proof {
        lemma_product_bounded(
            width as int,
            height as int,
            sheet_width as int,
            sheet_height as int,
        );
        assert(4 * width * height == 4 * (width * height)) by (nonlinear_arith);
        assert(4 * sheet_width * sheet_height == 4 * (sheet_width * sheet_height))
            by (nonlinear_arith);
    }
    let mut pixels: Vec<Rgba<u8>> = Vec::new();
    let mut part_y: u32 = 0;
    while part_y < height
        invariant
            0 <= part_y <= height,
            sheet@.wf(),
            sheet_width == sheet@.width,
            sheet_height == sheet@.height,
            x + width <= sheet@.width,
            y + height <= sheet@.height,
            expected == cut_out(sheet@, x as int, y as int, width as int, height as int),
            pixels@.len() == part_y * width,
            forall|i: int| 0 <= i < part_y * width ==> pixels@[i] == expected.pixels[i],
        decreases height - part_y,
    {
        let mut part_x: u32 = 0;
        while part_x < width
            invariant
                0 <= part_x <= width,
                0 <= part_y < height,
                sheet@.wf(),
                sheet_width == sheet@.width,
                sheet_height == sheet@.height,
                x + width <= sheet@.width,
                y + height <= sheet@.height,
                expected == cut_out(sheet@, x as int, y as int, width as int, height as int),
                pixels@.len() == part_y * width + part_x,
                forall|i: int|
                    0 <= i < part_y * width + part_x ==> pixels@[i] == expected.pixels[i],
            decreases width - part_x,
        {
            proof {
                lemma_index_in_grid(part_x as int, part_y as int, width as int, height as int);
                vstd::arithmetic::div_mod::lemma_fundamental_div_mod_converse(
                    part_y * width + part_x,
                    width as int,
                    part_y as int,
                    part_x as int,
                );
            }
            pixels.push(sheet.get_pixel(x + part_x, y + part_y));
            part_x += 1;
        }
        proof {
            assert((part_y + 1) * width == part_y * width + width) by (nonlinear_arith);
        }
        part_y += 1;
    }
    proof {
        assert(height * width == width * height) by (nonlinear_arith);
        assert(pixels@ =~= expected.pixels);
    }
    RgbaImage::with_pixels(width, height, &pixels)
}

/// Paints the part of `width` by `height` pixels from `(x, y)` on in one colour.
fn blank_part(sheet: &mut RgbaImage, x: u32, y: u32, width: u32, height: u32, color: Rgba<u8>)
    requires
        old(sheet)@.wf(),
        x + width <= old(sheet)@.width,
        y + height <= old(sheet)@.height,
    ensures
        final(sheet)@ == blanked(
            old(sheet)@,
            x as int,
            y as int,
            width as int,
            height as int,
            color,
        ),
        final(sheet)@.wf(),
{
    let sheet_width = sheet.width();
    let sheet_height = sheet.height();
    let ghost before = sheet@;
    let ghost target = blanked(before, x as int, y as int, width as int, height as int, color);
    let mut part_y: u32 = 0;
    while part_y < height
        invariant
            0 <= part_y <= height,
            before.wf(),
            sheet_width == before.width,
            sheet_height == before.height,
            x + width <= sheet_width,
            y + height <= sheet_height,
            sheet@.width == before.width,
            sheet@.height == before.height,
            sheet@.pixels.len() == before.pixels.len(),
            forall|i: int|
                0 <= i < before.pixels.len() ==> sheet@.pixels[i] == (if x <= i % (
                sheet_width as int) < x + width && y <= i / (sheet_width as int) < y + part_y {
                    color
                } else {
                    before.pixels[i]
                }),
        decreases height - part_y,
    {
        let mut part_x: u32 = 0;
        while part_x < width
            invariant
                0 <= part_x <= width,
                0 <= part_y < height,
                before.wf(),
                sheet_width == before.width,
                sheet_height == before.height,
                x + width <= sheet_width,
                y + height <= sheet_height,
                sheet@.width == before.width,
                sheet@.height == before.height,
                sheet@.pixels.len() == before.pixels.len(),
                forall|i: int|
                    0 <= i < before.pixels.len() ==> sheet@.pixels[i] == (if (x <= i % (
                    sheet_width as int) < x + width && y <= i / (sheet_width as int) < y + part_y)
                        || (x <= i % (sheet_width as int) < x + part_x && i / (sheet_width as int)
                        == y + part_y) {
                        color
                    } else {
                        before.pixels[i]
                    }),
            decreases width - part_x,
        {
            let to_x = x + part_x;
            let to_y = y + part_y;
            proof {
                lemma_index_in_grid(
                    to_x as int,
                    to_y as int,
                    sheet_width as int,
                    sheet_height as int,
                );
                vstd::arithmetic::div_mod::lemma_fundamental_div_mod_converse(
                    to_y * sheet_width + to_x,
                    sheet_width as int,
                    to_y as int,
                    to_x as int,
                );
            }
            let ghost earlier = sheet@.pixels;
            sheet.put_pixel(to_x, to_y, color);
            proof {
                let at = to_y * sheet_width + to_x;
                assert forall|i: int| 0 <= i < before.pixels.len() implies sheet@.pixels[i] == (if (
                x <= i % (sheet_width as int) < x + width && y <= i / (sheet_width as int) < y
                    + part_y) || (x <= i % (sheet_width as int) < x + part_x + 1 && i / (
                sheet_width as int) == y + part_y) {
                    color
                } else {
                    before.pixels[i]
                }) by {
                    vstd::arithmetic::div_mod::lemma_fundamental_div_mod(i, sheet_width as int);
                    assert((i / (sheet_width as int)) * sheet_width == sheet_width * (i / (
                    sheet_width as int))) by (nonlinear_arith);
                    if i != at {
                        assert(sheet@.pixels[i] == earlier[i]);
                    }
                }
            }
            part_x += 1;
        }
        part_y += 1;
    }
    proof {
        assert(sheet@.pixels =~= target.pixels);
    }
}

/// The margin of a packed spritesheet, as its first `rows` rows show it: of
/// the first pixels of the rows that are not of the divider colour, the
/// first that lies off both the left and the upper edge tells the margin,
/// the smaller of its column and its row.
pub open spec fn sheet_margin(sheet: ImageView, divider: Rgba<u8>, rows: nat) -> int
    decreases rows,
{
    if rows == 0 {
        0
    } else {
        let above = sheet_margin(sheet, divider, (rows - 1) as nat);
        let x = next_other(sheet, divider, rows - 1, 0, sheet.width as int);
        if above != 0 {
            above
        } else if x < sheet.width {
            if x < rows - 1 {
                x
            } else {
                rows - 1
            }
        } else {
            0
        }
    }
}

/// The sprites that are taken out of a sheet, one after the other, in at
/// most `tries` tries.
pub open spec fn sprites_of(sheet: ImageView, margin: int, divider: Rgba<u8>, tries: nat) -> Seq<
    ImageView,
>
    decreases tries,
{
    if tries == 0 {
        Seq::empty()
    } else {
        match next_sprite(sheet, margin, divider, margin) {
            None => Seq::empty(),
            Some((x, y)) => seq![sprite_at(sheet, divider, x, y)] + sprites_of(
                without_sprite(sheet, divider, x, y),
                margin,
                divider,
                (tries - 1) as nat,
            ),
        }
    }
}

/// The sprites of a packed spritesheet. The pixel in its upper left corner
/// tells the divider colour; a sheet without pixels holds no sprite, and no
/// more than 10000 sprites are taken from any.
pub open spec fn unpacked(sheet: ImageView) -> Seq<ImageView> {
    if sheet.width == 0 || sheet.height == 0 {
        Seq::empty()
    } else {
        sprites_of(
            sheet,
            sheet_margin(sheet, sheet.pixels[0], sheet.height),
            sheet.pixels[0],
            10000,
        )
    }
}

/// The frames of true-colour images.
pub open spec fn frames_of(images: Seq<ImageView>) -> Seq<FrameView> {
    Seq::new(images.len(), |i: int| FrameView { image: images[i], color_indexes: Seq::empty() })
}

fn find_margin(spritesheet: &RgbaImage, divider_color: &Rgba<u8>) -> (margin: u32)
    requires
        spritesheet@.wf(),
    ensures
        margin == sheet_margin(spritesheet@, *divider_color, spritesheet@.height),
{
    let width = spritesheet.width();
    let height = spritesheet.height();
    let mut margin: u32 = 0;
    let mut y: u32 = 0;
    while y < height
        invariant
            0 <= y <= height,
            width == spritesheet@.width,
            height == spritesheet@.height,
            spritesheet@.wf(),
            margin == sheet_margin(spritesheet@, *divider_color, y as nat),
        decreases height - y,
    {
        let mut x: u32 = 0;
        let mut found = false;
        while x < width && !found
            invariant
                0 <= x <= width,
                0 <= y < height,
                width == spritesheet@.width,
                height == spritesheet@.height,
                spritesheet@.wf(),
                !found ==> next_other(
                    spritesheet@,
                    *divider_color,
                    y as int,
                    x as int,
                    width as int,
                ) == next_other(spritesheet@, *divider_color, y as int, 0, width as int),
                !found ==> margin == sheet_margin(spritesheet@, *divider_color, y as nat),
                found ==> margin == sheet_margin(spritesheet@, *divider_color, (y + 1) as nat),
            decreases width - x + (if found {
                0int
            } else {
                1int
            }),
        {
            let pixel = spritesheet.get_pixel(x, y);
            if margin == 0 && !same_pixel(&pixel, divider_color) {
                margin = if x < y {
                    x
                } else {
                    y
                };
                found = true;
            } else {
                if !same_pixel(&pixel, divider_color) {
                    found = true;
                } else {
                    x += 1;
                }
            }
        }
        y += 1;
    }
    margin
}

/// Takes the sprites out of a packed spritesheet.
pub fn import_spritebuilder_spritesheet(spritesheet: &RgbaImage) -> (frames: Vec<Frame>)
    ensures
        frame_views(frames@) == frames_of(unpacked(spritesheet@)),
{
    let mut frames: Vec<Frame> = Vec::new();
    assert(frame_views(frames@) =~= frames_of(Seq::<ImageView>::empty()));
    if spritesheet.width() == 0 || spritesheet.height() == 0 {
        return frames;
    }
    proof {
        lemma_index_in_grid(0, 0, spritesheet@.width as int, spritesheet@.height as int);
    }
    let divider_color = spritesheet.get_pixel(0, 0);
    let margin = find_margin(spritesheet, &divider_color);
    let mut rest_of_sheet = spritesheet.clone();
    let ghost whole = unpacked(spritesheet@);
    let ghost mut done: Seq<ImageView> = Seq::empty();
    let mut tries: u32 = 0;
    proof {
        assert(done + sprites_of(rest_of_sheet@, margin as int, divider_color, 10000) =~= whole);
    }
    while tries < 10000
        invariant
            0 <= tries <= 10000,
            rest_of_sheet@.wf(),
            whole == unpacked(spritesheet@),
            frame_views(frames@) == frames_of(done),
            whole == done + sprites_of(
                rest_of_sheet@,
                margin as int,
                divider_color,
                (10000 - tries) as nat,
            ),
        decreases 10000 - tries,
    {
        match get_next_sprite(&mut rest_of_sheet, margin, &divider_color) {
            Some(next_sprite) => {
                let ghost before = frame_views(frames@);
                let frame = Frame { image: next_sprite, color_indexes: Vec::new() };
                frames.push(frame);
                proof {
                    let rest = sprites_of(
                        rest_of_sheet@,
                        margin as int,
                        divider_color,
                        (10000 - tries - 1) as nat,
                    );
                    assert(done + (seq![frame@.image] + rest) =~= done.push(frame@.image) + rest);
                    assert(frame_views(frames@) =~= before.push(frame@));
                    assert(before.push(frame@) =~= frames_of(done.push(frame@.image)));
                    done = done.push(frame@.image);
                }
            },
            None => {
                proof {
                    assert(done + Seq::<ImageView>::empty() =~= done);
                }
                return frames;
            },
        }
        tries += 1;
    }
    proof {
        assert(done + Seq::<ImageView>::empty() =~= done);
    }
    frames
}

} // verus!
