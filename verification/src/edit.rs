//! Moving the pixels of a frame.

use crate::file::{frame_views, Frame, FrameView};
use crate::selection::{is_selected, selection_contains};
use crate::raster::{clear_pixel, lemma_index_in_grid, ImageView, RgbaImage};
use image::Rgba;
use vstd::prelude::*;

verus! {

/// Where the pixel at position `i` of a shifted image comes from: the
/// position `x_shift` columns to the left and `y_shift` rows up, or `None`
/// where that lies outside the image.
pub open spec fn shift_source(i: int, width: int, height: int, x_shift: int, y_shift: int) -> Option<
    int,
> {
    let x = i % width - x_shift;
    let y = i / width - y_shift;
    if 0 <= x < width && 0 <= y < height {
        Some(y * width + x)
    } else {
        None
    }
}

/// The pixels of an image shifted by `(x_shift, y_shift)`: what is shifted
/// out of the image is lost, what is left vacant is transparent.
pub open spec fn shifted_pixels(image: ImageView, x_shift: int, y_shift: int) -> Seq<Rgba<u8>> {
    Seq::new(
        image.width * image.height,
        |i: int|
            match shift_source(i, image.width as int, image.height as int, x_shift, y_shift) {
                Some(source) => image.pixels[source],
                None => clear_pixel(),
            },
    )
}

/// The palette indexes of a frame shifted by `(x_shift, y_shift)`. A frame
/// without indexes stays without; in any other, what is left vacant gets
/// index 0.
pub open spec fn shifted_indexes(frame: FrameView, x_shift: int, y_shift: int) -> Seq<u8> {
    if frame.color_indexes.len() == 0 {
        Seq::empty()
    } else {
        Seq::new(
            frame.image.width * frame.image.height,
            |i: int|
                match shift_source(
                    i,
                    frame.image.width as int,
                    frame.image.height as int,
                    x_shift,
                    y_shift,
                ) {
                    Some(source) => if source < frame.color_indexes.len() {
                        frame.color_indexes[source]
                    } else {
                        0u8
                    },
                    None => 0u8,
                },
        )
    }
}

/// A frame shifted by `(x_shift, y_shift)`.
pub open spec fn shifted(frame: FrameView, x_shift: int, y_shift: int) -> FrameView {
    FrameView {
        image: ImageView {
            width: frame.image.width,
            height: frame.image.height,
            pixels: shifted_pixels(frame.image, x_shift, y_shift),
        },
        color_indexes: shifted_indexes(frame, x_shift, y_shift),
    }
}

/// Shifts the pixels of a frame `x_shift` columns to the right and `y_shift`
/// rows down; negative shifts go left and up. Nothing wraps around.
pub fn shift_pixels(frame: &Frame, x_shift: i32, y_shift: i32) -> (moved: Frame)
    ensures
        moved@ == shifted(frame@, x_shift as int, y_shift as int),
        moved@.image.wf(),
{
    let img = &frame.image;
    let color_indexes = &frame.color_indexes;
    let width = img.width();
    let height = img.height();
    let indexed = color_indexes.len() > 0;
    let count = color_indexes.len();
    let mut new_pixels: Vec<Rgba<u8>> = Vec::new();
    let mut new_indexes: Vec<u8> = Vec::new();
    let ghost pixels = shifted_pixels(frame@.image, x_shift as int, y_shift as int);
    let ghost indexes = shifted_indexes(frame@, x_shift as int, y_shift as int);
    let mut y: u32 = 0;
    while y < height
        invariant
            0 <= y <= height,
            width == frame@.image.width,
            height == frame@.image.height,
            frame@.image.wf(),
            img == &frame.image,
            color_indexes == &frame.color_indexes,
            count == frame@.color_indexes.len(),
            indexed == (count > 0),
            pixels == shifted_pixels(frame@.image, x_shift as int, y_shift as int),
            indexes == shifted_indexes(frame@, x_shift as int, y_shift as int),
            new_pixels@.len() == y * width,
            new_indexes@.len() == if indexed {
                y * width
            } else {
                0
            },
            forall|i: int| 0 <= i < y * width ==> new_pixels@[i] == pixels[i],
            forall|i: int| 0 <= i < new_indexes@.len() ==> new_indexes@[i] == indexes[i],
        decreases height - y,
    {
        let mut x: u32 = 0;
        while x < width
            invariant
                0 <= x <= width,
                0 <= y < height,
                width == frame@.image.width,
                height == frame@.image.height,
                frame@.image.wf(),
                img == &frame.image,
                color_indexes == &frame.color_indexes,
                count == frame@.color_indexes.len(),
                indexed == (count > 0),
                pixels == shifted_pixels(frame@.image, x_shift as int, y_shift as int),
                indexes == shifted_indexes(frame@, x_shift as int, y_shift as int),
                new_pixels@.len() == y * width + x,
                new_indexes@.len() == if indexed {
                    y * width + x
                } else {
                    0
                },
                forall|i: int| 0 <= i < y * width + x ==> new_pixels@[i] == pixels[i],
                forall|i: int| 0 <= i < new_indexes@.len() ==> new_indexes@[i] == indexes[i],
            decreases width - x,
        {
            let source_x: i64 = x as i64 - x_shift as i64;
            let source_y: i64 = y as i64 - y_shift as i64;
            proof {
                lemma_index_in_grid(x as int, y as int, width as int, height as int);
                vstd::arithmetic::div_mod::lemma_fundamental_div_mod_converse(
                    y * width + x,
                    width as int,
                    y as int,
                    x as int,
                );
            }
            if source_x >= 0 && source_x < width as i64 && source_y >= 0 && source_y < height as i64 {
                proof {
                    lemma_index_in_grid(
                        source_x as int,
                        source_y as int,
                        width as int,
                        height as int,
                    );
                }
                let pixel = img.get_pixel(source_x as u32, source_y as u32);
                new_pixels.push(pixel);
                if indexed {
                    proof {
                        crate::raster::lemma_product_bounded(
                            source_y as int,
                            width as int,
                            u32::MAX as int,
                            u32::MAX as int,
                        );
                    }
                    let pixel_index = source_x as u64 + (source_y as u64 * width as u64);
                    if pixel_index < count as u64 {
                        new_indexes.push(color_indexes[pixel_index as usize]);
                    } else {
                        new_indexes.push(0);
                    }
                }
            } else {
                new_pixels.push(Rgba([0, 0, 0, 0]));
                if indexed {
                    new_indexes.push(0);
                }
            }
            x += 1;
        }
        proof {
            assert((y + 1) * width == y * width + width) by (nonlinear_arith);
        }
        y += 1;
    }
    proof {
        assert(height * width == width * height) by (nonlinear_arith);
        assert(new_pixels@ =~= pixels);
        assert(new_indexes@ =~= indexes);
    }
    Frame { image: RgbaImage::with_pixels(width, height, &new_pixels), color_indexes: new_indexes }
}

/// The frames of a sprite with the selected ones shifted.
pub open spec fn shifted_selection(
    frames: Seq<FrameView>,
    selected: Seq<usize>,
    x_shift: int,
    y_shift: int,
) -> Seq<FrameView> {
    Seq::new(
        frames.len(),
        |i: int|
            if is_selected(selected, i) {
                shifted(frames[i], x_shift, y_shift)
            } else {
                frames[i]
            },
    )
}

/// Shifts the pixels of the selected frames and leaves the others as they are.
pub fn shift_selection(frames: &Vec<Frame>, selected: &Vec<usize>, x_shift: i32, y_shift: i32) -> (moved:
    Vec<Frame>)
    ensures
        frame_views(moved@) == shifted_selection(
            frame_views(frames@),
            selected@,
            x_shift as int,
            y_shift as int,
        ),
{
    let ghost views = frame_views(frames@);
    let mut moved: Vec<Frame> = Vec::new();
    let mut i: usize = 0;
    while i < frames.len()
        invariant
            0 <= i <= frames@.len(),
            views == frame_views(frames@),
            moved@.len() == i,
            forall|j: int|
                0 <= j < i ==> (#[trigger] moved@[j])@ == shifted_selection(
                    views,
                    selected@,
                    x_shift as int,
                    y_shift as int,
                )[j],
        decreases frames@.len() - i,
    {
        proof {
            assert(frames@[i as int]@ == views[i as int]);
        }
        let frame = if selection_contains(selected, i) {
            shift_pixels(&frames[i], x_shift, y_shift)
        } else {
            frames[i].clone()
        };
        moved.push(frame);
        i += 1;
    }
    proof {
        assert(frame_views(moved@) =~= shifted_selection(
            views,
            selected@,
            x_shift as int,
            y_shift as int,
        ));
    }
    moved
}

} // verus!
