use image::Rgba;
use spritist::edit::{shift_pixels, shift_selection};
use spritist::error::{FormatError, Violation};
use spritist::export::{combine_frames, export_spritebuilder_spritesheet, hex_to_rgba, paint};
use spritist::file::Frame;
use spritist::import::{
    get_next_sprite, import_spritebuilder_spritesheet, import_spritesheet_as_frames,
    split_into_tiles,
};
use spritist::raster::RgbaImage;

const A: [u8; 4] = [10, 0, 0, 255];
const B: [u8; 4] = [0, 20, 0, 255];
const C: [u8; 4] = [0, 0, 30, 255];
const D: [u8; 4] = [40, 40, 0, 255];
const O: [u8; 4] = [0, 0, 0, 0];

fn image_of(width: u32, height: u32, pixels: &[[u8; 4]]) -> RgbaImage {
    let list: Vec<Rgba<u8>> = pixels.iter().map(|p| Rgba(*p)).collect();
    RgbaImage::from_pixels(width, height, &list).unwrap()
}

fn pixels_of(image: &RgbaImage) -> Vec<[u8; 4]> {
    let mut out = Vec::new();
    for y in 0..image.height() {
        for x in 0..image.width() {
            out.push(image.pixel(x, y).unwrap().0);
        }
    }
    out
}

fn frame(width: u32, height: u32, pixels: &[[u8; 4]]) -> Frame {
    Frame { image: image_of(width, height, pixels), color_indexes: Vec::new() }
}

#[test]
fn shift_right_and_down() {
    let source = frame(2, 2, &[A, B, C, D]);
    assert_eq!(pixels_of(&shift_pixels(&source, 1, 0).image), vec![O, A, O, C]);
    assert_eq!(pixels_of(&shift_pixels(&source, 0, 1).image), vec![O, O, A, B]);
    assert_eq!(pixels_of(&shift_pixels(&source, 1, 1).image), vec![O, O, O, A]);
    assert!(shift_pixels(&source, 1, 0).color_indexes.is_empty());
}

#[test]
fn shift_left_and_up() {
    let source = frame(2, 2, &[A, B, C, D]);
    assert_eq!(pixels_of(&shift_pixels(&source, -1, 0).image), vec![B, O, D, O]);
    assert_eq!(pixels_of(&shift_pixels(&source, 0, -1).image), vec![C, D, O, O]);
    assert_eq!(pixels_of(&shift_pixels(&source, 0, 0).image), vec![A, B, C, D]);
}

#[test]
fn shift_out_of_the_image_leaves_nothing() {
    let source = frame(2, 2, &[A, B, C, D]);
    assert_eq!(pixels_of(&shift_pixels(&source, 2, 0).image), vec![O, O, O, O]);
    assert_eq!(pixels_of(&shift_pixels(&source, i32::MIN, i32::MAX).image), vec![O, O, O, O]);
}

#[test]
fn shift_fills_the_indexes_with_zero() {
    let source = Frame { image: image_of(2, 2, &[A, B, C, D]), color_indexes: vec![1, 2, 3, 4] };
    let moved = shift_pixels(&source, 1, 0);
    assert_eq!(moved.color_indexes, vec![0, 1, 0, 3]);
    assert_eq!(pixels_of(&moved.image), vec![O, A, O, C]);
    let up = shift_pixels(&source, 0, -1);
    assert_eq!(up.color_indexes, vec![3, 4, 0, 0]);
}

#[test]
fn shift_only_the_selected_frames() {
    let frames = vec![frame(2, 1, &[A, B]), frame(2, 1, &[C, D]), frame(2, 1, &[A, D])];
    let moved = shift_selection(&frames, &vec![2, 0], 1, 0);
    assert_eq!(pixels_of(&moved[0].image), vec![O, A]);
    assert_eq!(pixels_of(&moved[1].image), vec![C, D]);
    assert_eq!(pixels_of(&moved[2].image), vec![O, A]);
}

#[test]
fn combine_by_rows() {
    let frames = vec![frame(2, 1, &[A, A]), frame(1, 2, &[B, B]), frame(1, 1, &[C])];
    let sheet = combine_frames(&frames, 2, 2, true).unwrap();
    assert_eq!((sheet.width(), sheet.height()), (4, 4));
    assert_eq!(
        pixels_of(&sheet),
        vec![
            A, A, B, O, //
            O, O, B, O, //
            C, O, O, O, //
            O, O, O, O,
        ]
    );
}

#[test]
fn combine_by_columns() {
    let frames = vec![frame(2, 1, &[A, A]), frame(1, 2, &[B, B]), frame(1, 1, &[C])];
    let sheet = combine_frames(&frames, 2, 2, false).unwrap();
    assert_eq!(
        pixels_of(&sheet),
        vec![
            A, A, C, O, //
            O, O, O, O, //
            B, O, O, O, //
            B, O, O, O,
        ]
    );
}

#[test]
fn combine_drops_frames_beyond_the_grid() {
    let frames = vec![frame(1, 1, &[A]), frame(1, 1, &[B]), frame(1, 1, &[C])];
    let sheet = combine_frames(&frames, 2, 1, true).unwrap();
    assert_eq!(pixels_of(&sheet), vec![A, B]);
    let empty = combine_frames(&Vec::new(), 0, 0, true).unwrap();
    assert_eq!((empty.width(), empty.height()), (0, 0));
}

#[test]
fn combine_rejects_a_grid_that_cannot_be_filled() {
    let frames = vec![frame(1, 1, &[A])];
    assert_eq!(
        combine_frames(&frames, 0, 3, true).err(),
        Some(FormatError::StructuralViolation(Violation::InvalidSpritesheetGrid))
    );
    assert_eq!(
        combine_frames(&frames, 3, 0, false).err(),
        Some(FormatError::StructuralViolation(Violation::InvalidSpritesheetGrid))
    );
    assert_eq!(
        combine_frames(&frames, usize::MAX, 1, true).err(),
        Some(FormatError::StructuralViolation(Violation::TooLarge))
    );
}

#[test]
fn hex_colors() {
    assert_eq!(hex_to_rgba("#00ffFF"), Ok(Rgba([0, 255, 255, 255])));
    assert_eq!(hex_to_rgba("102030"), Ok(Rgba([16, 32, 48, 255])));
    assert_eq!(hex_to_rgba("#+a+B+c"), Ok(Rgba([10, 11, 12, 255])));
    assert_eq!(
        hex_to_rgba("#fff"),
        Err(FormatError::StructuralViolation(Violation::InvalidHexColor))
    );
    assert_eq!(
        hex_to_rgba("#gg0000"),
        Err(FormatError::StructuralViolation(Violation::InvalidHexColor))
    );
    assert_eq!(
        hex_to_rgba(""),
        Err(FormatError::StructuralViolation(Violation::InvalidHexColor))
    );
}

#[test]
fn paint_draws_what_fits() {
    let mut canvas = RgbaImage::filled(3, 2, Rgba(D)).unwrap();
    paint(&mut canvas, &image_of(2, 1, &[A, B]), 1, 1);
    assert_eq!(pixels_of(&canvas), vec![D, D, D, D, A, B]);
    paint(&mut canvas, &image_of(2, 1, &[C, C]), 2, 0);
    assert_eq!(pixels_of(&canvas), vec![D, D, D, D, A, B]);
    paint(&mut canvas, &image_of(1, 1, &[C]), 0, 2);
    assert_eq!(pixels_of(&canvas), vec![D, D, D, D, A, B]);
}

#[test]
fn packed_sheet_of_two_rows() {
    let frames = vec![frame(2, 1, &[A, A]), frame(1, 2, &[B, B]), frame(3, 1, &[C, C, C])];
    // width 14: 5 + 2 + 5 fits; then 12 + 1 + 5 does not and the second frame starts a row,
    // which is counted from the margin again, so that 5 + 3 + 5 fits behind it
    let sheet = export_spritebuilder_spritesheet(&frames, 14, Rgba(D)).unwrap();
    assert_eq!((sheet.width(), sheet.height()), (13, 5 + 6 + 6));
    assert_eq!(sheet.pixel(5, 5), Some(Rgba(A)));
    assert_eq!(sheet.pixel(6, 5), Some(Rgba(A)));
    assert_eq!(sheet.pixel(7, 5), Some(Rgba(D)));
    // the second row lies one frame height and a margin further down
    assert_eq!(sheet.pixel(5, 11), Some(Rgba(B)));
    assert_eq!(sheet.pixel(5, 12), Some(Rgba(B)));
    // the third frame would end beyond the sheet and is not drawn
    assert_eq!(sheet.pixel(11, 11), Some(Rgba(D)));
    assert_eq!(sheet.pixel(12, 11), Some(Rgba(D)));
    assert_eq!(sheet.pixel(0, 0), Some(Rgba(D)));
}

#[test]
fn packed_sheet_in_one_row() {
    let frames = vec![frame(2, 1, &[A, A]), frame(1, 2, &[B, B])];
    let sheet = export_spritebuilder_spritesheet(&frames, 100, Rgba(D)).unwrap();
    assert_eq!((sheet.width(), sheet.height()), (5 + 2 + 5 + 1 + 5, 5 + 2 + 5));
    assert_eq!(sheet.pixel(5, 5), Some(Rgba(A)));
    assert_eq!(sheet.pixel(12, 5), Some(Rgba(B)));
    assert_eq!(sheet.pixel(12, 6), Some(Rgba(B)));
    assert_eq!(sheet.pixel(12, 7), Some(Rgba(D)));
    let empty = export_spritebuilder_spritesheet(&Vec::new(), 100, Rgba(D)).unwrap();
    assert_eq!((empty.width(), empty.height()), (0, 5));
}

#[test]
fn background_tiles_come_column_by_column() {
    let mut source = RgbaImage::new(130, 129).unwrap();
    source.set_pixel(0, 0, Rgba(A));
    source.set_pixel(129, 0, Rgba(B));
    source.set_pixel(0, 128, Rgba(C));
    source.set_pixel(129, 128, Rgba(D));
    let (tiles, cols, rows) = split_into_tiles(&source);
    assert_eq!((cols, rows), (2, 2));
    assert_eq!(tiles.len(), 4);
    for tile in &tiles {
        assert_eq!((tile.image.width(), tile.image.height()), (128, 128));
    }
    assert_eq!(tiles[0].image.pixel(0, 0), Some(Rgba(A)));
    assert_eq!(tiles[1].image.pixel(0, 0), Some(Rgba(C)));
    assert_eq!(tiles[2].image.pixel(1, 0), Some(Rgba(B)));
    assert_eq!(tiles[3].image.pixel(1, 0), Some(Rgba(D)));
    // beyond the image the tiles are opaque black
    assert_eq!(tiles[3].image.pixel(2, 0), Some(Rgba([0, 0, 0, 255])));
    assert_eq!(tiles[1].image.pixel(0, 1), Some(Rgba([0, 0, 0, 255])));
    // inside the image a blank pixel stays blank
    assert_eq!(tiles[0].image.pixel(5, 5), Some(Rgba(O)));
    let (none, cols, rows) = split_into_tiles(&RgbaImage::new(0, 0).unwrap());
    assert_eq!((none.len(), cols, rows), (0, 0, 0));
    let (one, cols, rows) = split_into_tiles(&RgbaImage::new(128, 1).unwrap());
    assert_eq!((one.len(), cols, rows), (1, 1, 1));
}

#[test]
fn spritesheet_cells_without_opaque_pixels_are_left_out() {
    let half = [0, 0, 30, 254];
    let sheet = image_of(
        4,
        2,
        &[
            A, O, O, O, //
            O, B, half, O,
        ],
    );
    let frames = import_spritesheet_as_frames(&sheet, 2, 1).unwrap();
    assert_eq!(frames.len(), 1);
    assert_eq!(pixels_of(&frames[0].image), vec![A, O, O, B]);
    let cells = import_spritesheet_as_frames(&sheet, 4, 2).unwrap();
    assert_eq!(cells.len(), 2);
    assert_eq!(pixels_of(&cells[0].image), vec![A]);
    assert_eq!(pixels_of(&cells[1].image), vec![B]);
    // cells that do not fill the image leave its right and lower edge out
    let thirds = import_spritesheet_as_frames(&sheet, 3, 1).unwrap();
    assert_eq!(thirds.len(), 2);
    assert_eq!((thirds[0].image.width(), thirds[0].image.height()), (1, 2));
    assert_eq!(pixels_of(&thirds[0].image), vec![A, O]);
    assert_eq!(pixels_of(&thirds[1].image), vec![O, B]);
}

#[test]
fn spritesheet_grid_without_cells() {
    let sheet = image_of(1, 1, &[A]);
    assert_eq!(
        import_spritesheet_as_frames(&sheet, 0, 1).err(),
        Some(FormatError::StructuralViolation(Violation::InvalidSpritesheetGrid))
    );
    assert_eq!(
        import_spritesheet_as_frames(&sheet, 1, 0).err(),
        Some(FormatError::StructuralViolation(Violation::InvalidSpritesheetGrid))
    );
}

#[test]
fn next_sprite_is_cut_out_and_painted_over() {
    let mut sheet = image_of(
        5,
        4,
        &[
            D, D, D, D, D, //
            D, A, B, D, C, //
            D, C, O, D, D, //
            D, D, D, D, D,
        ],
    );
    let first = get_next_sprite(&mut sheet, 1, &Rgba(D)).unwrap();
    assert_eq!((first.width(), first.height()), (2, 2));
    assert_eq!(pixels_of(&first), vec![A, B, C, O]);
    assert_eq!(sheet.pixel(1, 1), Some(Rgba(D)));
    assert_eq!(sheet.pixel(2, 2), Some(Rgba(D)));
    assert_eq!(sheet.pixel(4, 1), Some(Rgba(C)));
    // the pixel in the last column lies in the margin
    assert!(get_next_sprite(&mut sheet, 1, &Rgba(D)).is_none());
    let edge = get_next_sprite(&mut sheet, 0, &Rgba(D)).unwrap();
    assert_eq!(pixels_of(&edge), vec![C]);
    assert!(get_next_sprite(&mut sheet, 0, &Rgba(D)).is_none());
    assert!(get_next_sprite(&mut sheet, 9, &Rgba(D)).is_none());
}

#[test]
fn packed_sheet_is_unpacked_again() {
    let frames = vec![frame(2, 1, &[A, A]), frame(1, 2, &[B, B])];
    let sheet = export_spritebuilder_spritesheet(&frames, 100, Rgba(D)).unwrap();
    let back = import_spritebuilder_spritesheet(&sheet);
    assert_eq!(back.len(), 2);
    assert_eq!(pixels_of(&back[0].image), vec![A, A]);
    assert_eq!(pixels_of(&back[1].image), vec![B, B]);
    assert!(import_spritebuilder_spritesheet(&RgbaImage::new(0, 3).unwrap()).is_empty());
    assert!(import_spritebuilder_spritesheet(&RgbaImage::filled(4, 4, Rgba(D)).unwrap()).is_empty());
}
