use image::Rgba;
use spritist::error::{FormatError, Violation};
use spritist::palette::{format_colors, original_palette, read_color_data, reversed_palette, Palette};
use spritist::raster::RgbaImage;

#[test]
fn index_zero_is_transparent_in_every_palette() {
    assert_eq!(original_palette().get_color(0), Rgba([0, 0, 0, 0]));
    assert_eq!(reversed_palette().get_color(0), Rgba([0, 0, 0, 0]));
    let custom = Palette { file_name: None, colors: [(200, 100, 50); 256] };
    assert_eq!(custom.get_color(0), Rgba([0, 0, 0, 0]));
    assert_eq!(custom.get_color(1), Rgba([200, 100, 50, 255]));
}

#[test]
fn original_palette_entries() {
    let palette = original_palette();
    assert!(palette.file_name.is_none());
    assert_eq!(palette.colors[0], (0, 0, 0));
    assert_eq!(palette.colors[1], (252, 252, 252));
    assert_eq!(palette.colors[11], (16, 8, 8));
    assert_eq!(palette.colors[249], (255, 0, 0));
    assert_eq!(palette.colors[255], (255, 255, 255));
    assert_eq!(palette.get_color(11), Rgba([16, 8, 8, 255]));
}

#[test]
fn reversed_palette_keeps_the_system_colors() {
    let palette = reversed_palette();
    let original = original_palette();
    assert_eq!(palette.file_name.as_deref(), Some("reversed palette"));
    assert_eq!(palette.colors[0], original.colors[255]);
    assert_eq!(palette.colors[10], original.colors[245]);
    assert_eq!(palette.colors[244], original.colors[11]);
    assert_eq!(palette.colors[245], (252, 252, 252));
    assert_eq!(palette.colors[246], (255, 255, 255));
    assert_eq!(palette.colors[247], (192, 192, 192));
    assert_eq!(palette.colors[248], (128, 128, 128));
    assert_eq!(palette.colors[249], (255, 0, 0));
    assert_eq!(palette.colors[250], (0, 255, 0));
    assert_eq!(palette.colors[251], (255, 255, 0));
    assert_eq!(palette.colors[252], (0, 0, 255));
    assert_eq!(palette.colors[253], (255, 0, 255));
    assert_eq!(palette.colors[254], (0, 255, 255));
    assert_eq!(palette.colors[255], (255, 255, 255));
}

#[test]
fn format_colors_overrides_the_last_ten() {
    let formatted = format_colors([(1, 2, 3); 256]);
    assert_eq!(formatted[245], (1, 2, 3));
    assert_eq!(formatted[246], (255, 255, 255));
    assert_eq!(formatted[252], (0, 0, 255));
    assert_eq!(formatted[255], (255, 255, 255));
}

#[test]
fn palette_of_all_63_samples() {
    let colors = read_color_data(&[0x3f; 768]).unwrap();
    assert_eq!(colors[0], (252, 252, 252));
    assert_eq!(colors[245], (252, 252, 252));
    assert_eq!(colors[246], (255, 255, 255));
    assert_eq!(colors[255], (255, 255, 255));
}

#[test]
fn palette_samples_are_multiplied_by_four() {
    let mut contents = vec![0u8; 768];
    contents[3] = 1;
    contents[4] = 32;
    contents[5] = 63;
    contents[6] = 64;
    let colors = read_color_data(&contents).unwrap();
    assert_eq!(colors[1], (4, 128, 252));
    assert_eq!(colors[2], (0, 0, 0));
}

#[test]
fn palette_source_too_short() {
    assert_eq!(
        read_color_data(&[0x3f; 767]).err(),
        Some(FormatError::StructuralViolation(Violation::InvalidPaletteSize))
    );
    assert_eq!(
        read_color_data(&[]).err(),
        Some(FormatError::StructuralViolation(Violation::InvalidPaletteSize))
    );
}

#[test]
fn exact_lookup() {
    let palette = original_palette();
    assert_eq!(palette.find_color_index(Rgba([1, 2, 3, 0])), Some(0));
    assert_eq!(palette.find_color_index(Rgba([16, 8, 8, 255])), Some(11));
    assert_eq!(palette.find_color_index(Rgba([252, 252, 252, 255])), Some(1));
    assert_eq!(palette.find_color_index(Rgba([0, 0, 0, 255])), Some(0));
    assert_eq!(palette.find_color_index(Rgba([1, 2, 3, 255])), None);
}

#[test]
fn nearest_lookup() {
    let palette = original_palette();
    assert_eq!(palette.find_closest_color_index(&Rgba([1, 2, 3, 0])), 0);
    assert_eq!(palette.find_closest_color_index(&Rgba([16, 8, 8, 255])), 11);
    assert_eq!(palette.find_closest_color_index(&Rgba([17, 8, 8, 255])), 11);
    assert_eq!(palette.find_closest_color_index(&Rgba([251, 252, 253, 255])), 1);
    assert_eq!(palette.find_closest_color_index(&Rgba([254, 1, 1, 200])), 249);
}

#[test]
fn nearest_lookup_prefers_the_lowest_index_on_a_tie() {
    let mut colors = [(0u8, 0u8, 0u8); 256];
    colors[5] = (10, 0, 0);
    colors[7] = (20, 0, 0);
    let palette = Palette { file_name: None, colors };
    // 15 is as far from 10 as from 20
    assert_eq!(palette.find_closest_color_index(&Rgba([15, 0, 0, 255])), 5);
    // all entries equally far: index 0
    let flat = Palette { file_name: None, colors: [(255, 255, 255); 256] };
    assert_eq!(flat.find_closest_color_index(&Rgba([0, 0, 0, 255])), 0);
}

#[test]
fn closest_indexes_in_row_major_order() {
    let palette = original_palette();
    let pixels = vec![
        Rgba([16, 8, 8, 255]),
        Rgba([0, 0, 0, 0]),
        Rgba([255, 0, 0, 255]),
        Rgba([252, 252, 252, 255]),
    ];
    let image = RgbaImage::from_pixels(2, 2, &pixels).unwrap();
    assert_eq!(palette.get_closest_color_indexes(&image), vec![11, 0, 249, 1]);
}

#[test]
fn render_follows_the_palette() {
    let palette = original_palette();
    let image = palette.render(2, 1, &vec![0, 249]).unwrap();
    assert_eq!(image.pixel(0, 0), Some(Rgba([0, 0, 0, 0])));
    assert_eq!(image.pixel(1, 0), Some(Rgba([255, 0, 0, 255])));
    assert!(palette.render(2, 2, &vec![0, 249]).is_none());
}
