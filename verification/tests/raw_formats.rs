use image::Rgba;
use spritist::error::{FormatError, Violation};
use spritist::file::{Frame, SpriteInfo};
use spritist::format::{c16, m16, s16, PixelFormat};
use spritist::raster::RgbaImage;

fn image_of(width: u32, height: u32, pixels: &[[u8; 4]]) -> RgbaImage {
    let list: Vec<Rgba<u8>> = pixels.iter().map(|p| Rgba(*p)).collect();
    RgbaImage::from_pixels(width, height, &list).unwrap()
}

fn pixels_of(image: &RgbaImage) -> Vec<[u8; 4]> {
    let mut out = Vec::new();
    for y in 0..image.height() {
        for x in 0..image.width() {
            out.push(image.pixel(x, y).unwrap().0);
        }
    }
    out
}

fn sprite(frames: Vec<RgbaImage>, pixel_format: PixelFormat) -> SpriteInfo {
    SpriteInfo {
        frames: frames.into_iter().map(|image| Frame { image, color_indexes: Vec::new() }).collect(),
        pixel_format,
        cols: 0,
        rows: 0,
        read_only: false,
    }
}

#[test]
fn s16_encodes_header_table_and_words() {
    let image = image_of(2, 1, &[[255, 255, 255, 255], [255, 0, 0, 0]]);
    let bytes = s16::encode(sprite(vec![image], PixelFormat::Format565)).unwrap();
    assert_eq!(
        bytes.to_vec(),
        vec![1, 0, 0, 0, 1, 0, 14, 0, 0, 0, 2, 0, 1, 0, 0xff, 0xff, 0, 0]
    );
}

#[test]
fn s16_decodes_what_it_encoded() {
    let first = image_of(2, 2, &[[248, 252, 248, 255], [0, 0, 0, 0], [8, 4, 8, 255], [16, 8, 24, 255]]);
    let second = image_of(1, 1, &[[248, 0, 0, 255]]);
    let bytes = s16::encode(sprite(vec![first, second], PixelFormat::Format565)).unwrap();
    let back = s16::decode(&bytes).unwrap();
    assert_eq!(back.pixel_format, PixelFormat::Format565);
    assert!(!back.read_only);
    assert_eq!(back.cols, 0);
    assert_eq!(back.frames.len(), 2);
    // every channel is a byte-wide window on the word: white reads back as (255, 255, 248)
    assert_eq!(
        pixels_of(&back.frames[0].image),
        vec![[255, 255, 248, 255], [0, 0, 0, 0], [8, 4, 8, 255], [16, 8, 24, 255]]
    );
    assert_eq!(pixels_of(&back.frames[1].image), vec![[248, 0, 0, 255]]);
    assert!(back.frames[0].color_indexes.is_empty());
}

#[test]
fn s16_rejects_a_short_file_header() {
    assert_eq!(s16::decode(&[1, 0, 0, 0, 1]).err(), Some(FormatError::FileHeaderTruncated));
}

#[test]
fn s16_rejects_a_file_that_ends_inside_its_image_headers() {
    // one image declared, nothing behind the file header
    assert_eq!(s16::decode(&[0, 0, 0, 0, 1, 0]).err(), Some(FormatError::ImageHeaderTruncated));
    // two images declared, room for one header only
    let bytes = [0u8, 0, 0, 0, 2, 0, 14, 0, 0, 0, 0, 0, 0, 0, 9, 9, 9];
    assert_eq!(s16::decode(&bytes).err(), Some(FormatError::ImageHeaderTruncated));
    // a header that lacks its last byte
    let bytes = [0u8, 0, 0, 0, 1, 0, 14, 0, 0, 0, 0, 0, 0];
    assert_eq!(s16::decode(&bytes).err(), Some(FormatError::ImageHeaderTruncated));
    // no image declared: the file header is all there is to read
    let back = s16::decode(&[0, 0, 0, 0, 0, 0, 7]).unwrap();
    assert_eq!(back.pixel_format, PixelFormat::Format555);
    assert_eq!(back.frames.len(), 0);
}

#[test]
fn m16_rejects_a_file_that_ends_inside_its_image_headers() {
    assert_eq!(m16::decode(&[0, 0, 0, 0, 0, 1]).err(), Some(FormatError::ImageHeaderTruncated));
    let bytes = [0u8, 0, 0, 1, 0, 2, 0, 0, 0, 22, 0, 0, 0, 0, 9, 9, 9];
    assert_eq!(m16::decode(&bytes).err(), Some(FormatError::ImageHeaderTruncated));
    assert_eq!(m16::decode(&[0, 0, 0, 0, 0]).err(), Some(FormatError::FileHeaderTruncated));
}

#[test]
fn s16_rejects_pixels_outside_the_file() {
    let bytes = [1u8, 0, 0, 0, 1, 0, 14, 0, 0, 0, 2, 0, 1, 0, 0xff, 0xff, 0];
    assert_eq!(s16::decode(&bytes).err(), Some(FormatError::ImageDataTruncated));
    let beyond = [1u8, 0, 0, 0, 1, 0, 200, 0, 0, 0, 0, 0, 0, 0];
    assert_eq!(s16::decode(&beyond).err(), Some(FormatError::ImageDataTruncated));
}

#[test]
fn s16_rejects_too_many_frames() {
    let mut frames = Vec::new();
    for _ in 0..65536 {
        frames.push(RgbaImage::new(0, 0).unwrap());
    }
    assert_eq!(
        s16::encode(sprite(frames, PixelFormat::Format565)).err(),
        Some(FormatError::StructuralViolation(Violation::TooLarge))
    );
}

#[test]
fn c16_encodes_runs_and_offsets() {
    // one row: two transparent, one white, one black (opaque)
    let image = image_of(4, 1, &[[0, 0, 0, 0], [9, 9, 9, 0], [255, 255, 255, 255], [0, 0, 0, 255]]);
    let bytes = c16::encode(sprite(vec![image], PixelFormat::Format565)).unwrap();
    assert_eq!(
        bytes.to_vec(),
        vec![
            3, 0, 0, 0, 1, 0, // flags, count
            14, 0, 0, 0, 4, 0, 1, 0, // first line offset, width, height
            4, 0, // transparent run of 2
            5, 0, 0xff, 0xff, 0x21, 0x08, // colour run of 2: white, dark grey for black
            0, 0, // end of line
            0, 0, // end of image
        ]
    );
}

#[test]
fn c16_writes_one_offset_per_scanline() {
    let image = image_of(1, 3, &[[0, 0, 0, 0], [255, 255, 255, 255], [0, 0, 0, 0]]);
    let bytes = c16::encode(sprite(vec![image], PixelFormat::Format555)).unwrap();
    assert_eq!(
        bytes.to_vec(),
        vec![
            2, 0, 0, 0, 1, 0, // flags, count
            22, 0, 0, 0, 1, 0, 3, 0, 26, 0, 0, 0, 32, 0, 0, 0, // header with three offsets
            2, 0, 0, 0, // line 0
            3, 0, 0xff, 0x7f, 0, 0, // line 1
            2, 0, 0, 0, // line 2
            0, 0,
        ]
    );
}

#[test]
fn c16_round_trip_of_mixed_rows() {
    let clear = [0u8, 0, 0, 0];
    let red = [255u8, 0, 0, 255];
    let green = [0u8, 255, 0, 255];
    let blue = [0u8, 0, 255, 255];
    let black = [0u8, 0, 0, 255];
    let pixels = [
        clear, red, green, clear, clear, blue, clear, clear, clear, black, clear, clear, clear,
        clear, clear,
    ];
    for pixel_format in [PixelFormat::Format555, PixelFormat::Format565] {
        let wide = pixel_format == PixelFormat::Format565;
        let shown = |p: &[u8; 4]| -> [u8; 4] {
            if *p == clear {
                clear
            } else if *p == red {
                [248, 0, 0, 255]
            } else if *p == green {
                if wide { [7, 252, 0, 255] } else { [7, 248, 0, 255] }
            } else if *p == blue {
                if wide { [0, 3, 248, 255] } else { [0, 7, 248, 255] }
            } else {
                if wide { [8, 4, 8, 255] } else { [8, 8, 8, 255] }
            }
        };
        for height in [1u32, 2, 3] {
            let used = &pixels[..(5 * height) as usize];
            let bytes = c16::encode(sprite(vec![image_of(5, height, used)], pixel_format)).unwrap();
            let back = c16::decode(&bytes).unwrap();
            assert_eq!(back.pixel_format, pixel_format);
            assert_eq!(back.frames.len(), 1);
            assert_eq!(back.frames[0].image.width(), 5);
            assert_eq!(back.frames[0].image.height(), height);
            let expected: Vec<[u8; 4]> = used.iter().map(shown).collect();
            assert_eq!(pixels_of(&back.frames[0].image), expected);
        }
    }
}

#[test]
fn c16_round_trip_of_several_frames() {
    let first = image_of(2, 2, &[[255, 0, 0, 255], [0, 0, 0, 0], [0, 0, 0, 0], [255, 0, 0, 255]]);
    let empty = RgbaImage::new(0, 0).unwrap();
    let flat = RgbaImage::new(3, 0).unwrap();
    let last = image_of(1, 1, &[[255, 0, 0, 255]]);
    let bytes =
        c16::encode(sprite(vec![first, empty, flat, last], PixelFormat::Format565)).unwrap();
    let back = c16::decode(&bytes).unwrap();
    assert_eq!(back.frames.len(), 4);
    assert_eq!(
        pixels_of(&back.frames[0].image),
        vec![[248, 0, 0, 255], [0, 0, 0, 0], [0, 0, 0, 0], [248, 0, 0, 255]]
    );
    assert_eq!((back.frames[1].image.width(), back.frames[1].image.height()), (0, 0));
    assert_eq!((back.frames[2].image.width(), back.frames[2].image.height()), (3, 0));
    assert_eq!(pixels_of(&back.frames[3].image), vec![[248, 0, 0, 255]]);
}

#[test]
fn c16_zero_header_ends_a_scanline_early() {
    // width 3, the line holds one white pixel and then the terminator
    let bytes = [
        3u8, 0, 0, 0, 1, 0, 14, 0, 0, 0, 3, 0, 1, 0, 3, 0, 0xff, 0xff, 0, 0, 0, 0,
    ];
    let back = c16::decode(&bytes).unwrap();
    assert_eq!(
        pixels_of(&back.frames[0].image),
        vec![[0xff, 0xff, 0xf8, 255], [0, 0, 0, 0], [0, 0, 0, 0]]
    );
}

#[test]
fn c16_rejects_a_run_the_file_does_not_hold() {
    let bytes = [3u8, 0, 0, 0, 1, 0, 14, 0, 0, 0, 3, 0, 1, 0, 7, 0, 0xff, 0xff];
    assert_eq!(c16::decode(&bytes).err(), Some(FormatError::ImageDataTruncated));
}

#[test]
fn c16_rejects_a_run_longer_than_the_line() {
    let bytes = [3u8, 0, 0, 0, 1, 0, 14, 0, 0, 0, 3, 0, 1, 0, 8, 0, 0, 0];
    assert_eq!(
        c16::decode(&bytes).err(),
        Some(FormatError::StructuralViolation(Violation::RunPastScanline))
    );
}

#[test]
fn c16_rejects_a_short_file_header() {
    assert_eq!(c16::decode(&[3, 0, 0]).err(), Some(FormatError::FileHeaderTruncated));
}

#[test]
fn c16_rejects_a_file_that_ends_inside_its_image_headers() {
    // one image declared, nothing behind the file header
    assert_eq!(c16::decode(&[3, 0, 0, 0, 1, 0]).err(), Some(FormatError::ImageHeaderTruncated));
    // the fixed part of a header lacks its last byte
    let bytes = [3u8, 0, 0, 0, 1, 0, 14, 0, 0, 0, 1, 0, 1];
    assert_eq!(c16::decode(&bytes).err(), Some(FormatError::ImageHeaderTruncated));
    // three scanlines declared, one further offset held of two
    let bytes = [3u8, 0, 0, 0, 1, 0, 22, 0, 0, 0, 1, 0, 3, 0, 26, 0, 0, 0, 30, 0];
    assert_eq!(c16::decode(&bytes).err(), Some(FormatError::ImageHeaderTruncated));
    // two images declared, the second header is missing
    let bytes = [3u8, 0, 0, 0, 2, 0, 14, 0, 0, 0, 0, 0, 0, 0, 0, 0];
    assert_eq!(c16::decode(&bytes).err(), Some(FormatError::ImageHeaderTruncated));
    // no image declared
    let back = c16::decode(&[2, 0, 0, 0, 0, 0]).unwrap();
    assert_eq!(back.frames.len(), 0);
    assert_eq!(back.pixel_format, PixelFormat::Format555);
}

#[test]
fn c16_long_runs_are_split() {
    let width = 40000u32;
    let mut pixels = Vec::new();
    for _ in 0..width {
        pixels.push(Rgba([255u8, 255, 255, 255]));
    }
    let image = RgbaImage::from_pixels(width, 1, &pixels).unwrap();
    let bytes = c16::encode(sprite(vec![image], PixelFormat::Format565)).unwrap();
    assert_eq!(bytes.len(), 6 + 8 + (2 + 2 * 32767) + (2 + 2 * (40000 - 32767)) + 2 + 2);
    let back = c16::decode(&bytes).unwrap();
    assert_eq!(back.frames[0].image.width(), width);
    assert_eq!(back.frames[0].image.pixel(39999, 0), Some(Rgba([0xff, 0xff, 0xf8, 255])));
}
