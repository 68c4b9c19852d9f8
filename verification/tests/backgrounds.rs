use image::Rgba;
use spritist::error::{FormatError, OpenError, Violation};
use spritist::file::{
    get_sprite_info, kind_of_extension, kind_of_name, save_file_to_path, FileKind, Frame,
    SpriteInfo,
};
use spritist::format::{blk, m16, PixelFormat};
use spritist::palette::original_palette;
use spritist::raster::RgbaImage;

fn tile(fill: [u8; 4]) -> Frame {
    let mut image = RgbaImage::new(128, 128).unwrap();
    for y in 0..128 {
        for x in 0..128 {
            assert!(image.set_pixel(x, y, Rgba(fill)));
        }
    }
    Frame { image, color_indexes: Vec::new() }
}

fn background(frames: Vec<Frame>, cols: u16, rows: u16) -> SpriteInfo {
    SpriteInfo { frames, pixel_format: PixelFormat::Format565, cols, rows, read_only: false }
}

#[test]
fn blk_rejects_a_wrong_frame_count() {
    assert_eq!(
        blk::encode(background(vec![tile([255, 255, 255, 255])], 2, 1)).err(),
        Some(FormatError::StructuralViolation(Violation::FrameCountMismatch))
    );
    assert_eq!(
        blk::encode(background(vec![], 1, 1)).err(),
        Some(FormatError::StructuralViolation(Violation::FrameCountMismatch))
    );
    assert_eq!(
        blk::encode(background(vec![tile([0, 0, 0, 0])], 0, 0)).err(),
        Some(FormatError::StructuralViolation(Violation::FrameCountMismatch))
    );
}

#[test]
fn blk_rejects_a_frame_that_is_no_tile() {
    let small = Frame { image: RgbaImage::new(127, 128).unwrap(), color_indexes: Vec::new() };
    assert_eq!(
        blk::encode(background(vec![tile([1, 1, 1, 255]), small], 2, 1)).err(),
        Some(FormatError::StructuralViolation(Violation::WrongTileSize))
    );
    let tall = Frame { image: RgbaImage::new(128, 129).unwrap(), color_indexes: Vec::new() };
    assert_eq!(
        blk::encode(background(vec![tall], 1, 1)).err(),
        Some(FormatError::StructuralViolation(Violation::WrongTileSize))
    );
}

#[test]
fn blk_round_trip() {
    let bytes = blk::encode(background(
        vec![tile([255, 0, 0, 255]), tile([0, 0, 0, 255])],
        1,
        2,
    ))
    .unwrap();
    assert_eq!(bytes.len(), 10 + 16 + 2 * 32768);
    assert_eq!(&bytes[..10], &[1, 0, 0, 0, 1, 0, 2, 0, 2, 0]);
    // the offsets are stored four bytes short
    assert_eq!(&bytes[10..18], &[22, 0, 0, 0, 128, 0, 128, 0]);
    assert_eq!(&bytes[18..26], &[22, 128, 0, 0, 128, 0, 128, 0]);
    assert_eq!(&bytes[26..28], &[0x00, 0xf8]);
    let back = blk::decode(&bytes).unwrap();
    assert_eq!((back.cols, back.rows), (1, 2));
    assert_eq!(back.pixel_format, PixelFormat::Format565);
    assert_eq!(back.frames.len(), 2);
    assert_eq!(back.frames[0].image.pixel(5, 7), Some(Rgba([248, 0, 0, 255])));
    assert_eq!(back.frames[1].image.pixel(127, 127), Some(Rgba([0, 0, 0, 0])));
}

#[test]
fn blk_decode_rejects_a_header_of_another_size() {
    let mut bytes = vec![0u8, 0, 0, 0, 1, 0, 1, 0, 2, 0];
    bytes.extend_from_slice(&[22, 0, 0, 0, 64, 0, 128, 0]);
    bytes.extend_from_slice(&[22, 0, 0, 0, 128, 0, 128, 0]);
    bytes.extend_from_slice(&vec![0xffu8; 32768]);
    assert_eq!(
        blk::decode(&bytes).err(),
        Some(FormatError::StructuralViolation(Violation::WrongTileSize))
    );
    // the second header is the wrong one
    bytes[14] = 128;
    bytes[24] = 127;
    assert_eq!(
        blk::decode(&bytes).err(),
        Some(FormatError::StructuralViolation(Violation::WrongTileSize))
    );
    assert_eq!(
        FormatError::StructuralViolation(Violation::WrongTileSize).message(),
        "All frames in a BLK file must be 128 x 128 px."
    );
}

#[test]
fn blk_decode_rejects_a_file_that_ends_inside_its_tile_headers() {
    // one tile declared, nothing behind the file header
    assert_eq!(
        blk::decode(&[0, 0, 0, 0, 1, 0, 1, 0, 1, 0]).err(),
        Some(FormatError::ImageHeaderTruncated)
    );
    // two tiles declared, the second header lacks its last byte
    let mut bytes = vec![0u8, 0, 0, 0, 1, 0, 1, 0, 2, 0];
    bytes.extend_from_slice(&[22, 0, 0, 0, 128, 0, 128, 0]);
    bytes.extend_from_slice(&[22, 0, 0, 0, 128, 0, 128]);
    assert_eq!(blk::decode(&bytes).err(), Some(FormatError::ImageHeaderTruncated));
    // a header of another size in front of the cut one is found first
    bytes[14] = 64;
    assert_eq!(
        blk::decode(&bytes).err(),
        Some(FormatError::StructuralViolation(Violation::WrongTileSize))
    );
}

#[test]
fn blk_decode_reads_the_tiles_the_headers_point_to() {
    // both headers point to the same pixels
    let mut bytes = vec![0u8, 0, 0, 0, 2, 0, 1, 0, 2, 0];
    bytes.extend_from_slice(&[22, 0, 0, 0, 128, 0, 128, 0]);
    bytes.extend_from_slice(&[22, 0, 0, 0, 128, 0, 128, 0]);
    bytes.extend_from_slice(&vec![0xffu8; 32768]);
    let back = blk::decode(&bytes).unwrap();
    assert_eq!(back.pixel_format, PixelFormat::Format555);
    assert_eq!((back.cols, back.rows), (2, 1));
    assert_eq!(back.frames.len(), 2);
    assert_eq!(back.frames[0].image.pixel(0, 0), Some(Rgba([0xff, 0xff, 0xf8, 255])));
    assert_eq!(back.frames[1].image.pixel(127, 127), Some(Rgba([0xff, 0xff, 0xf8, 255])));
    bytes.pop();
    assert_eq!(blk::decode(&bytes).err(), Some(FormatError::ImageDataTruncated));
    assert_eq!(blk::decode(&bytes[..9]).err(), Some(FormatError::FileHeaderTruncated));
    let none = blk::decode(&[1, 0, 0, 0, 0, 0, 0, 0, 0, 0]).unwrap();
    assert_eq!(none.frames.len(), 0);
    assert_eq!(none.pixel_format, PixelFormat::Format565);
}

#[test]
fn m16_is_big_endian() {
    let mut image = RgbaImage::new(2, 1).unwrap();
    image.set_pixel(0, 0, Rgba([255, 255, 255, 255]));
    image.set_pixel(1, 0, Rgba([8, 0, 0, 0]));
    let sprite = SpriteInfo {
        frames: vec![Frame { image, color_indexes: Vec::new() }],
        pixel_format: PixelFormat::Format555,
        cols: 0,
        rows: 0,
        read_only: false,
    };
    let bytes = m16::encode(sprite).unwrap();
    assert_eq!(
        bytes.to_vec(),
        vec![0, 0, 0, 1, 0, 1, 0, 0, 0, 14, 0, 2, 0, 1, 0xff, 0xfe, 0x08, 0x00]
    );
    let back = m16::decode(&bytes).unwrap();
    assert_eq!(back.pixel_format, PixelFormat::Format565);
    assert_eq!(back.frames[0].image.pixel(0, 0), Some(Rgba([255, 255, 248, 255])));
    assert_eq!(back.frames[0].image.pixel(1, 0), Some(Rgba([8, 0, 0, 255])));
}

#[test]
fn extensions_name_formats_in_any_case() {
    assert_eq!(kind_of_name("spr"), Some(FileKind::Spr));
    assert_eq!(kind_of_name("n16"), Some(FileKind::M16));
    assert_eq!(kind_of_name("photo album"), Some(FileKind::PhotoAlbum));
    assert_eq!(kind_of_name("SPR"), None);
    assert_eq!(kind_of_name(""), None);
    assert_eq!(kind_of_extension("SPR"), Some(FileKind::Spr));
    assert_eq!(kind_of_extension("Photo Album"), Some(FileKind::PhotoAlbum));
    assert_eq!(kind_of_extension("Gif"), Some(FileKind::Gif));
    assert_eq!(kind_of_extension("txt"), None);
}

#[test]
fn files_are_read_by_extension() {
    let palette = original_palette();
    let s16 = [1u8, 0, 0, 0, 1, 0, 14, 0, 0, 0, 1, 0, 1, 0, 0xff, 0xff];
    let sprite = get_sprite_info(Some("S16"), &s16, &palette).unwrap();
    assert_eq!(sprite.frames.len(), 1);
    assert!(!sprite.read_only);
    assert_eq!(
        get_sprite_info(None, &s16, &palette).err(),
        Some(OpenError::Format(FormatError::InvalidExtension))
    );
    assert_eq!(
        get_sprite_info(Some("txt"), &s16, &palette).err(),
        Some(OpenError::Format(FormatError::InvalidExtension))
    );
    let wrong_size = get_sprite_info(Some("dta"), &s16, &palette).err().unwrap();
    assert_eq!(
        wrong_size,
        OpenError::Format(FormatError::StructuralViolation(Violation::InvalidCharsetSize))
    );
    assert_eq!(wrong_size.message(), "Unable to open charset file. Invalid file size.");
    assert_eq!(
        get_sprite_info(Some("s16"), &s16[..6], &palette).err(),
        Some(OpenError::Format(FormatError::ImageHeaderTruncated))
    );
}

#[test]
fn png_bmp_and_gif_are_imported() {
    let palette = original_palette();
    let mut source = image::RgbaImage::new(2, 1);
    source.put_pixel(0, 0, Rgba([0, 0, 0, 255]));
    source.put_pixel(1, 0, Rgba([10, 20, 30, 255]));
    let mut png = std::io::Cursor::new(Vec::new());
    source.write_to(&mut png, image::ImageFormat::Png).unwrap();
    let from_png = get_sprite_info(Some("png"), png.get_ref(), &palette).unwrap();
    assert!(from_png.read_only);
    assert_eq!(from_png.frames.len(), 1);
    assert_eq!(from_png.frames[0].image.pixel(0, 0), Some(Rgba([0, 0, 0, 255])));
    assert_eq!(from_png.frames[0].image.pixel(1, 0), Some(Rgba([10, 20, 30, 255])));

    let mut bmp = std::io::Cursor::new(Vec::new());
    source.write_to(&mut bmp, image::ImageFormat::Bmp).unwrap();
    let from_bmp = get_sprite_info(Some("BMP"), bmp.get_ref(), &palette).unwrap();
    assert_eq!(from_bmp.frames[0].image.pixel(0, 0), Some(Rgba([0, 0, 0, 0])));
    assert_eq!(from_bmp.frames[0].image.pixel(1, 0), Some(Rgba([10, 20, 30, 255])));

    let mut gif = Vec::new();
    {
        let mut encoder = image::codecs::gif::GifEncoder::new(&mut gif);
        encoder.encode_frames(vec![image::Frame::new(source.clone()), image::Frame::new(source)]).unwrap();
    }
    let from_gif = get_sprite_info(Some("gif"), &gif, &palette).unwrap();
    assert_eq!(from_gif.frames.len(), 2);
    assert_eq!(from_gif.frames[1].image.pixel(1, 0), Some(Rgba([10, 20, 30, 255])));

}

fn said_of(bytes: &[u8], format: image::ImageFormat) -> String {
    image::ImageReader::with_format(std::io::Cursor::new(bytes), format)
        .decode()
        .unwrap_err()
        .to_string()
}

#[test]
fn a_rejected_image_is_reported_in_the_words_of_the_image_crate() {
    let palette = original_palette();
    let broken = [1u8, 2, 3];
    let png = get_sprite_info(Some("png"), &broken, &palette).err().unwrap();
    let expected = said_of(&broken, image::ImageFormat::Png);
    assert!(!expected.is_empty());
    assert_eq!(png, OpenError::Image(expected.clone()));
    assert_eq!(png.message(), expected);

    let bmp = get_sprite_info(Some("bmp"), &broken, &palette).err().unwrap();
    assert_eq!(bmp, OpenError::Image(said_of(&broken, image::ImageFormat::Bmp)));

    let gif = get_sprite_info(Some("GIF"), &[], &palette).err().unwrap();
    let expected = said_of(&[], image::ImageFormat::Gif);
    assert_eq!(gif.message(), expected);

    // a file that is no PNG file is told apart from a PNG file cut short
    let other = [7u8; 40];
    let unknown = get_sprite_info(Some("png"), &other, &palette).err().unwrap();
    assert_eq!(unknown.message(), said_of(&other, image::ImageFormat::Png));
    assert_ne!(unknown, png);
}

#[test]
fn sprites_are_saved_by_extension() {
    let palette = original_palette();
    let make = || SpriteInfo {
        frames: vec![Frame { image: RgbaImage::new(1, 1).unwrap(), color_indexes: vec![3] }],
        pixel_format: PixelFormat::Format565,
        cols: 1,
        rows: 1,
        read_only: false,
    };
    assert_eq!(save_file_to_path("spr", make(), &palette).unwrap().to_vec(), vec![1, 0, 10, 0, 0, 0, 1, 0, 1, 0, 3]);
    assert_eq!(save_file_to_path("s16", make(), &palette).unwrap().len(), 6 + 8 + 2);
    assert_eq!(save_file_to_path("c16", make(), &palette).unwrap().len(), 6 + 8 + 2 + 2 + 2);
    assert_eq!(save_file_to_path("m16", make(), &palette).unwrap()[3], 1);
    assert_eq!(save_file_to_path("n16", make(), &palette).unwrap()[3], 1);
    assert_eq!(
        save_file_to_path("blk", make(), &palette).err(),
        Some(FormatError::StructuralViolation(Violation::WrongTileSize))
    );
    assert_eq!(save_file_to_path("SPR", make(), &palette).err(), Some(FormatError::InvalidExtension));
    assert_eq!(save_file_to_path("png", make(), &palette).err(), Some(FormatError::InvalidExtension));
}

#[test]
fn messages() {
    assert_eq!(
        FormatError::FileHeaderTruncated.message(),
        "Invalid data. File ends in the middle of file header."
    );
    assert_eq!(
        FormatError::ImageDataTruncated.message(),
        "Invalid data. File ends in the middle of an image"
    );
    assert_eq!(
        FormatError::StructuralViolation(Violation::WrongTileSize).message(),
        "All frames in a BLK file must be 128 x 128 px."
    );
    assert_eq!(
        FormatError::InvalidExtension.message(),
        "File does not have a valid file extension (\".spr\", \".s16\", \".c16\", \".blk\", etc.)"
    );
    assert_eq!(spritist::format::file_header_error(), FormatError::FileHeaderTruncated);
    assert_eq!(spritist::format::image_header_error(), FormatError::ImageHeaderTruncated);
    assert_eq!(spritist::format::image_error(), FormatError::ImageDataTruncated);
}
