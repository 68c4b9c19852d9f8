use bytes::Bytes;
use image::Rgba;
use spritist::error::{FormatError, Truncation, Violation};
use spritist::file::{decode_spr, Frame, SpriteInfo};
use spritist::format::{dta, photo_album, spr, PixelFormat};
use spritist::palette::{original_palette, Palette};
use spritist::raster::RgbaImage;

fn pixels_of(image: &RgbaImage) -> Vec<[u8; 4]> {
    let mut out = Vec::new();
    for y in 0..image.height() {
        for x in 0..image.width() {
            out.push(image.pixel(x, y).unwrap().0);
        }
    }
    out
}

fn image_of(width: u32, height: u32, pixels: &[[u8; 4]]) -> RgbaImage {
    let list: Vec<Rgba<u8>> = pixels.iter().map(|p| Rgba(*p)).collect();
    RgbaImage::from_pixels(width, height, &list).unwrap()
}

fn sprite(frames: Vec<Frame>) -> SpriteInfo {
    SpriteInfo { frames, pixel_format: PixelFormat::Format565, cols: 0, rows: 0, read_only: false }
}

#[test]
fn spr_standard_decode() {
    let bytes = [1u8, 0, 10, 0, 0, 0, 2, 0, 2, 0, 0, 1, 11, 249];
    let back = spr::decode(&bytes, &original_palette()).unwrap();
    assert!(!back.read_only);
    assert_eq!(back.frames.len(), 1);
    assert_eq!(back.frames[0].color_indexes, vec![0, 1, 11, 249]);
    assert_eq!(
        pixels_of(&back.frames[0].image),
        vec![[0, 0, 0, 0], [252, 252, 252, 255], [16, 8, 8, 255], [255, 0, 0, 255]]
    );
}

#[test]
fn spr_standard_decode_ignores_offsets_and_reads_in_sequence() {
    let bytes = [2u8, 0, 99, 0, 0, 0, 1, 0, 1, 0, 77, 0, 0, 0, 2, 0, 1, 0, 5, 6, 7];
    let back = spr::decode(&bytes, &original_palette()).unwrap();
    assert_eq!(back.frames.len(), 2);
    assert_eq!(back.frames[0].color_indexes, vec![5]);
    assert_eq!(back.frames[1].color_indexes, vec![6, 7]);
}

#[test]
fn spr_standard_decode_errors() {
    let palette = original_palette();
    assert_eq!(spr::decode(&[1], &palette).err(), Some(FormatError::FileHeaderTruncated));
    assert_eq!(
        spr::decode(&[1, 0, 10, 0, 0, 0, 2, 0, 2], &palette).err(),
        Some(FormatError::ImageHeaderTruncated)
    );
    assert_eq!(
        spr::decode(&[1, 0, 10, 0, 0, 0, 2, 0, 2, 0, 0, 1, 11], &palette).err(),
        Some(FormatError::ImageDataTruncated)
    );
}

#[test]
fn spr_encode_keeps_explicit_indexes() {
    let palette = original_palette();
    // the pixels do not match the indexes on purpose: the indexes win
    let image = image_of(2, 1, &[[255, 0, 0, 255], [255, 0, 0, 255]]);
    let frame = Frame { image, color_indexes: vec![7, 200] };
    let bytes = spr::encode(sprite(vec![frame]), &palette).unwrap();
    assert_eq!(bytes.to_vec(), vec![1, 0, 10, 0, 0, 0, 2, 0, 1, 0, 7, 200]);
    let back = spr::decode(&bytes, &palette).unwrap();
    assert_eq!(back.frames[0].color_indexes, vec![7, 200]);
}

#[test]
fn spr_round_trip_keeps_indexes_of_every_frame() {
    let palette = original_palette();
    let first = Frame { image: RgbaImage::new(3, 2).unwrap(), color_indexes: vec![1, 2, 3, 4, 5, 6] };
    let second = Frame { image: RgbaImage::new(0, 4).unwrap(), color_indexes: vec![] };
    let third = Frame { image: RgbaImage::new(1, 1).unwrap(), color_indexes: vec![255] };
    let bytes = spr::encode(sprite(vec![first, second, third]), &palette).unwrap();
    let back = spr::decode(&bytes, &palette).unwrap();
    assert_eq!(back.frames.len(), 3);
    assert_eq!(back.frames[0].color_indexes, vec![1, 2, 3, 4, 5, 6]);
    assert_eq!(back.frames[1].color_indexes, Vec::<u8>::new());
    assert_eq!((back.frames[1].image.width(), back.frames[1].image.height()), (0, 4));
    assert_eq!(back.frames[2].color_indexes, vec![255]);
    assert_eq!(back.frames[2].image.pixel(0, 0), Some(Rgba([255, 255, 255, 255])));
}

#[test]
fn spr_encode_matches_pixels_without_indexes() {
    let palette = original_palette();
    let image = image_of(2, 2, &[[0, 0, 0, 0], [17, 8, 8, 255], [254, 1, 1, 255], [252, 252, 252, 9]]);
    let bytes = spr::encode(sprite(vec![Frame { image, color_indexes: vec![] }]), &palette).unwrap();
    assert_eq!(bytes.to_vec(), vec![1, 0, 10, 0, 0, 0, 2, 0, 2, 0, 0, 11, 249, 1]);
}

#[test]
fn spr_encode_fills_missing_indexes_by_exact_match() {
    let palette = original_palette();
    let image = image_of(4, 1, &[[1, 1, 1, 255], [16, 8, 8, 255], [17, 8, 8, 255], [9, 9, 9, 0]]);
    let frame = Frame { image, color_indexes: vec![42] };
    let bytes = spr::encode(sprite(vec![frame]), &palette).unwrap();
    assert_eq!(bytes.to_vec(), vec![1, 0, 10, 0, 0, 0, 4, 0, 1, 0, 42, 11, 0, 0]);
}

#[test]
fn spr_single_width_rows_are_stored_bottom_up() {
    let bytes = [1u8, 0, 9, 9, 9, 9, 2, 0, 2, 0, 1, 2, 3, 4];
    let back = spr::decode_single_width(&bytes, &original_palette()).unwrap();
    assert!(back.read_only);
    assert_eq!(back.frames[0].color_indexes, vec![3, 4, 1, 2]);
    let palette = original_palette();
    assert_eq!(back.frames[0].image.pixel(0, 0), Some(palette.get_color(3)));
    assert_eq!(back.frames[0].image.pixel(1, 1), Some(palette.get_color(2)));
}

#[test]
fn spr_single_width_errors() {
    let palette = original_palette();
    assert_eq!(
        spr::decode_single_width(&[1, 0, 9, 9, 9], &palette).err(),
        Some(FormatError::FileHeaderTruncated)
    );
    assert_eq!(
        spr::decode_single_width(&[1, 0, 9, 9, 9, 9, 2, 0, 2], &palette).err(),
        Some(FormatError::ImageHeaderTruncated)
    );
    assert_eq!(
        spr::decode_single_width(&[1, 0, 9, 9, 9, 9, 2, 0, 2, 0, 1, 2, 3], &palette).err(),
        Some(FormatError::ImageDataTruncated)
    );
}

#[test]
fn spr_double_width_drops_the_padding() {
    let bytes = [
        1u8, 0, 9, 9, 9, 9, 3, 0, 0, 0, 2, 0, 0, 0, 2, 0, 1, 2, 99, 3, 4, 99,
    ];
    let back = spr::decode_double_width(&bytes, &original_palette()).unwrap();
    assert!(back.read_only);
    assert_eq!(back.frames.len(), 1);
    assert_eq!((back.frames[0].image.width(), back.frames[0].image.height()), (2, 2));
    assert_eq!(back.frames[0].color_indexes, vec![3, 4, 1, 2]);
}

#[test]
fn spr_double_width_rejects_a_height_beyond_16_bits() {
    let bytes = [1u8, 0, 9, 9, 9, 9, 1, 0, 0, 0, 0, 0, 1, 0, 1, 0, 5];
    assert_eq!(
        spr::decode_double_width(&bytes, &original_palette()).err(),
        Some(FormatError::StructuralViolation(Violation::InvalidHeight))
    );
}

#[test]
fn spr_double_width_pads_short_rows_with_index_zero() {
    let bytes = [1u8, 0, 9, 9, 9, 9, 1, 0, 0, 0, 2, 0, 0, 0, 2, 0, 7, 8];
    let back = spr::decode_double_width(&bytes, &original_palette()).unwrap();
    assert_eq!(back.frames[0].color_indexes, vec![8, 0, 7, 0]);
    assert_eq!(back.frames[0].image.pixel(1, 0), Some(Rgba([0, 0, 0, 0])));
}

fn only_double_width() -> Vec<u8> {
    vec![
        3, 0, 0, 0, 0, 0, // count, four bytes passed over
        2, 0, 0, 0, 1, 0, 0, 0, 2, 0, 255, 255, // 2 wide, 1 high
        1, 0, 0, 0, 1, 0, 0, 0, 1, 0, 7, // 1 by 1
        1, 0, 0, 0, 1, 0, 0, 0, 1, 0, 9, // 1 by 1
    ]
}

#[test]
fn cascade_fails_two_dialects_before_double_width() {
    let palette = original_palette();
    let bytes = only_double_width();
    assert_eq!(spr::decode(&bytes, &palette).err(), Some(FormatError::ImageDataTruncated));
    assert_eq!(
        spr::decode_single_width(&bytes, &palette).err(),
        Some(FormatError::ImageDataTruncated)
    );
    let direct = spr::decode_double_width(&bytes, &palette).unwrap();
    let found = decode_spr(&bytes, &palette).unwrap();
    assert!(found.read_only);
    assert_eq!(found.frames.len(), 3);
    assert_eq!(direct.frames.len(), 3);
    assert_eq!(found.frames[0].color_indexes, vec![255, 255]);
    assert_eq!(found.frames[1].color_indexes, vec![7]);
    assert_eq!(found.frames[2].color_indexes, vec![9]);
}

#[test]
fn cascade_prefers_the_standard_dialect() {
    let palette = original_palette();
    let bytes = [1u8, 0, 10, 0, 0, 0, 2, 0, 2, 0, 0, 1, 11, 249];
    let found = decode_spr(&bytes, &palette).unwrap();
    assert!(!found.read_only);
    assert_eq!(found.frames[0].color_indexes, vec![0, 1, 11, 249]);
}

#[test]
fn cascade_reports_the_last_dialect_when_all_fail() {
    let palette = original_palette();
    assert_eq!(
        decode_spr(&[5], &palette).err(),
        Some(FormatError::AllDialectsFailed(Truncation::FileHeader))
    );
    // three images declared, nothing behind the count
    assert_eq!(
        decode_spr(&[3, 0, 1, 2, 3, 4, 5], &palette).err(),
        Some(FormatError::AllDialectsFailed(Truncation::ImageHeader))
    );
    assert_eq!(
        FormatError::AllDialectsFailed(Truncation::ImageHeader).message(),
        "Invalid data. File ends in the middle of an image header"
    );
    // every dialect finds an image larger than the file
    let short = [1u8, 0, 0, 0, 255, 255, 255, 255, 255, 255, 0, 0];
    assert_eq!(spr::decode(&short, &palette).err(), Some(FormatError::ImageDataTruncated));
    assert_eq!(
        spr::decode_double_width(&short, &palette).err(),
        Some(FormatError::ImageHeaderTruncated)
    );
    assert_eq!(
        decode_spr(&short, &palette).err(),
        Some(FormatError::AllDialectsFailed(Truncation::ImageData))
    );
    assert_eq!(Truncation::ImageData.to_error(), FormatError::ImageDataTruncated);
}

fn sub_sprite(index: u8) -> Vec<u8> {
    vec![1, 0, 0, 0, 0, 0, 1, 0, 0, 0, 1, 0, 0, 0, 1, 0, index]
}

#[test]
fn spr_multi_sprite_reads_one_sub_sprite_after_the_other() {
    let palette = original_palette();
    let mut bytes = vec![2u8, 0, 0, 0, 0, 0];
    bytes.extend_from_slice(&sub_sprite(11));
    bytes.extend_from_slice(&sub_sprite(12));
    let back = spr::decode_multi_sprite(&bytes, &palette).unwrap();
    assert!(back.read_only);
    assert_eq!(back.frames.len(), 2);
    assert_eq!(back.frames[0].color_indexes, vec![11]);
    assert_eq!(back.frames[1].color_indexes, vec![12]);
    assert_eq!(back.frames[1].image.pixel(0, 0), Some(palette.get_color(12)));
}

#[test]
fn spr_multi_sprite_joins_sub_sprites_of_several_frames() {
    let palette = original_palette();
    let mut bytes = vec![3u8, 0, 9, 9, 9, 9];
    // two frames: 2 by 1 with a pitch of 3, then 1 by 2
    bytes.extend_from_slice(&[2, 0, 9, 9, 9, 9]);
    bytes.extend_from_slice(&[3, 0, 0, 0, 1, 0, 0, 0, 2, 0, 21, 22, 99]);
    bytes.extend_from_slice(&[1, 0, 0, 0, 2, 0, 0, 0, 1, 0, 32, 31]);
    // no frame at all
    bytes.extend_from_slice(&[0, 0, 9, 9, 9, 9]);
    bytes.extend_from_slice(&sub_sprite(40));
    let back = spr::decode_multi_sprite(&bytes, &palette).unwrap();
    assert_eq!(back.frames.len(), 3);
    assert_eq!(back.frames[0].color_indexes, vec![21, 22]);
    assert_eq!(back.frames[1].color_indexes, vec![31, 32]);
    assert_eq!(back.frames[2].color_indexes, vec![40]);
}

#[test]
fn spr_multi_sprite_errors() {
    let palette = original_palette();
    let none = spr::decode_multi_sprite(&[0, 0, 9, 9, 9, 9], &palette).unwrap();
    assert_eq!(none.frames.len(), 0);
    assert!(none.read_only);
    assert_eq!(
        spr::decode_multi_sprite(&[1, 0, 9, 9, 9], &palette).err(),
        Some(FormatError::FileHeaderTruncated)
    );
    // the file header of the first sub-sprite is missing
    assert_eq!(
        spr::decode_multi_sprite(&[1, 0, 9, 9, 9, 9], &palette).err(),
        Some(FormatError::FileHeaderTruncated)
    );
    // two sub-sprites declared, one held: the second is not the first again
    let mut bytes = vec![2u8, 0, 9, 9, 9, 9];
    bytes.extend_from_slice(&sub_sprite(5));
    assert_eq!(
        spr::decode_multi_sprite(&bytes, &palette).err(),
        Some(FormatError::FileHeaderTruncated)
    );
    // the second sub-sprite ends inside its image
    bytes.extend_from_slice(&sub_sprite(6));
    bytes.pop();
    assert_eq!(
        spr::decode_multi_sprite(&bytes, &palette).err(),
        Some(FormatError::ImageDataTruncated)
    );
    bytes.truncate(bytes.len() - 3);
    assert_eq!(
        spr::decode_multi_sprite(&bytes, &palette).err(),
        Some(FormatError::ImageHeaderTruncated)
    );
}

#[test]
fn spr_prototype_decode() {
    let palette = original_palette();
    let bytes = [1u8, 0, 0, 0, 2, 1, 10, 11, 0, 0];
    let back = spr::decode_prototype(&bytes, &palette).unwrap();
    assert!(back.read_only);
    assert_eq!(back.frames.len(), 1);
    assert_eq!((back.frames[0].image.width(), back.frames[0].image.height()), (2, 1));
    assert_eq!(back.frames[0].color_indexes, vec![10, 11]);
    assert_eq!(
        spr::decode_prototype(&[1, 0, 0, 0, 3, 2, 1, 2, 3, 4], &palette).err(),
        Some(FormatError::ImageDataTruncated)
    );
}

#[test]
fn spr_prototype_headers_are_four_bytes_long() {
    let palette = original_palette();
    let back = spr::decode_prototype(&[1, 0, 6, 0, 1, 1, 11], &palette).unwrap();
    assert!(back.read_only);
    assert_eq!(back.frames.len(), 1);
    assert_eq!((back.frames[0].image.width(), back.frames[0].image.height()), (1, 1));
    assert_eq!(back.frames[0].color_indexes, vec![11]);
    assert_eq!(back.frames[0].image.pixel(0, 0), Some(Rgba([16, 8, 8, 255])));
    let two = spr::decode_prototype(&[2, 0, 0, 0, 1, 1, 0, 0, 1, 2, 7, 8, 9], &palette).unwrap();
    assert_eq!(two.frames.len(), 2);
    assert_eq!(two.frames[0].color_indexes, vec![7]);
    assert_eq!(two.frames[1].color_indexes, vec![8, 9]);
    assert_eq!(
        spr::decode_prototype(&[1, 0, 6, 0, 1], &palette).err(),
        Some(FormatError::ImageHeaderTruncated)
    );
    assert_eq!(
        spr::decode_prototype(&[2, 0, 0, 0, 1, 1, 0, 0, 1], &palette).err(),
        Some(FormatError::ImageHeaderTruncated)
    );
    assert_eq!(spr::decode_prototype(&[1], &palette).err(), Some(FormatError::FileHeaderTruncated));
}

#[test]
fn font_of_4096_bytes() {
    let mut bytes = vec![0u8; 4096];
    for (i, byte) in bytes.iter_mut().enumerate() {
        *byte = (i % 4) as u8;
    }
    bytes[64] = 200;
    let back = dta::decode(&bytes).unwrap();
    assert!(back.read_only);
    assert_eq!(back.frames.len(), 64);
    let mut seen: Vec<[u8; 4]> = Vec::new();
    for frame in &back.frames {
        assert_eq!((frame.image.width(), frame.image.height()), (8, 8));
        assert!(frame.color_indexes.is_empty());
        for pixel in pixels_of(&frame.image) {
            if !seen.contains(&pixel) {
                seen.push(pixel);
            }
        }
    }
    seen.sort();
    assert_eq!(seen, vec![[0, 0, 0, 0], [0, 0, 128, 255], [128, 128, 128, 255], [255, 255, 255, 255]]);
    assert_eq!(back.frames[0].image.pixel(1, 0), Some(Rgba([255, 255, 255, 255])));
    assert_eq!(back.frames[0].image.pixel(2, 3), Some(Rgba([128, 128, 128, 255])));
    assert_eq!(back.frames[0].image.pixel(3, 7), Some(Rgba([0, 0, 128, 255])));
    assert_eq!(back.frames[1].image.pixel(0, 0), Some(Rgba([0, 0, 128, 255])));
}

#[test]
fn font_with_a_width_table() {
    let mut bytes = vec![0u8; 9472];
    // glyph 1, second row, second column
    bytes[72 + 6 + 1] = 1;
    for glyph in 0..128 {
        bytes[128 * 72 + 2 * glyph] = 5;
    }
    bytes[128 * 72 + 2] = 3;
    let back = dta::decode(&bytes).unwrap();
    assert_eq!(back.frames.len(), 128);
    assert_eq!((back.frames[0].image.width(), back.frames[0].image.height()), (5, 12));
    assert_eq!((back.frames[1].image.width(), back.frames[1].image.height()), (3, 12));
    assert_eq!(back.frames[1].image.pixel(1, 1), Some(Rgba([255, 255, 255, 255])));
    assert_eq!(back.frames[1].image.pixel(1, 0), Some(Rgba([0, 0, 0, 0])));
    bytes[128 * 72 + 4] = 7;
    assert_eq!(
        dta::decode(&bytes).err(),
        Some(FormatError::StructuralViolation(Violation::GlyphTooWide))
    );
}

#[test]
fn font_sizes() {
    assert_eq!(dta::decode(&vec![0u8; 17152]).unwrap().frames.len(), 128);
    assert_eq!(dta::decode(&vec![0u8; 18944]).unwrap().frames.len(), 256);
    assert_eq!(
        dta::decode(&vec![0u8; 4095]).err(),
        Some(FormatError::StructuralViolation(Violation::InvalidCharsetSize))
    );
    assert_eq!(
        dta::decode(&[]).err(),
        Some(FormatError::StructuralViolation(Violation::InvalidCharsetSize))
    );
}

#[test]
fn photo_album_decode() {
    let palette = original_palette();
    let bytes = [
        1u8, 0, // one photo
        3, b'a', b'b', b'c', // time stamp
        2, 0, 0, 0, 2, 0, 0, 0, 9, 9, 9, 9, // width, height, four bytes passed over
        1, 2, 3, 4, // rows bottom up; the last index is the length of the comment
        b'n', b'i', b'c', b'e',
    ];
    let back = photo_album::decode(&bytes, &palette).unwrap();
    assert!(back.read_only);
    assert_eq!(back.frames.len(), 1);
    assert_eq!(back.frames[0].color_indexes, vec![3, 4, 1, 2]);
    assert_eq!(back.frames[0].image.pixel(0, 0), Some(palette.get_color(3)));
    assert_eq!(
        photo_album::decode(&bytes[..bytes.len() - 1], &palette).err(),
        Some(FormatError::ImageDataTruncated)
    );
    assert_eq!(
        photo_album::decode(&bytes[..10], &palette).err(),
        Some(FormatError::ImageHeaderTruncated)
    );
    assert_eq!(photo_album::decode(&bytes[..1], &palette).err(), Some(FormatError::FileHeaderTruncated));
    assert_eq!(photo_album::decode(&bytes[..2], &palette).err(), Some(FormatError::ImageDataTruncated));
}

#[test]
fn photo_album_texts_are_read_by_their_length() {
    let mut buffer = Bytes::from(vec![255u8, 2, 0, 0x61, 0x62, 0x63]);
    assert_eq!(photo_album::read_c_string(&mut buffer, None), Ok("ab".to_string()));
    assert_eq!(buffer.to_vec(), vec![0x63]);
    let mut buffer = Bytes::from(vec![3u8, b'a', b'b', b'c', b'd']);
    assert_eq!(photo_album::read_c_string(&mut buffer, None), Ok("abc".to_string()));
    assert_eq!(buffer.to_vec(), vec![b'd']);
    // the length byte was read before
    let mut buffer = Bytes::from(vec![b'h', b'i', 0xe9, 7]);
    assert_eq!(photo_album::read_c_string(&mut buffer, Some(3)), Ok("hi\u{e9}".to_string()));
    assert_eq!(buffer.to_vec(), vec![7]);
    let mut buffer = Bytes::from(vec![1u8, 0, b'z']);
    assert_eq!(photo_album::read_c_string(&mut buffer, Some(255)), Ok("z".to_string()));
    assert_eq!(buffer.to_vec(), Vec::<u8>::new());
    let mut buffer = Bytes::from(vec![0u8, 5]);
    assert_eq!(photo_album::read_c_string(&mut buffer, None), Ok(String::new()));
    assert_eq!(buffer.to_vec(), vec![5]);
}

#[test]
fn photo_album_texts_that_are_cut_short() {
    let mut buffer = Bytes::from(Vec::<u8>::new());
    assert_eq!(
        photo_album::read_c_string(&mut buffer, None),
        Err(FormatError::ImageDataTruncated)
    );
    let mut buffer = Bytes::from(vec![255u8, 2]);
    assert_eq!(
        photo_album::read_c_string(&mut buffer, None),
        Err(FormatError::ImageDataTruncated)
    );
    let mut buffer = Bytes::from(vec![3u8, b'a', b'b']);
    assert_eq!(
        photo_album::read_c_string(&mut buffer, None),
        Err(FormatError::ImageDataTruncated)
    );
    let mut buffer = Bytes::from(vec![b'a']);
    assert_eq!(
        photo_album::read_c_string(&mut buffer, Some(2)),
        Err(FormatError::ImageDataTruncated)
    );
}

#[test]
fn photo_album_long_texts() {
    let palette = original_palette();
    let mut bytes = vec![2u8, 0];
    // first photo: a time stamp of 300 bytes, one pixel of index 255, a comment of 2 bytes
    bytes.extend_from_slice(&[255, 44, 1]);
    bytes.extend_from_slice(&[b'x'; 300]);
    bytes.extend_from_slice(&[1, 0, 0, 0, 1, 0, 0, 0, 0, 0, 0, 0]);
    bytes.push(255);
    bytes.extend_from_slice(&[2, 0, b'o', b'k']);
    // second photo: no time stamp, no pixels, a comment of length 0
    bytes.push(0);
    bytes.extend_from_slice(&[0, 0, 0, 0, 5, 0, 0, 0, 0, 0, 0, 0]);
    let back = photo_album::decode(&bytes, &palette).unwrap();
    assert_eq!(back.frames.len(), 2);
    assert_eq!(back.frames[0].color_indexes, vec![255]);
    assert_eq!((back.frames[1].image.width(), back.frames[1].image.height()), (0, 5));
}

#[test]
fn custom_palette_changes_the_pixels_not_the_indexes() {
    let palette = Palette { file_name: None, colors: [(1, 2, 3); 256] };
    let bytes = [1u8, 0, 10, 0, 0, 0, 2, 0, 1, 0, 0, 9];
    let back = spr::decode(&bytes, &palette).unwrap();
    assert_eq!(back.frames[0].color_indexes, vec![0, 9]);
    assert_eq!(pixels_of(&back.frames[0].image), vec![[0, 0, 0, 0], [1, 2, 3, 255]]);
}
