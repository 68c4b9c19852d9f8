use image::Rgba;
use spritist::format::{encode_pixel, parse_pixel, parse_pixel_565_be, PixelFormat};

#[test]
fn parse_565_white_is_opaque() {
    assert_eq!(parse_pixel(0xffff, PixelFormat::Format565), Rgba([0xff, 0xff, 0xf8, 255]));
}

#[test]
fn parse_zero_word_is_transparent() {
    assert_eq!(parse_pixel(0, PixelFormat::Format565), Rgba([0, 0, 0, 0]));
    assert_eq!(parse_pixel(0, PixelFormat::Format555), Rgba([0, 0, 0, 0]));
    assert_eq!(parse_pixel_565_be(0), Rgba([0, 0, 0, 0]));
}

#[test]
fn parse_555_keeps_the_byte_window() {
    // red 11111, green 00000, blue 00001
    let word: u16 = 0b0_11111_00000_00001;
    assert_eq!(parse_pixel(word, PixelFormat::Format555), Rgba([0xf8, 0x00, 0x08, 255]));
}

#[test]
fn encode_cuts_low_bits() {
    assert_eq!(encode_pixel(&Rgba([0xff, 0xff, 0xff, 255]), PixelFormat::Format565), 0xffff);
    assert_eq!(encode_pixel(&Rgba([0xff, 0xff, 0xff, 255]), PixelFormat::Format555), 0x7fff);
    assert_eq!(encode_pixel(&Rgba([7, 3, 7, 255]), PixelFormat::Format565), 0);
    assert_eq!(encode_pixel(&Rgba([8, 4, 8, 0]), PixelFormat::Format565), 0x0821);
    assert_eq!(encode_pixel(&Rgba([8, 8, 8, 0]), PixelFormat::Format555), 0x0421);
}

#[test]
fn every_word_survives_a_round_trip_at_its_precision() {
    let mut word: u32 = 0;
    while word <= 0xffff {
        let w = word as u16;
        let back_565 = encode_pixel(&parse_pixel(w, PixelFormat::Format565), PixelFormat::Format565);
        assert_eq!(back_565, w);
        let back_555 = encode_pixel(&parse_pixel(w, PixelFormat::Format555), PixelFormat::Format555);
        assert_eq!(back_555 & 0x7fff, w & 0x7fff);
        word += 1;
    }
}
