use balloon_editor::pngfile::{alpha_from_pna, png_trns_key, PnaError};
use balloon_editor::raster::{Image, Pixel};

/// A PNG, written with `png`, of an 8-bit image with the given colour type.
fn png_bytes(w: u32, h: u32, color: png::ColorType, data: &[u8], trns: Option<Vec<u8>>) -> Vec<u8> {
    let mut out = Vec::new();
    {
        let mut enc = png::Encoder::new(&mut out, w, h);
        enc.set_color(color);
        enc.set_depth(png::BitDepth::Eight);
        if let Some(t) = trns {
            enc.set_trns(t);
        }
        let mut writer = enc.write_header().unwrap();
        writer.write_image_data(data).unwrap();
    }
    out
}

fn opaque(w: u32, h: u32) -> Image {
    let mut img = Image::new(w, h);
    for y in 0..h {
        for x in 0..w {
            img.put_pixel(x, y, Pixel(10 * x as u8, 20, 30 + y as u8, 255));
        }
    }
    img
}

#[test]
fn pna_alpha_is_merged() {
    let pna = png_bytes(2, 2, png::ColorType::Grayscale, &[0, 128, 255, 7], None);
    let out = alpha_from_pna(&opaque(2, 2), &pna).unwrap();
    assert_eq!(out.get_pixel(0, 0), Pixel(0, 20, 30, 0));
    assert_eq!(out.get_pixel(1, 0), Pixel(10, 20, 30, 128));
    assert_eq!(out.get_pixel(0, 1), Pixel(0, 20, 31, 255));
    assert_eq!(out.get_pixel(1, 1), Pixel(10, 20, 31, 7));
}

#[test]
fn pna_of_another_size_is_refused() {
    let pna = png_bytes(2, 1, png::ColorType::Grayscale, &[1, 2], None);
    assert_eq!(
        alpha_from_pna(&opaque(3, 1), &pna).err(),
        Some(PnaError::SizeMismatch { width: 2, height: 1 })
    );
}

#[test]
fn pna_that_is_no_png_is_refused() {
    assert_eq!(alpha_from_pna(&opaque(1, 1), b"not a png").err(), Some(PnaError::Undecodable));
}

#[test]
fn trns_key_is_read_from_png_bytes() {
    let data = [1u8, 2, 3, 4, 5, 6];
    let with = png_bytes(2, 1, png::ColorType::Rgb, &data, Some(vec![0, 9, 0, 8, 0, 7]));
    assert_eq!(png_trns_key(&with), Some((9, 8, 7)));
    let mut deep = Vec::new();
    {
        let mut enc = png::Encoder::new(&mut deep, 1, 1);
        enc.set_color(png::ColorType::Rgb);
        enc.set_depth(png::BitDepth::Sixteen);
        enc.set_trns(vec![1, 9, 2, 8, 3, 7]);
        let mut writer = enc.write_header().unwrap();
        writer.write_image_data(&[0u8; 6]).unwrap();
    }
    assert_eq!(png_trns_key(&deep), Some((9, 8, 7)));
    let without = png_bytes(2, 1, png::ColorType::Rgb, &data, None);
    assert_eq!(png_trns_key(&without), None);
    assert_eq!(png_trns_key(b"garbage"), None);
}
