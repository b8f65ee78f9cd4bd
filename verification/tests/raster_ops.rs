use balloon_editor::color::Rgb;
use balloon_editor::raster::{
    alpha_paste, apply_color_overlay, apply_rgb_transparency, blend_px, center_average, draw_cross, draw_hline,
    draw_rect_outline, draw_vline, fill_rect, flip_horizontal, merge_alpha, set_px, trns_key, Image, Pixel,
};

const CLEAR: Pixel = Pixel(0, 0, 0, 0);

#[test]
fn set_px_paints_inside_only() {
    let mut img = Image::filled(3, 2, CLEAR);
    set_px(&mut img, 1, 1, Rgb(10, 20, 30), 40);
    set_px(&mut img, -1, 0, Rgb(1, 1, 1), 255);
    set_px(&mut img, 3, 0, Rgb(1, 1, 1), 255);
    assert_eq!(img.get_pixel(1, 1), Pixel(10, 20, 30, 40));
    assert_eq!(img.get_pixel(0, 0), CLEAR);
    assert_eq!(img.get_pixel(2, 0), CLEAR);
    assert_eq!((img.width(), img.height()), (3, 2));
}

#[test]
fn lines_and_outline() {
    let mut img = Image::filled(5, 5, CLEAR);
    draw_hline(&mut img, -2, 0, 2, Rgb(1, 2, 3), 255);
    assert_eq!(img.get_pixel(0, 0), Pixel(1, 2, 3, 255));
    assert_eq!(img.get_pixel(1, 0), Pixel(1, 2, 3, 255));
    assert_eq!(img.get_pixel(2, 0), CLEAR);
    draw_vline(&mut img, 4, 1, 2, Rgb(9, 9, 9), 100);
    assert_eq!(img.get_pixel(4, 1), Pixel(9, 9, 9, 100));
    assert_eq!(img.get_pixel(4, 2), Pixel(9, 9, 9, 100));
    assert_eq!(img.get_pixel(4, 3), CLEAR);

    let mut r = Image::filled(5, 5, CLEAR);
    draw_rect_outline(&mut r, 1, 1, 3, 3, Rgb(7, 7, 7), 255);
    let on = Pixel(7, 7, 7, 255);
    for (x, y) in [(1, 1), (2, 1), (3, 1), (1, 2), (3, 2), (1, 3), (2, 3), (3, 3)] {
        assert_eq!(r.get_pixel(x, y), on, "({x},{y})");
    }
    assert_eq!(r.get_pixel(2, 2), CLEAR);
    assert_eq!(r.get_pixel(0, 0), CLEAR);
}

#[test]
fn blending_over_transparent_and_opaque() {
    let mut img = Image::filled(2, 1, CLEAR);
    blend_px(&mut img, 0, 0, Rgb(200, 100, 50), 255);
    assert_eq!(img.get_pixel(0, 0), Pixel(200, 100, 50, 255));
    let mut white = Image::filled(1, 1, Pixel(255, 255, 255, 255));
    blend_px(&mut white, 0, 0, Rgb(0, 0, 0), 0);
    assert_eq!(white.get_pixel(0, 0), Pixel(255, 255, 255, 255));
    let mut grey = Image::filled(1, 1, Pixel(100, 100, 100, 255));
    fill_rect(&mut grey, 0, 0, 1, 1, Rgb(200, 200, 200), 128);
    // 200*128 + 100*255*127/255 = 25600 + 12700 = 38300; / 255 = 150
    assert_eq!(grey.get_pixel(0, 0), Pixel(150, 150, 150, 255));
}

#[test]
fn paste_skips_transparent_source_pixels() {
    let mut dst = Image::filled(3, 3, Pixel(0, 0, 0, 255));
    let mut src = Image::filled(2, 2, Pixel(255, 0, 0, 255));
    src.put_pixel(1, 1, CLEAR);
    alpha_paste(&mut dst, &src, 1, 1);
    assert_eq!(dst.get_pixel(1, 1), Pixel(255, 0, 0, 255));
    assert_eq!(dst.get_pixel(2, 1), Pixel(255, 0, 0, 255));
    assert_eq!(dst.get_pixel(2, 2), Pixel(0, 0, 0, 255));
    assert_eq!(dst.get_pixel(0, 0), Pixel(0, 0, 0, 255));
    alpha_paste(&mut dst, &src, -1, -1);
    assert_eq!(dst.get_pixel(0, 0), Pixel(0, 0, 0, 255));
}

#[test]
fn cross_mark_has_a_centre_line() {
    let mut img = Image::filled(20, 20, CLEAR);
    draw_cross(&mut img, 10, 10, Rgb(255, 255, 255), Rgb(255, 0, 0));
    assert_eq!(img.get_pixel(10, 10), Pixel(255, 0, 0, 255));
    assert_eq!(img.get_pixel(16, 10), Pixel(255, 0, 0, 255));
    assert_eq!(img.get_pixel(10, 11), Pixel(255, 0, 0, 255));
    assert_eq!(img.get_pixel(11, 11), Pixel(255, 255, 255, 255));
    assert_eq!(img.get_pixel(17, 10), CLEAR);
    assert_eq!(img.get_pixel(12, 12), CLEAR);
}

#[test]
fn recolouring_keeps_alpha() {
    let mut src = Image::filled(2, 1, Pixel(1, 2, 3, 40));
    src.put_pixel(1, 0, Pixel(9, 9, 9, 0));
    let out = apply_color_overlay(&src, Rgb(200, 10, 20), false);
    assert_eq!(out.get_pixel(0, 0), Pixel(200, 10, 20, 40));
    assert_eq!(out.get_pixel(1, 0), Pixel(200, 10, 20, 0));
    let same = apply_color_overlay(&src, Rgb(200, 10, 20), true);
    assert_eq!(same.get_pixel(0, 0), Pixel(1, 2, 3, 40));
}

#[test]
fn flipping_twice_gives_the_image_back() {
    let mut img = Image::filled(3, 2, CLEAR);
    img.put_pixel(0, 0, Pixel(1, 0, 0, 255));
    img.put_pixel(2, 1, Pixel(0, 2, 0, 255));
    let once = flip_horizontal(&img);
    assert_eq!(once.get_pixel(2, 0), Pixel(1, 0, 0, 255));
    assert_eq!(once.get_pixel(0, 1), Pixel(0, 2, 0, 255));
    assert_eq!(once.get_pixel(0, 0), CLEAR);
    let twice = flip_horizontal(&once);
    for y in 0..2 {
        for x in 0..3 {
            assert_eq!(twice.get_pixel(x, y), img.get_pixel(x, y));
        }
    }
}

#[test]
fn colour_key_transparency() {
    assert_eq!(trns_key(&[0, 1, 0, 2, 0, 3]), Some((1, 2, 3)));
    assert_eq!(trns_key(&[0, 1, 0, 2]), None);
    assert_eq!(trns_key(&[4, 5, 6]), Some((4, 5, 6)));
    let mut rgb = Image::filled(2, 1, Pixel(5, 5, 5, 255));
    rgb.put_pixel(1, 0, Pixel(1, 2, 3, 255));
    let keyed = apply_rgb_transparency(Some((1, 2, 3)), &rgb);
    assert_eq!(keyed.get_pixel(0, 0), Pixel(5, 5, 5, 255));
    assert_eq!(keyed.get_pixel(1, 0), Pixel(1, 2, 3, 0));
    let corner = apply_rgb_transparency(None, &rgb);
    assert_eq!(corner.get_pixel(0, 0), Pixel(5, 5, 5, 0));
    assert_eq!(corner.get_pixel(1, 0), Pixel(1, 2, 3, 255));
}

#[test]
fn alpha_plane_is_merged_when_sizes_match() {
    let rgb = Image::filled(2, 1, Pixel(9, 8, 7, 255));
    let out = merge_alpha(&rgb, &vec![vec![10, 20]]).unwrap();
    assert_eq!(out.get_pixel(0, 0), Pixel(9, 8, 7, 10));
    assert_eq!(out.get_pixel(1, 0), Pixel(9, 8, 7, 20));
    assert!(merge_alpha(&rgb, &vec![vec![10]]).is_none());
    assert!(merge_alpha(&rgb, &vec![]).is_none());
}

#[test]
fn centre_average_of_opaque_pixels() {
    let mut img = Image::filled(4, 4, Pixel(100, 0, 0, 255));
    img.put_pixel(2, 2, Pixel(200, 0, 0, 255));
    img.put_pixel(1, 1, Pixel(0, 0, 0, 0));
    // window x 1..3, y 1..3: (1,1) transparent; others 100, 100, 200
    assert_eq!(center_average(&img, 1, 1), Rgb(133, 0, 0));
    let empty = Image::filled(4, 4, CLEAR);
    assert_eq!(center_average(&empty, 1, 1), Rgb(128, 128, 128));
}
