use balloon_editor::color::Rgb;
use balloon_editor::descript::parse_descript;
use balloon_editor::markers::line_marker;
use balloon_editor::raster::{Image, Pixel};
use balloon_editor::textstyle::{disabled_color, line_styles, LineStyle, Shadow};
use balloon_editor::StringHashMap;

fn sizes_of(v: &[&str]) -> StringHashMap<(u32, u32)> {
    let mut m = StringHashMap::new();
    for n in v {
        m.insert(n.to_string(), (4, 4));
    }
    m
}

fn plain(text: Rgb, pen: Rgb, brush: Rgb) -> LineStyle {
    LineStyle { text, square: false, underline: false, pen, brush, shadow: None }
}

#[test]
fn default_line_styles() {
    let s = line_styles(&parse_descript(""), Rgb(1, 2, 3));
    let black = Rgb(0, 0, 0);
    assert_eq!(s.len(), 7);
    assert_eq!(s[0], plain(black, black, black));
    assert_eq!(s[1], plain(Rgb(1, 2, 3), black, black));
    assert_eq!(s[2], plain(black, black, black));
    assert_eq!(s[3], plain(black, black, Rgb(0, 0, 255)));
    assert_eq!(s[5], plain(black, Rgb(127, 127, 0), black));
}

#[test]
fn simple_mode_uses_font_colour_for_pen_and_brush() {
    let s = line_styles(&parse_descript("cursor.font.color.r,255\ncursor.font.color.g,0\ncursor.font.color.b,0\n"), Rgb(0, 0, 0));
    let red = Rgb(255, 0, 0);
    assert_eq!(s[3], LineStyle { text: red, square: true, underline: false, pen: red, brush: red, shadow: None });
}

#[test]
fn raster_op_mode_reads_style_and_pen() {
    let s = line_styles(&parse_descript("anchor.blendmethod,copypen\nanchor.style,SQUARE+underline\n"), Rgb(0, 0, 0));
    assert_eq!(
        s[5],
        LineStyle {
            text: Rgb(0, 0, 255),
            square: true,
            underline: true,
            pen: Rgb(127, 127, 0),
            brush: Rgb(0, 0, 0),
            shadow: None
        }
    );
}

#[test]
fn shadow_of_normal_text() {
    let s = line_styles(&parse_descript("font.shadowcolor,#102030\nfont.shadowstyle,outline\n"), Rgb(0, 0, 0));
    assert_eq!(s[0].shadow, Some(Shadow { color: Rgb(16, 32, 48), outline: true }));
    assert_eq!(s[4].shadow, Some(Shadow { color: Rgb(16, 32, 48), outline: true }));
}

#[test]
fn disabled_colour_mixes_with_balloon_centre() {
    let mut img = Image::new(3, 3);
    for y in 0..3 {
        for x in 0..3 {
            img.put_pixel(x, y, Pixel(30, 60, 90, 255));
        }
    }
    assert_eq!(disabled_color(&parse_descript(""), &img), Rgb(20, 40, 60));
    assert_eq!(disabled_color(&parse_descript("disable.font.color,#010203\n"), &img), Rgb(1, 2, 3));
    let clear = Image::new(3, 3);
    assert_eq!(disabled_color(&parse_descript(""), &clear), Rgb(170, 170, 170));
}

#[test]
fn line_marker_choice() {
    assert_eq!(line_marker(&sizes_of(&["marker.png"]), "balloonk0.png"), Some("marker.png".to_string()));
    assert_eq!(
        line_marker(&sizes_of(&["markerp2def.png", "marker.png"]), "balloonp2def1.png"),
        Some("markerp2def.png".to_string())
    );
    assert_eq!(line_marker(&sizes_of(&["marker.png"]), "balloonpxyz.png"), Some("marker.png".to_string()));
    assert_eq!(line_marker(&sizes_of(&["sstp.png"]), "balloons0.png"), Some("sstp.png".to_string()));
    assert_eq!(line_marker(&sizes_of(&[]), "balloons0.png"), None);
    assert_eq!(line_marker(&sizes_of(&["markers.png", "marker.png"]), "balloons0.png"), Some("markers.png".to_string()));
}

use balloon_editor::color::HexColorError;
use balloon_editor::textstyle::disabled_color_checked;

#[test]
fn colour_codes_are_hex_digits_only() {
    assert_eq!(Rgb::from_hex("+f+f+f"), Err(HexColorError::InvalidDigit));
    assert_eq!(Rgb::from_hex("#ああ"), Err(HexColorError::InvalidDigit));
    assert_eq!(Rgb::from_hex("#aあaa"), Err(HexColorError::InvalidDigit));
    assert_eq!(Rgb::from_hex("#a1B2c3"), Ok(Rgb(0xa1, 0xb2, 0xc3)));
    let s = line_styles(&parse_descript("font.color,#ああ\n"), Rgb(0, 0, 0));
    assert_eq!(s[0].text, Rgb(0, 0, 0));
}

#[test]
fn disabled_colour_needs_a_centre_or_a_colour() {
    let empty = Image::new(0, 0);
    assert_eq!(disabled_color_checked(&parse_descript(""), &empty), None);
    assert_eq!(disabled_color_checked(&parse_descript("disable.font.color,#010203\n"), &empty), Some(Rgb(1, 2, 3)));
    assert_eq!(disabled_color_checked(&parse_descript(""), &Image::new(1, 1)), Some(Rgb(170, 170, 170)));
}
