use balloon_editor::color::{ColorSet, Rgb};
use balloon_editor::compose::{layer_tint, part_color, tint_layer};
use balloon_editor::defaults::rebuild_dynamic_defaults;
use balloon_editor::descript::parse_descript;
use balloon_editor::fonts::{font_was_substituted, ValidRect};
use balloon_editor::fontsearch::{font_file_order, font_name_candidates};
use balloon_editor::layout::ColorType;
use balloon_editor::overlay::draw_overlay;
use balloon_editor::project::{file_action, profile_file_action, FileAction};
use balloon_editor::raster::{paste_alpha_raw, Image, Pixel};
use balloon_editor::StringHashMap;

fn strings(v: &[&str]) -> Vec<String> {
    v.iter().map(|s| s.to_string()).collect()
}

#[test]
fn font_lists_are_split_and_trimmed() {
    assert_eq!(font_name_candidates("MS Gothic, Meiryo ,"), strings(&["MS Gothic", "Meiryo", ""]));
    assert_eq!(font_name_candidates("Arial"), strings(&["Arial"]));
}

#[test]
fn font_files_exact_then_regular_then_bold() {
    let files = strings(&[
        "MyFont-Bold.ttf",
        "readme.txt",
        "myfont.TTF",
        "MyFont-Regular.otf",
        "Other.ttf",
        "MyFontBlack.ttc",
        ".ttf",
    ]);
    let order = font_file_order("MyFont.ttf", &files);
    // the exact name first; the key of "MyFont.ttf" is "myfontttf", which only "myfont" prefixes
    assert_eq!(order, vec![2, 2]);
    // by key: regular ones by file name, then bold ones by file name
    let by_key = font_file_order("my font", &files);
    assert_eq!(by_key, vec![3, 2, 0, 5]);
}

#[test]
fn font_substitution_ignores_case_and_spaces() {
    assert!(!font_was_substituted("MS Gothic", "ms gothic"));
    assert!(!font_was_substituted("MS PGothic", "MS PGothic Regular"));
    assert!(font_was_substituted("Meiryo", "MS Gothic"));
    assert!(!font_was_substituted("Meiryo", ""));
}

#[test]
fn text_overlay_marks_area_and_wrap_line() {
    let mut img = Image::filled(100, 60, Pixel(0, 0, 0, 0));
    let parsed = parse_descript("wordwrappoint.x,50\n");
    let vr = ValidRect { left: 10, top: 10, right: 90, bottom: 50 };
    draw_overlay(&mut img, &parsed, vr, false);
    // top-left corner of the text area: centre line of the cross mark
    assert_eq!(img.get_pixel(10, 10), Pixel(255, 0, 0, 255));
    // the wrap line at x = 50 has a red dashed centre
    assert_eq!(img.get_pixel(50, 30), Pixel(255, 0, 0, 255));
    assert_eq!(img.get_pixel(49, 30), Pixel(255, 255, 255, 255));
    // far from every line nothing is drawn
    assert_eq!(img.get_pixel(30, 30), Pixel(0, 0, 0, 0));
}

#[test]
fn text_overlay_marks_origin_in_green() {
    let mut img = Image::filled(100, 60, Pixel(0, 0, 0, 0));
    let parsed = parse_descript("origin.x,20\norigin.y,15\n");
    let vr = ValidRect { left: 10, top: 10, right: 90, bottom: 50 };
    draw_overlay(&mut img, &parsed, vr, false);
    assert_eq!(img.get_pixel(30, 25), Pixel(0, 200, 0, 255));
}

#[test]
fn input_box_overlay() {
    let mut img = Image::filled(200, 100, Pixel(0, 0, 0, 0));
    let parsed = parse_descript("communicatebox.x,20\ncommunicatebox.y,-40\ncommunicatebox.width,50\n");
    let vr = ValidRect { left: 0, top: 0, right: 0, bottom: 0 };
    draw_overlay(&mut img, &parsed, vr, true);
    // box from (20, 60) to (69, 89)
    assert_eq!(img.get_pixel(20, 60), Pixel(255, 0, 0, 255));
    assert_eq!(img.get_pixel(69, 89), Pixel(255, 0, 0, 255));
    assert_eq!(img.get_pixel(40, 75), Pixel(0, 0, 0, 0));
}

#[test]
fn text_bitmap_is_blended_by_darkness() {
    let mut img = Image::filled(3, 2, Pixel(0, 0, 0, 0));
    // a 2 x 2 bitmap in rows of 3: black, white / white, grey
    let raw = [0x000000u32, 0xFFFFFF, 0xABCDEF, 0xFFFFFF, 0x808080, 0];
    paste_alpha_raw(&mut img, &raw, 3, 2, 2, 1, 0, Rgb(10, 20, 30));
    assert_eq!(img.get_pixel(1, 0), Pixel(10, 20, 30, 255));
    assert_eq!(img.get_pixel(2, 0), Pixel(0, 0, 0, 0));
    assert_eq!(img.get_pixel(1, 1), Pixel(0, 0, 0, 0));
    // grey 0x80: luminance 128, opacity 127
    assert_eq!(img.get_pixel(2, 1), Pixel(10, 20, 30, 127));
    assert_eq!(img.get_pixel(0, 0), Pixel(0, 0, 0, 0));
}

#[test]
fn part_sizes_give_default_positions() {
    let mut parts = StringHashMap::new();
    parts.insert("arrow0.png".to_string(), (12u32, 8u32));
    parts.insert("arrow1.png".to_string(), (14u32, 9u32));
    parts.insert("sstp.png".to_string(), (20u32, 11u32));
    parts.insert("online0.png".to_string(), (31u32, 7u32));
    let d = rebuild_dynamic_defaults(&parts, Some((200, 100)));
    let get = |k: &str| d.get(k).map(|s| s.as_str().to_string());
    assert_eq!(get("arrow0.x").as_deref(), Some("-17"));
    assert_eq!(get("arrow1.x").as_deref(), Some("-19"));
    assert_eq!(get("arrow1.y").as_deref(), Some("-14"));
    assert_eq!(get("clickwaitmarker.x").as_deref(), Some("-19"));
    assert_eq!(get("clickwaitmarker.y").as_deref(), Some("-14"));
    assert_eq!(get("sstpmarker.y").as_deref(), Some("-16"));
    assert_eq!(get("onlinemarker.x").as_deref(), Some("84"));
    assert_eq!(get("onlinemarker.y").as_deref(), Some("93"));
    let none = rebuild_dynamic_defaults(&StringHashMap::new(), None);
    assert!(none.get("arrow0.x").is_none());
}

#[test]
fn online_marker_centres_a_wide_marker() {
    let mut parts = StringHashMap::new();
    parts.insert("online0.png".to_string(), (105u32, 7u32));
    parts.insert("clickwait.png".to_string(), (6u32, 4u32));
    let d = rebuild_dynamic_defaults(&parts, Some((100, 50)));
    assert_eq!(d.get("onlinemarker.x").map(|s| s.as_str()), Some("-2"));
    assert_eq!(d.get("clickwaitmarker.x").map(|s| s.as_str()), Some("-16"));
    assert_eq!(d.get("clickwaitmarker.y").map(|s| s.as_str()), Some("-14"));
}

#[test]
fn layers_are_tinted_by_type() {
    let cs = ColorSet::new(Rgb(1, 1, 1), Rgb(2, 2, 2), Rgb(3, 3, 3), Rgb(4, 4, 4));
    assert_eq!(layer_tint(ColorType::Edge, &cs), Some(Rgb(2, 2, 2)));
    assert_eq!(layer_tint(ColorType::NoColor, &cs), None);
    let img = Image::filled(1, 1, Pixel(9, 9, 9, 77));
    assert_eq!(tint_layer(&img, ColorType::Text, &cs).get_pixel(0, 0), Pixel(3, 3, 3, 77));
    assert_eq!(tint_layer(&img, ColorType::NoColor, &cs).get_pixel(0, 0), Pixel(9, 9, 9, 77));
    let mut off = cs;
    off.no_color = true;
    assert_eq!(tint_layer(&img, ColorType::Base, &off).get_pixel(0, 0), Pixel(9, 9, 9, 77));
}

#[test]
fn part_colours_by_prefix() {
    let entries = vec![
        ("all".to_string(), Rgb(1, 1, 1)),
        ("arrow".to_string(), Rgb(2, 2, 2)),
        ("sstp".to_string(), Rgb(3, 3, 3)),
    ];
    assert_eq!(part_color("arrow0", &entries, Rgb(9, 9, 9)), Rgb(2, 2, 2));
    assert_eq!(part_color("clickwait", &entries, Rgb(9, 9, 9)), Rgb(1, 1, 1));
    assert_eq!(part_color("clickwait", &Vec::new(), Rgb(9, 9, 9)), Rgb(9, 9, 9));
}

#[test]
fn project_files_to_take_over() {
    assert_eq!(file_action("balloons0.PNG"), FileAction::Copy);
    assert_eq!(file_action("balloons0.pna"), FileAction::Copy);
    assert_eq!(file_action("descript.txt"), FileAction::ConvertText);
    assert_eq!(file_action("FILES.TXT"), FileAction::ConvertToLayout);
    assert_eq!(file_action("updates.txt"), FileAction::Skip);
    assert_eq!(file_action("thumbs.db"), FileAction::Skip);
    assert_eq!(file_action(".txt"), FileAction::Skip);
    assert_eq!(file_action("noext"), FileAction::Skip);
    assert_eq!(profile_file_action("slbe_files.TXT"), FileAction::ConvertText);
    assert_eq!(profile_file_action("slbe_profile.json"), FileAction::Copy);
}
