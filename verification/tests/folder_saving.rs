use balloon_editor::color::Rgb;
use balloon_editor::folder::{balloon_stems, config_file_name, part_files, preview_balloons};
use balloon_editor::layout::parse_balloon_layout;
use balloon_editor::profile::{editor_colors, IndividualColors, ProjectProfile};
use balloon_editor::saving::{individual_config_save, layout_file_save, SaveAction};

fn strings(v: &[&str]) -> Vec<String> {
    v.iter().map(|s| s.to_string()).collect()
}

#[test]
fn balloon_stems_keep_png_balloons_only() {
    let files = strings(&[
        "balloonk0.png",
        "balloonk0.pna",
        "balloons1.PNG",
        "arrow0.png",
        "balloon.txt",
        ".png",
        "balloonc2.png",
    ]);
    assert_eq!(balloon_stems(&files), strings(&["balloonk0", "balloonc2"]));
}

#[test]
fn part_files_pick_known_prefixes() {
    let files = strings(&[
        "arrow0.png",
        "marker.png",
        "online0.png",
        "sstp.png",
        "clickwait.png",
        "ok_up.png",
        "cancel_down.png",
        "mode_a.png",
        "balloonk0.png",
        "arrow1.pna",
        "thumbnail.png",
    ]);
    assert_eq!(
        part_files(&files),
        strings(&[
            "arrow0.png",
            "marker.png",
            "online0.png",
            "sstp.png",
            "clickwait.png",
            "ok_up.png",
            "cancel_down.png",
            "mode_a.png",
        ])
    );
}

#[test]
fn preview_list_joins_layout_partners_and_files() {
    let present = strings(&["a.png"]);
    let layout = parse_balloon_layout("balloons0,a.png:base\nballoonk2,a.png:edge\n", &present).unwrap();
    let found = strings(&["balloonc1", "balloons0"]);
    let list = preview_balloons(&layout, true, &found);
    assert_eq!(list, strings(&["balloons0", "balloons1", "balloonk2", "balloonk3", "balloonc1"]));
    let no_flip = preview_balloons(&layout, false, &found);
    assert_eq!(no_flip, strings(&["balloons0", "balloonk2", "balloonc1"]));
}

#[test]
fn config_file_name_appends_s_txt() {
    assert_eq!(config_file_name("balloonk3"), "balloonk3s.txt");
}

#[test]
fn individual_config_keeps_only_differences() {
    let descript = "font.height,12\nfont.color.r,0\n";
    match individual_config_save(Some("font.height,12\nfont.color.r,255\n"), descript) {
        SaveAction::Write(t) => assert_eq!(t, "font.color.r,255\n"),
        SaveAction::Remove => panic!("expected a write"),
    }
    assert!(matches!(individual_config_save(Some("font.height,12\n"), descript), SaveAction::Remove));
    assert!(matches!(individual_config_save(Some("  \n"), descript), SaveAction::Remove));
    assert!(matches!(individual_config_save(None, descript), SaveAction::Remove));
}

#[test]
fn layout_file_blank_is_removed() {
    assert!(matches!(layout_file_save(" \n "), SaveAction::Remove));
    match layout_file_save("balloons0,a.png:base\n") {
        SaveAction::Write(t) => assert_eq!(t, "balloons0,a.png:base\n"),
        SaveAction::Remove => panic!("expected a write"),
    }
}

#[test]
fn editor_colors_fill_defaults() {
    let p = ProjectProfile::default();
    let c = editor_colors(&p);
    assert_eq!(*c.layer_colors.get("base").unwrap(), Rgb(180, 210, 255));
    assert_eq!(*c.layer_colors.get("edge").unwrap(), Rgb(255, 255, 255));
    assert_eq!(*c.layer_colors.get("text").unwrap(), Rgb(29, 106, 184));
    assert_eq!(*c.layer_colors.get("parts").unwrap(), Rgb(29, 106, 184));
    assert_eq!(c.parts_colors, vec![("all".to_string(), Rgb(29, 106, 184))]);
    assert!(c.individual_colors.is_empty());
}

#[test]
fn editor_colors_take_profile_values() {
    let mut p = ProjectProfile::default();
    p.layer_colors.push(("parts".to_string(), [1, 2, 3]));
    p.parts_colors.push(("arrow".to_string(), [9, 9, 9]));
    p.individual_colors.push((
        "balloonk0s.txt".to_string(),
        IndividualColors { base: Some([4, 5, 6]), edge: None, text: None, parts_colors: vec![("all".to_string(), [7, 7, 7])] },
    ));
    let c = editor_colors(&p);
    assert_eq!(*c.layer_colors.get("parts").unwrap(), Rgb(1, 2, 3));
    assert_eq!(c.parts_colors, vec![("arrow".to_string(), Rgb(9, 9, 9))]);
    let ic = c.individual_colors.get("balloonk0s.txt").unwrap();
    assert_eq!(ic.base, Some(Rgb(4, 5, 6)));
    assert_eq!(ic.edge, None);
    assert_eq!(*ic.parts_colors.get("all").unwrap(), Rgb(7, 7, 7));
}

use balloon_editor::descript::parse_descript;
use balloon_editor::fonts::build_valid_rect;
use balloon_editor::markers::{marker_placements, paste_parts};
use balloon_editor::overlay::overlay_fits;
use balloon_editor::raster::{Image, Pixel};
use balloon_editor::StringHashMap;

fn sizes_of(v: &[(&str, u32, u32)]) -> StringHashMap<(u32, u32)> {
    let mut m = StringHashMap::new();
    for (n, w, h) in v {
        m.insert(n.to_string(), (*w, *h));
    }
    m
}

#[test]
fn markers_default_positions() {
    let parsed = parse_descript("");
    let sizes = sizes_of(&[
        ("arrow0.png", 10, 8),
        ("arrow1.png", 10, 8),
        ("online0.png", 20, 6),
        ("sstp.png", 12, 4),
        ("clickwait.png", 7, 9),
    ]);
    let places = marker_placements(&parsed, &sizes, "balloons0.png", 200, 100);
    assert_eq!(
        places,
        vec![
            ("arrow0.png".to_string(), 185, 5),
            ("arrow1.png".to_string(), 185, 87),
            ("online0.png".to_string(), 90, 94),
            ("sstp.png".to_string(), 5, 91),
            ("clickwait.png".to_string(), 183, 81),
        ]
    );
}

#[test]
fn markers_prefer_the_balloons_own_images() {
    let parsed = parse_descript("arrow0.x,3\narrow0.y,-20\nonlinemarker.x,-1\n");
    let sizes = sizes_of(&[
        ("arrow0.png", 10, 8),
        ("arrowk0.png", 4, 4),
        ("arrowp2def0.png", 6, 6),
        ("clickwaitp2def.png", 5, 5),
        ("clickwait.png", 7, 9),
        ("online0.png", 30, 6),
        ("sstp_new.png", 3, 3),
        ("sstp.png", 12, 4),
    ]);
    let k = marker_placements(&parsed, &sizes, "balloonk1.png", 100, 50);
    assert_eq!(k[0], ("arrowk0.png".to_string(), 3, 30));
    let p = marker_placements(&parsed, &sizes, "balloonp2def0.png", 100, 50);
    assert_eq!(p[0], ("arrowp2def0.png".to_string(), 3, 30));
    assert_eq!(p[1], ("online0.png".to_string(), 99, 44));
    assert_eq!(p[2], ("sstp_new.png".to_string(), 5, 42));
    assert_eq!(p[3], ("clickwaitp2def.png".to_string(), 85, 35));
    let s = marker_placements(&parsed, &sizes, "balloons0.png", 100, 50);
    assert_eq!(s[3], ("clickwait.png".to_string(), 83, 31));
}

#[test]
fn paste_parts_blends_in_order() {
    let mut img = Image::new(4, 4);
    let mut red = Image::new(2, 2);
    for y in 0..2 {
        for x in 0..2 {
            red.put_pixel(x, y, Pixel(255, 0, 0, 255));
        }
    }
    let mut parts: StringHashMap<Image> = StringHashMap::new();
    parts.insert("arrow0.png".to_string(), red);
    let places = vec![("arrow0.png".to_string(), 3, 3)];
    paste_parts(&mut img, &parts, &places);
    assert_eq!(img.get_pixel(3, 3), Pixel(255, 0, 0, 255));
    assert_eq!(img.get_pixel(2, 2), Pixel(0, 0, 0, 0));
}

#[test]
fn overlay_fits_ordinary_balloon() {
    let parsed = parse_descript("validrect.left,10\nvalidrect.right,-10\n");
    let vr = build_valid_rect(&parsed, 200, 100);
    assert!(overlay_fits(&parsed, vr, false, 200, 100));
    let far = parse_descript("origin.x,2147483647\n");
    let vr2 = build_valid_rect(&far, 200, 100);
    assert!(!overlay_fits(&far, vr2, false, 200, 100));
}

use balloon_editor::inputbox::{
    draw_input_box, input_box_colors, input_box_drawable, input_box_plan, ButtonDraw, ButtonImage,
};

#[test]
fn input_box_plan_with_fallback_buttons() {
    let parsed = parse_descript("");
    let sizes = sizes_of(&[]);
    let plan = input_box_plan(&parsed, &sizes, "balloonc0.png", 200, 100).unwrap();
    assert_eq!((plan.x0, plan.y0, plan.x1, plan.y1), (10, 10, 50, 40));
    assert_eq!(plan.buttons, vec![ButtonDraw::Square(50, 10, 80, 40), ButtonDraw::Square(80, 10, 110, 40)]);
}

#[test]
fn input_box_plan_with_button_images() {
    let parsed = parse_descript("");
    let sizes = sizes_of(&[("ok_up.png", 20, 10), ("cancel_up.png", 25, 12)]);
    let plan = input_box_plan(&parsed, &sizes, "balloonc1.png", 200, 100).unwrap();
    assert_eq!((plan.x0, plan.x1), (10, 65));
    assert_eq!(
        plan.buttons,
        vec![ButtonDraw::Pasted(ButtonImage::Accept, 65, 20), ButtonDraw::Pasted(ButtonImage::Cancel, 85, 19)]
    );
}

#[test]
fn input_box_plan_fifth_box_has_mode_button() {
    let parsed = parse_descript("");
    let sizes = sizes_of(&[]);
    let plan = input_box_plan(&parsed, &sizes, "balloonc4.png", 200, 100).unwrap();
    assert_eq!((plan.x0, plan.y0, plan.x1, plan.y1), (70, 10, 80, 40));
    assert_eq!(plan.buttons, vec![ButtonDraw::Pentagon(10, 10, 70, 40), ButtonDraw::Square(80, 10, 110, 40)]);
}

#[test]
fn input_box_plan_empty_box() {
    let parsed = parse_descript("communicatebox.width,0\n");
    assert!(input_box_plan(&parsed, &sizes_of(&[]), "balloonc0.png", 200, 100).is_none());
}

#[test]
fn input_box_drawing() {
    let parsed = parse_descript(
        "communicatebox.x,2\ncommunicatebox.y,2\ncommunicatebox.width,16\ncommunicatebox.height,6\n\
         communicatebox.background.color,#FF0000\n",
    );
    let plan = input_box_plan(&parsed, &sizes_of(&[]), "balloonc0.png", 20, 10).unwrap();
    assert_eq!((plan.x0, plan.y0, plan.x1, plan.y1), (2, 2, 6, 8));
    let parts: StringHashMap<Image> = StringHashMap::new();
    assert!(input_box_drawable(&plan, &parts));
    let (bg, fc) = input_box_colors(&parsed);
    assert_eq!((bg, fc), (Rgb(255, 0, 0), Rgb(0, 0, 0)));
    let mut img = Image::new(20, 10);
    draw_input_box(&mut img, &plan, &parts, bg, fc);
    assert_eq!(img.get_pixel(3, 4), Pixel(255, 0, 0, 255));
    assert_eq!(img.get_pixel(2, 4), Pixel(255, 255, 255, 255));
    assert_eq!(img.get_pixel(3, 7), Pixel(0, 0, 255, 255));
    assert_eq!(img.get_pixel(3, 2), Pixel(255, 255, 255, 255));
    assert_eq!(img.get_pixel(6, 4), Pixel(0, 0, 0, 180));
    assert_eq!(img.get_pixel(8, 4), Pixel(0, 0, 0, 0));
}

use balloon_editor::shapes::{draw_input_border, draw_line, draw_pentagon};

#[test]
fn bresenham_line_points() {
    let mut img = Image::new(5, 5);
    draw_line(&mut img, 0, 0, 4, 2, Rgb(1, 2, 3), 255);
    for (x, y) in [(0, 0), (1, 0), (2, 1), (3, 1), (4, 2)] {
        assert_eq!(img.get_pixel(x, y), Pixel(1, 2, 3, 255));
    }
    assert_eq!(img.get_pixel(2, 0), Pixel(0, 0, 0, 0));
    assert_eq!(img.get_pixel(1, 1), Pixel(0, 0, 0, 0));
}

#[test]
fn pentagon_and_border_outlines() {
    let mut img = Image::new(30, 12);
    draw_pentagon(&mut img, 0, 0, 20, 10, Rgb(9, 9, 9), 200);
    assert_eq!(img.get_pixel(0, 5), Pixel(9, 9, 9, 200));
    assert_eq!(img.get_pixel(19, 5), Pixel(9, 9, 9, 200));
    assert_eq!(img.get_pixel(15, 0), Pixel(9, 9, 9, 200));
    assert_eq!(img.get_pixel(10, 5), Pixel(0, 0, 0, 0));
    let mut b = Image::new(6, 6);
    draw_input_border(&mut b, 1, 1, 5, 5);
    assert_eq!(b.get_pixel(1, 4), Pixel(255, 255, 255, 255));
    assert_eq!(b.get_pixel(2, 4), Pixel(0, 0, 255, 255));
    assert_eq!(b.get_pixel(2, 1), Pixel(255, 255, 255, 255));
    assert_eq!(b.get_pixel(2, 2), Pixel(0, 0, 0, 0));
}
