use balloon_editor::layout::{is_direct_image_mode, parse_balloon_layout, ColorType, Layout};
use balloon_editor::naming::{
    add_captured_family, detect_direct_balloons, even_name_of, flip_map_of_families, flip_source_of, make_odd_flip_sources, odd_name_of, sort_key, sort_key_from_captures, sort_names,
};

fn strings(v: &[&str]) -> Vec<String> {
    v.iter().map(|s| s.to_string()).collect()
}

#[test]
fn layout_reads_layers_in_order() {
    let text = "balloons0,base.png:base,edge.png:EDGE\n// balloons1,x.png:base\n\nballoonk1, text.png : Text \n";
    let present = strings(&["base.png", "edge.png", "text.png"]);
    let l = parse_balloon_layout(text, &present).unwrap();
    assert_eq!(l.len(), 2);
    assert_eq!(
        l.get("balloons0").unwrap(),
        &vec![("base.png".to_string(), ColorType::Base), ("edge.png".to_string(), ColorType::Edge)]
    );
    assert_eq!(l.get("balloonk1").unwrap(), &vec![("text.png".to_string(), ColorType::Text)]);
    assert!(!l.contains_key("balloons1"));
    assert!(!is_direct_image_mode(&l));
}

#[test]
fn layout_later_line_replaces_earlier() {
    let present = strings(&["a.png", "b.png"]);
    let l = parse_balloon_layout("balloons0,a.png:base\nballoons0,b.png:none\n", &present).unwrap();
    assert_eq!(l.len(), 1);
    assert_eq!(l.get("balloons0").unwrap(), &vec![("b.png".to_string(), ColorType::NoColor)]);
}

#[test]
fn layout_missing_file_is_an_error() {
    let err = parse_balloon_layout("balloons0,a.png:base", &Vec::new()).unwrap_err();
    assert_eq!(err, "slbe_files.txt にエラーがあります:\n\n  • 行1 [balloons0]: ファイルが見つかりません → a.png");
}

#[test]
fn layout_lists_every_error() {
    let present = strings(&["a.png"]);
    let text = ",a.png:base\nballoons0\nballoonk0,a.png:blue\nballoonk1,../a.png:base\nballoonk2,a.png\n";
    let err = parse_balloon_layout(text, &present).unwrap_err();
    let expected = "slbe_files.txt にエラーがあります:\n\n".to_string()
        + "  • 行1: バルーン名が空です。\n"
        + "  • 行2 [balloons0]: レイヤー指定がありません。書式: balloonNAME,file.png:color_type,...\n"
        + "  • 行3 [balloonk0]: 不明な color_type 「blue」。使用可能: base, edge, text, none\n"
        + "  • 行4 [balloonk1]: 不正なファイル名 → ../a.png\n"
        + "  • 行5 [balloonk2]: 「a.png」に color_type がありません。書式: ファイル名.png:color_type";
    assert_eq!(err, expected);
}

#[test]
fn empty_layout_is_direct_mode() {
    let l = parse_balloon_layout("// nothing\n\n", &Vec::new()).unwrap();
    assert!(l.is_empty());
    assert!(is_direct_image_mode(&l));
    assert!(is_direct_image_mode(&Layout::new()));
}

#[test]
fn color_type_reads_any_case() {
    assert_eq!(ColorType::parse("BASE"), Ok(ColorType::Base));
    assert_eq!(ColorType::parse("Edge"), Ok(ColorType::Edge));
    assert_eq!(ColorType::parse("text"), Ok(ColorType::Text));
    assert_eq!(ColorType::parse("NONE"), Ok(ColorType::NoColor));
    assert_eq!(
        ColorType::parse("Blue"),
        Err("不明な color_type 「blue」。使用可能: base, edge, text, none".to_string())
    );
}

#[test]
fn sort_keys_by_kind() {
    assert_eq!(sort_key("balloons3"), (0, 0, 3, 0));
    assert_eq!(sort_key("balloonk12"), (1, 0, 12, 0));
    assert_eq!(sort_key("balloonp2def3"), (2, 2, 0, 3));
    assert_eq!(sort_key("balloonc1"), (3, 0, 1, 0));
    assert_eq!(sort_key("balloonsx"), (0, 0, 999, 0));
    assert_eq!(sort_key("balloonpxdef3"), (4, 0, 0, 0));
    assert_eq!(sort_key("thumbnail"), (4, 0, 0, 0));
}

#[test]
fn sort_names_orders_by_key() {
    let sorted = sort_names(&strings(&["balloonc0", "balloonk1", "balloons10", "balloonp2def0", "balloons2"]));
    assert_eq!(sorted, strings(&["balloons2", "balloons10", "balloonk1", "balloonp2def0", "balloonc0"]));
}

#[test]
fn odd_partners_are_filled_in() {
    let present = strings(&["a.png"]);
    let text = "balloons0,a.png:base\nballoonk1,a.png:base\nballoonp2def0,a.png:base\nballoons2,a.png:base\nballoons3,a.png:base\n";
    let l = parse_balloon_layout(text, &present).unwrap();
    let m = make_odd_flip_sources(&l, true);
    assert_eq!(m.len(), 3);
    assert_eq!(m.get("balloons1").map(|s| s.as_str()), Some("balloons0"));
    assert_eq!(m.get("balloonk0").map(|s| s.as_str()), Some("balloonk1"));
    assert_eq!(m.get("balloonp2def1").map(|s| s.as_str()), Some("balloonp2def0"));
    assert!(!m.contains_key("balloons2"));
    assert_eq!(make_odd_flip_sources(&l, false).len(), 0);
}

#[test]
fn direct_balloons_with_partners() {
    let found = strings(&["balloons0", "balloonk1", "balloonp3def2", "balloonc0"]);
    let all = detect_direct_balloons(&found, true);
    assert_eq!(
        all,
        strings(&["balloons0", "balloons1", "balloonk0", "balloonk1", "balloonp3def2", "balloonp3def3", "balloonc0"])
    );
    let plain = detect_direct_balloons(&found, false);
    assert_eq!(plain, strings(&["balloons0", "balloonk1", "balloonp3def2", "balloonc0"]));
}

#[test]
fn partner_names() {
    assert_eq!(even_name_of("balloons3"), "balloons2");
    assert_eq!(odd_name_of("balloons2"), "balloons3");
    assert_eq!(even_name_of("balloonk4"), "balloonk4");
    assert_eq!(odd_name_of("balloonk4"), "balloonk5");
    assert_eq!(flip_source_of("balloonk5"), Some("balloonk4".to_string()));
    assert_eq!(flip_source_of("balloons0"), Some("balloons1".to_string()));
    assert_eq!(flip_source_of("balloonc1"), None);
}

fn groups(gs: &[&str]) -> Option<Vec<String>> {
    Some(gs.iter().map(|g| g.to_string()).collect())
}

#[test]
fn sort_key_reads_the_pdef_groups() {
    assert_eq!(sort_key_from_captures("balloonp3def12", groups(&["balloonp3def12", "3", "12"])), (2, 3, 0, 12));
    assert_eq!(sort_key_from_captures("balloonp3defx", groups(&["balloonp3defx", "3", "x"])), (2, 3, 0, 0));
    assert_eq!(sort_key_from_captures("balloonc2", None), (3, 0, 2, 0));
    assert_eq!(sort_key_from_captures("balloons7", groups(&[])), (0, 0, 7, 0));
    assert_eq!(sort_key_from_captures("balloonkx", None), (1, 0, 999, 0));
    assert_eq!(sort_key_from_captures("other", None), (4, 0, 0, 0));
}

#[test]
fn families_grow_to_their_largest_number() {
    let mut fams: Vec<(String, u32)> = Vec::new();
    add_captured_family(&mut fams, groups(&["balloons3", "balloons", "3"]));
    add_captured_family(&mut fams, groups(&["balloonk1", "balloonk", "1"]));
    add_captured_family(&mut fams, groups(&["balloons5", "balloons", "5"]));
    add_captured_family(&mut fams, groups(&["balloons2", "balloons", "2"]));
    add_captured_family(&mut fams, None);
    add_captured_family(&mut fams, groups(&["x", "y"]));
    assert_eq!(fams, vec![("balloons".to_string(), 5), ("balloonk".to_string(), 1)]);
}

#[test]
fn families_pair_up_their_numbers() {
    let names = strings(&["balloons0", "balloons3", "balloonp2def1", "balloonx0"]);
    let fams = vec![("balloons".to_string(), 3u32), ("balloonp2def".to_string(), 1u32)];
    let m = flip_map_of_families(&names, &fams);
    assert_eq!(m.len(), 3);
    assert_eq!(m.get("balloons1").map(|s| s.as_str()), Some("balloons0"));
    assert_eq!(m.get("balloons2").map(|s| s.as_str()), Some("balloons3"));
    assert_eq!(m.get("balloonp2def0").map(|s| s.as_str()), Some("balloonp2def1"));
    assert_eq!(flip_map_of_families(&names, &Vec::new()).len(), 0);
}
