use balloon_editor::descript::parse_descript;
use balloon_editor::editing::{
    can_have_individual_config, comment_out_balloon_in_files_txt, defined_in_files_txt, get_install_directory_name,
    is_balloonc, rebuild_basic_info, remove_balloon_lines,
};
use balloon_editor::encoding::{
    blendmethod_warnings, detect_charset_from_bytes, encoding_status, strip_unc_prefix, utf8_conversion,
    EncodingStatus,
};
use balloon_editor::fonts::{build_valid_rect, get_color, is_bitmap_font, normalize_font_key, normalize_font_name_for_match, ValidRect};
use balloon_editor::color::Rgb;

#[test]
fn commenting_out_a_balloon_definition() {
    let text = "balloons0,a.png:base\n  balloons0,b.png:edge\n//balloons0,c.png:base\nballoons01,d.png:base\n";
    assert_eq!(
        comment_out_balloon_in_files_txt(text, "balloons0"),
        "//balloons0,a.png:base\n//  balloons0,b.png:edge\n//balloons0,c.png:base\nballoons01,d.png:base\n"
    );
    assert_eq!(comment_out_balloon_in_files_txt("", "balloons0"), "");
}

#[test]
fn removing_a_balloon_definition() {
    let text = "// balloons0,x.png:base\nballoons0 ,a.png:base\n\nballoonk0,b.png:base";
    assert_eq!(remove_balloon_lines(text, "balloons0"), "// balloons0,x.png:base\n\nballoonk0,b.png:base\n");
    assert_eq!(remove_balloon_lines("", "balloons0"), "");
}

#[test]
fn definition_lookup() {
    let text = "// balloonk1,x.png:base\nballoons0,a.png:base\n";
    assert!(defined_in_files_txt(text, "balloons0"));
    assert!(!defined_in_files_txt(text, "balloonk1"));
    assert!(!defined_in_files_txt(text, "balloons"));
}

#[test]
fn individual_settings_only_for_known_balloons() {
    assert!(can_have_individual_config("balloons0"));
    assert!(can_have_individual_config("balloonk3"));
    assert!(can_have_individual_config("balloonc1"));
    assert!(can_have_individual_config("balloonp2def0"));
    assert!(!can_have_individual_config("balloonp2"));
    assert!(!can_have_individual_config(""));
    assert!(!can_have_individual_config("thumbnail"));
}

#[test]
fn input_box_balloons() {
    assert!(is_balloonc("balloonc2.png"));
    assert!(is_balloonc("balloonc"));
    assert!(!is_balloonc("balloons0.png"));
}

#[test]
fn install_folder_from_descript() {
    assert_eq!(get_install_directory_name("directory,mine\n"), Some("mine".to_string()));
    assert_eq!(get_install_directory_name("name,x\n"), None);
    assert_eq!(get_install_directory_name(""), None);
}

#[test]
fn basic_info_prefers_descript_name() {
    let b = rebuild_basic_info("name,A\ncraftman,me\n", "name,B\ndirectory,dir\n");
    assert_eq!(b.info.get("name").map(|s| s.as_str()), Some("A"));
    assert_eq!(b.info.get("craftman").map(|s| s.as_str()), Some("me"));
    assert_eq!(b.info.get("directory").map(|s| s.as_str()), Some("dir"));
    assert_eq!(
        b.warning.as_deref(),
        Some("descript.txt と install.txt の name が食い違っています。\ndescript.txt: \"A\"\ninstall.txt: \"B\"\ndescript.txt 側の値を採用します。")
    );
    assert_eq!(b.install_text.as_deref(), Some("name,A\ndirectory,dir\n"));

    let same = rebuild_basic_info("name,A\n", "name,A\n");
    assert!(same.warning.is_none());
    assert!(same.install_text.is_none());
}

#[test]
fn charset_line_detection() {
    assert_eq!(detect_charset_from_bytes(b"// charset,x\r\ncharset, Shift_JIS \r\nname,a"), Some("Shift_JIS".to_string()));
    assert_eq!(detect_charset_from_bytes(b"name,a\n"), None);
    assert_eq!(detect_charset_from_bytes(b"charset,\ncharset,UTF-8\n"), Some("UTF-8".to_string()));
}

#[test]
fn conversion_of_shift_jis_text() {
    // "charset,Shift_JIS\n" followed by "あ" in Shift_JIS (0x82 0xA0)
    let mut bytes = b"charset,Shift_JIS\n".to_vec();
    bytes.extend_from_slice(&[0x82, 0xA0]);
    assert_eq!(utf8_conversion(&bytes), Some("charset,Shift_JIS\nあ".to_string()));
    // without a charset line Shift_JIS is assumed
    assert_eq!(utf8_conversion(&[0x82, 0xA0]), Some("あ".to_string()));
    // UTF-8 (with or without BOM) is copied as it is
    assert_eq!(utf8_conversion("あ".as_bytes()), None);
    assert_eq!(utf8_conversion(b"\xEF\xBB\xBFabc"), None);
}

#[test]
fn encoding_checks() {
    assert!(matches!(encoding_status(b"name,a\ncharset,UTF-8\n"), EncodingStatus::Clean));
    assert!(matches!(encoding_status(&[0x82, 0xA0]), EncodingStatus::NonUtf8Bytes));
    match encoding_status(b"// charset,x\n  charset, Shift_JIS \n") {
        EncodingStatus::NonUtf8Charset(cs) => assert_eq!(cs, "Shift_JIS"),
        _ => panic!("expected a foreign charset"),
    }
    assert!(matches!(encoding_status(b"\xEF\xBB\xBFcharset,utf8\n"), EncodingStatus::Clean));
}

#[test]
fn blend_method_warnings() {
    let text = "cursor.blendmethod,Xor\nanchor.blendmethod,copypen\n//cursor.blendmethod,and\nanchor.blendmethod , NONE\n";
    assert_eq!(blendmethod_warnings(text), vec!["cursor.blendmethod=Xor (このアプリでは描画を再現できません)".to_string()]);
    assert!(blendmethod_warnings("name,x\n").is_empty());
}

#[test]
fn long_path_prefix_is_dropped() {
    assert_eq!(strip_unc_prefix("\\\\?\\C:\\a"), "C:\\a");
    assert_eq!(strip_unc_prefix("C:\\a"), "C:\\a");
}

#[test]
fn font_keys_and_bitmap_fonts() {
    assert_eq!(normalize_font_key("MS Gothic-Bold_1"), "msgothicbold_1");
    assert!(normalize_font_name_for_match("ＭＳ ゴシック"));
    assert!(normalize_font_name_for_match("MS Mincho"));
    assert!(!normalize_font_name_for_match("Meiryo"));
    assert!(is_bitmap_font("MS PGothic, Meiryo"));
    assert!(!is_bitmap_font("Meiryo, MS Gothic"));
}

#[test]
fn text_area_and_colours_from_descript() {
    let p = parse_descript("validrect.left,5\nvalidrect.bottom,-20\nfont.color,#102030\nanchor.font.color.r,1\nanchor.font.color.g,2\nanchor.font.color.b,3\nx.color,none\n");
    assert_eq!(build_valid_rect(&p, 200, 100), ValidRect { left: 5, top: 10, right: 190, bottom: 80 });
    assert_eq!(get_color(&p, "font.color"), Some(Rgb(16, 32, 48)));
    assert_eq!(get_color(&p, "anchor.font.color"), Some(Rgb(1, 2, 3)));
    assert_eq!(get_color(&p, "x.color"), None);
    assert_eq!(get_color(&p, "missing"), None);
}
