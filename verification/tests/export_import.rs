use balloon_editor::descript::parse_descript;
use balloon_editor::editing::{get_import_target_filename, ImportChoice};
use balloon_editor::export::{
    export_descript_text, export_dir_name, is_extra_asset, missing_export_fields, readme_name, ExportField,
};
use balloon_editor::importing::{preset_import_choice, preset_import_from_names};

fn blank_choice() -> ImportChoice {
    ImportChoice {
        category: "free".to_string(),
        is_scope_specific: false,
        scope_num: 0,
        target_id_num: 0,
        arrow_dir: 0,
        balloonc_id: 0,
        inputbtn_kind: "ok".to_string(),
        inputbtn_state: "normal".to_string(),
        custom_filename: String::new(),
    }
}

fn guess(stem: &str, file: &str) -> ImportChoice {
    let mut c = blank_choice();
    preset_import_choice(&mut c, stem, file);
    c
}

#[test]
fn export_needs_name_and_folder() {
    let info = parse_descript("name, \ncraftman,me\n");
    assert_eq!(missing_export_fields(&info), vec![ExportField::BalloonName, ExportField::InstallDirectory]);
    let ok = parse_descript("name,Ballo\ndirectory,ballo\n");
    assert!(missing_export_fields(&ok).is_empty());
    let no_dir = parse_descript("name,Ballo\n");
    assert_eq!(missing_export_fields(&no_dir), vec![ExportField::InstallDirectory]);
}

#[test]
fn export_folder_name_sources() {
    assert_eq!(export_dir_name("directory,fromi\n", "directory,fromd\n", "folder"), "fromi");
    assert_eq!(export_dir_name("name,x\n", "directory,fromd\n", "folder"), "fromd");
    assert_eq!(export_dir_name("", "", "folder"), "folder");
}

#[test]
fn export_readme_name() {
    assert_eq!(readme_name("readme,説明.txt\n"), "説明.txt");
    assert_eq!(readme_name("name,x\n"), "readme.txt");
}

#[test]
fn export_forces_alpha_keys() {
    let out = export_descript_text("use_self_alpha,0\n//use_input_alpha,0\nname,x\n");
    assert_eq!(out, "use_self_alpha,1\nuse_input_alpha,1\nname,x\noverlay_outside_balloon,1\n");
    let p = parse_descript(&out);
    for k in ["use_self_alpha", "use_input_alpha", "overlay_outside_balloon"] {
        assert_eq!(p.get(k).map(|s| s.as_str()), Some("1"), "{k}");
    }
}

#[test]
fn extra_assets_copied_on_export() {
    let written = vec!["balloons0.png".to_string(), "descript.txt".to_string()];
    assert!(is_extra_asset("Thumbnail.PNG", &written));
    assert!(is_extra_asset("cursor.jpeg", &written));
    assert!(!is_extra_asset("Balloons0.png", &written));
    assert!(!is_extra_asset("readme.txt", &written));
    assert!(!is_extra_asset("balloons1.pna", &written));
    assert!(!is_extra_asset("notes.doc", &written));
}

#[test]
fn import_guesses_balloons() {
    let c = guess("balloonk12", "balloonk12.png");
    assert_eq!(c.category, "balloon");
    assert!(c.is_scope_specific);
    assert_eq!((c.scope_num, c.target_id_num), (1, 12));
    let c = guess("balloonp3def2", "balloonp3def2.png");
    assert_eq!((c.category.as_str(), c.scope_num, c.target_id_num), ("balloon", 3, 2));
    let c = guess("balloonc9", "balloonc9.png");
    assert_eq!((c.category.as_str(), c.balloonc_id), ("balloonc", 4));
}

#[test]
fn import_guesses_parts() {
    let c = guess("arrow1", "arrow1.png");
    assert_eq!((c.category.as_str(), c.is_scope_specific, c.arrow_dir), ("arrow", false, 1));
    let c = guess("arrowk7", "arrowk7.png");
    assert_eq!((c.category.as_str(), c.is_scope_specific, c.scope_num, c.arrow_dir), ("arrow", true, 1, 1));
    let c = guess("clickwaitp4def", "clickwaitp4def.png");
    assert_eq!((c.category.as_str(), c.scope_num), ("clickwait", 4));
    let c = guess("marker", "marker.png");
    assert_eq!((c.category.as_str(), c.is_scope_specific), ("marker", false));
    let c = guess("sstp_newp5def", "sstp_newp5def.png");
    assert_eq!((c.category.as_str(), c.scope_num), ("sstp", 5));
    let c = guess("online3", "online3.png");
    assert_eq!((c.category.as_str(), c.target_id_num), ("online", 3));
    let c = guess("cancel_pressed", "cancel_pressed.png");
    assert_eq!((c.category.as_str(), c.inputbtn_kind.as_str(), c.inputbtn_state.as_str()), ("inputbtn", "cancel", "pressed"));
}

#[test]
fn import_unknown_name_is_free() {
    let c = guess("background", "background.png");
    assert_eq!(c.category, "free");
    assert_eq!(c.custom_filename, "background.png");
    assert!(!c.is_scope_specific);
    // a scope-0 sstp name matches no pattern either
    let c = guess("sstp_news", "sstp_news.png");
    assert_eq!(c.category, "free");
}

#[test]
fn import_names_are_lower_cased_first() {
    let mut c = blank_choice();
    preset_import_from_names(&mut c, "BalloonS3", "BalloonS3.PNG");
    assert_eq!((c.category.as_str(), c.scope_num, c.target_id_num), ("balloon", 0, 3));
    let mut f = blank_choice();
    preset_import_from_names(&mut f, "Photo", "Photo.PNG");
    assert_eq!(f.custom_filename, "photo.png");
}

#[test]
fn import_name_round_trip_on_values() {
    let mut choices = Vec::new();
    let mut b = blank_choice();
    b.category = "balloon".to_string();
    for (scope, id) in [(0, 3), (1, 0), (2, 5), (-1, 7)] {
        let mut c = blank_choice();
        c.category = "balloon".to_string();
        c.scope_num = scope;
        c.target_id_num = id;
        choices.push(c);
    }
    let mut a = blank_choice();
    a.category = "arrow".to_string();
    a.arrow_dir = 1;
    choices.push(a);
    let mut s = blank_choice();
    s.category = "sstp".to_string();
    s.is_scope_specific = true;
    s.scope_num = 0;
    choices.push(s);
    b.category = "thumbnail".to_string();
    choices.push(b);
    for c in &choices {
        let name = get_import_target_filename(c);
        let stem = &name[..name.len() - 4];
        let again = guess(stem, &name);
        assert_eq!(get_import_target_filename(&again), name);
    }
}
