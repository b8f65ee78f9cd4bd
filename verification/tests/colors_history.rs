use balloon_editor::color::{parse_hex_color, ColorSet, HexColorError, Rgb};
use balloon_editor::history::{History, Snapshot, MAX_UNDO};
use balloon_editor::profile::{needs_rebuild, same_colors};
use balloon_editor::profile::{color_set_for, parts_colors_for, IndivColors, ProjectProfile, PROFILE_VERSION};
use balloon_editor::StringHashMap;

#[test]
fn hex_colours_read_and_write() {
    assert_eq!(Rgb::from_hex("#1D6AB8"), Ok(Rgb(29, 106, 184)));
    assert_eq!(Rgb::from_hex("ff0080"), Ok(Rgb(255, 0, 128)));
    assert_eq!(Rgb::from_hex("#12345"), Err(HexColorError::InvalidLength));
    assert_eq!(Rgb::from_hex("#12345g"), Err(HexColorError::InvalidDigit));
    assert_eq!(parse_hex_color("#000000"), Some(Rgb(0, 0, 0)));
    assert_eq!(parse_hex_color("nope"), None);
    assert_eq!(Rgb(29, 106, 184).to_hex(), "#1D6AB8");
}

#[test]
fn hex_round_trip_on_values() {
    for c in [Rgb(0, 0, 0), Rgb(255, 255, 255), Rgb(1, 171, 16)] {
        assert_eq!(Rgb::from_hex(&c.to_hex()), Ok(c));
    }
}

#[test]
fn colour_channels_and_blend() {
    let c = Rgb(10, 20, 31);
    assert_eq!((c.r(), c.g(), c.b()), (10, 20, 31));
    assert_eq!(c.blend(Rgb(20, 21, 0)), Rgb(15, 20, 15));
    let s = ColorSet::new(Rgb(1, 1, 1), Rgb(2, 2, 2), Rgb(3, 3, 3), Rgb(4, 4, 4));
    assert!(!s.no_color);
    assert_eq!(s.parts, Rgb(4, 4, 4));
}

#[test]
fn default_colour_set() {
    let d = ColorSet::default();
    assert_eq!(d.base, Rgb(180, 210, 255));
    assert_eq!(d.edge, Rgb(255, 255, 255));
    assert_eq!(d.text, Rgb(29, 106, 184));
    assert_eq!(d.parts, Rgb(29, 106, 184));
}

#[test]
fn balloon_colours_layer_over_defaults() {
    let mut layers = StringHashMap::new();
    layers.insert("base".to_string(), Rgb(1, 2, 3));
    let mut indiv: StringHashMap<IndivColors> = StringHashMap::new();
    let mut own = IndivColors::default();
    own.edge = Some(Rgb(9, 9, 9));
    own.parts_colors.insert("all".to_string(), Rgb(7, 7, 7));
    indiv.insert("balloons0s.txt".to_string(), own);

    let plain = color_set_for(&layers, &indiv, false, false, None);
    assert_eq!(plain.base, Rgb(1, 2, 3));
    assert_eq!(plain.edge, Rgb(255, 255, 255));
    assert!(!plain.no_color);

    let special = color_set_for(&layers, &indiv, false, false, Some("balloons0s.txt"));
    assert_eq!(special.base, Rgb(1, 2, 3));
    assert_eq!(special.edge, Rgb(9, 9, 9));
    assert_eq!(special.parts, Rgb(7, 7, 7));

    assert!(color_set_for(&layers, &indiv, false, true, None).no_color);
    assert!(color_set_for(&layers, &indiv, true, false, None).no_color);

    let shared: StringHashMap<Rgb> = StringHashMap::new();
    assert_eq!(parts_colors_for(&shared, &indiv, Some("balloons0s.txt")).get("all"), Some(&Rgb(7, 7, 7)));
    assert_eq!(parts_colors_for(&shared, &indiv, Some("other")).get("all"), None);
}

#[test]
fn profile_defaults_and_layer_colours() {
    let mut p = ProjectProfile::default();
    assert_eq!(p.version, PROFILE_VERSION);
    assert!(p.bulk_color_mode);
    assert!(!p.no_balloon_color);
    assert_eq!(p.layer_color("edge", Rgb(5, 5, 5)), Rgb(5, 5, 5));
    p.layer_colors.push(("edge".to_string(), [10, 20, 30]));
    assert_eq!(p.layer_color("edge", Rgb(5, 5, 5)), Rgb(10, 20, 30));
}

#[test]
fn undo_then_redo() {
    let mut h: History<u32> = History::new();
    assert!(!h.can_undo());
    assert_eq!(h.undo(5), None);
    h.push_undo(1);
    h.push_undo(2);
    assert!(h.can_undo());
    assert!(!h.can_redo());
    assert_eq!(h.undo(3), Some(2));
    assert!(h.can_redo());
    assert_eq!(h.redo(2), Some(3));
    assert!(!h.can_redo());
    assert_eq!(h.undo(3), Some(2));
    assert_eq!(h.undo(2), Some(1));
    assert_eq!(h.undo(1), None);
}

#[test]
fn recording_clears_redo() {
    let mut h: History<u32> = History::new();
    h.push_undo(1);
    assert_eq!(h.undo(2), Some(1));
    h.push_undo(7);
    assert!(!h.can_redo());
    assert_eq!(h.undo(8), Some(7));
}

#[test]
fn undo_keeps_the_newest_snapshots() {
    let mut h: History<usize> = History::new();
    for i in 0..(MAX_UNDO + 5) {
        h.push_undo(i);
    }
    let mut got = Vec::new();
    let mut cur = 1000;
    while let Some(s) = h.undo(cur) {
        got.push(s);
        cur = s;
    }
    assert_eq!(got.len(), MAX_UNDO);
    assert_eq!(got[0], MAX_UNDO + 4);
    assert_eq!(*got.last().unwrap(), 5);
}

#[test]
fn edits_and_restores_mark_the_project_changed() {
    let mut h: History<u32> = History::new();
    assert!(!h.is_dirty());
    assert_eq!(h.undo(1), None);
    assert!(!h.is_dirty());
    h.push_undo(1);
    assert!(h.is_dirty());
    h.mark_saved();
    assert!(!h.is_dirty());
    assert_eq!(h.undo(2), Some(1));
    assert!(h.is_dirty());
    h.mark_saved();
    assert_eq!(h.redo(1), Some(2));
    assert!(h.is_dirty());
}

#[test]
fn restoring_other_colours_needs_a_rebuild() {
    let a = vec![("base".to_string(), [1u8, 2, 3]), ("edge".to_string(), [4u8, 5, 6])];
    let same_other_order = vec![("edge".to_string(), [4u8, 5, 6]), ("base".to_string(), [1u8, 2, 3])];
    let changed = vec![("base".to_string(), [1u8, 2, 3]), ("edge".to_string(), [4u8, 5, 7])];
    let fewer = vec![("base".to_string(), [1u8, 2, 3])];
    let none: Vec<(String, [u8; 3])> = Vec::new();
    assert!(same_colors(&a, &same_other_order));
    assert!(!same_colors(&a, &changed));
    assert!(!same_colors(&a, &fewer));
    assert!(!needs_rebuild(&a, &none, &same_other_order, &none));
    assert!(needs_rebuild(&a, &none, &changed, &none));
    assert!(needs_rebuild(&a, &a, &a, &fewer));
}

fn snap(base: [u8; 3], text: &str) -> Snapshot<String> {
    Snapshot { layer_colors: vec![("base".to_string(), base)], parts_colors: Vec::new(), rest: text.to_string() }
}

#[test]
fn undo_reports_whether_colours_change() {
    let mut h: History<Snapshot<String>> = History::new();
    h.push_undo(snap([1, 2, 3], "a"));
    h.mark_saved();
    // The present state differs only in its text: nothing to rebuild.
    let (back, rebuild) = h.undo_colors(snap([1, 2, 3], "b"));
    assert_eq!(back.map(|s| s.rest), Some("a".to_string()));
    assert!(!rebuild);
    assert!(h.is_dirty());
    // Redo restores the text state; the colours are the same again.
    let (fwd, rebuild) = h.redo_colors(snap([1, 2, 3], "a"));
    assert_eq!(fwd.map(|s| s.rest), Some("b".to_string()));
    assert!(!rebuild);
    h.push_undo(snap([9, 9, 9], "c"));
    let (back, rebuild) = h.undo_colors(snap([1, 2, 3], "d"));
    assert_eq!(back.map(|s| s.rest), Some("c".to_string()));
    assert!(rebuild);
    let mut empty: History<Snapshot<String>> = History::new();
    let (none, rebuild) = empty.redo_colors(snap([0, 0, 0], "x"));
    assert!(none.is_none() && !rebuild && !empty.is_dirty());
}

#[test]
fn hex_reads_back_in_every_spelling() {
    for c in [Rgb(0, 0, 0), Rgb(255, 255, 255), Rgb(0x1a, 0xb2, 0xc3), Rgb(10, 200, 99)] {
        let h = c.to_hex();
        assert_eq!(Rgb::from_hex(&h), Ok(c));
        assert_eq!(Rgb::from_hex(&h.to_lowercase()), Ok(c));
        assert_eq!(Rgb::from_hex(&h[1..]), Ok(c));
    }
}
