use balloon_editor::rows::{
    balloon_to_comment_str, comment_to_balloon, find_duplicates, parse_rows, rows_to_text, sort_balloon_rows,
    BalloonScope, FilesRow, LayerEntry,
};

fn layer(f: &str, c: &str) -> LayerEntry {
    LayerEntry { filename: f.to_string(), color_type: c.to_string() }
}

fn balloon(scope: BalloonScope, layers: Vec<LayerEntry>) -> FilesRow {
    FilesRow::Balloon { scope, layers }
}

fn name_of(row: &FilesRow) -> String {
    match row {
        FilesRow::Balloon { scope, .. } => scope.to_name(),
        FilesRow::Comment(s) => format!("comment:{}", s),
    }
}

#[test]
fn scope_names_follow_the_naming_rule() {
    assert_eq!(BalloonScope::Normal { scope: 0, id: 3 }.to_name(), "balloons3");
    assert_eq!(BalloonScope::Normal { scope: 1, id: 0 }.to_name(), "balloonk0");
    assert_eq!(BalloonScope::Normal { scope: 2, id: 5 }.to_name(), "balloonp2def5");
    assert_eq!(BalloonScope::Normal { scope: -1, id: 0 }.to_name(), "balloonp-1def0");
    assert_eq!(BalloonScope::BalloonC { id: 4 }.to_name(), "balloonc4");
}

#[test]
fn scope_parse_reads_each_pattern() {
    assert_eq!(BalloonScope::parse("balloons12"), BalloonScope::Normal { scope: 0, id: 12 });
    assert_eq!(BalloonScope::parse("balloonk1"), BalloonScope::Normal { scope: 1, id: 1 });
    assert_eq!(BalloonScope::parse("balloonp3def7"), BalloonScope::Normal { scope: 3, id: 7 });
    assert_eq!(BalloonScope::parse("balloonpxdef7"), BalloonScope::Normal { scope: 2, id: 7 });
    assert_eq!(BalloonScope::parse("balloonc9"), BalloonScope::BalloonC { id: 4 });
    assert_eq!(BalloonScope::parse("balloonc2"), BalloonScope::BalloonC { id: 2 });
    assert_eq!(BalloonScope::parse("balloonsx"), BalloonScope::Normal { scope: 0, id: 0 });
    assert_eq!(BalloonScope::parse("other"), BalloonScope::Normal { scope: 0, id: 0 });
}

#[test]
fn scope_name_round_trip_on_values() {
    for s in [
        BalloonScope::Normal { scope: 0, id: 9 },
        BalloonScope::Normal { scope: 1, id: 2 },
        BalloonScope::Normal { scope: 5, id: 0 },
        BalloonScope::Normal { scope: -3, id: 4 },
        BalloonScope::BalloonC { id: 3 },
    ] {
        assert_eq!(BalloonScope::parse(&s.to_name()), s);
    }
}

#[test]
fn parse_rows_reads_comments_and_balloons() {
    let rows = parse_rows("// head\n\nballoons0, a.png : edge ,b.png,\nballoonk1\n");
    assert_eq!(rows.len(), 4);
    match &rows[0] {
        FilesRow::Comment(s) => assert_eq!(s, "// head"),
        _ => panic!("expected a comment"),
    }
    match &rows[1] {
        FilesRow::Comment(s) => assert_eq!(s, "// "),
        _ => panic!("expected a blank line as a comment"),
    }
    match &rows[2] {
        FilesRow::Balloon { scope, layers } => {
            assert_eq!(*scope, BalloonScope::Normal { scope: 0, id: 0 });
            assert_eq!(layers.len(), 2);
            assert_eq!(layers[0].filename, "a.png");
            assert_eq!(layers[0].color_type, "edge");
            assert_eq!(layers[1].filename, "b.png");
            assert_eq!(layers[1].color_type, "base");
        }
        _ => panic!("expected a balloon"),
    }
    match &rows[3] {
        FilesRow::Balloon { scope, layers } => {
            assert_eq!(*scope, BalloonScope::Normal { scope: 1, id: 1 });
            assert!(layers.is_empty());
        }
        _ => panic!("expected a balloon"),
    }
}

#[test]
fn rows_to_text_writes_lines() {
    let rows = vec![
        FilesRow::Comment("// ".to_string()),
        FilesRow::Comment("// keep".to_string()),
        balloon(BalloonScope::Normal { scope: 2, id: 1 }, vec![layer("a.png", "base"), layer("b.png", "text")]),
    ];
    assert_eq!(rows_to_text(&rows), "\n// keep\nballoonp2def1,a.png:base,b.png:text\n");
    assert_eq!(rows_to_text(&[]), "");
}

#[test]
fn rows_text_reads_back() {
    let text = "balloons0,a.png:base\n// note\nballoonc1,c.png:edge\n";
    assert_eq!(rows_to_text(&parse_rows(text)), text);
}

#[test]
fn comment_and_back() {
    let s = balloon_to_comment_str(&BalloonScope::Normal { scope: 1, id: 2 }, &[layer("x.png", "edge")]);
    assert_eq!(s, "// balloonk2,x.png:edge");
    match comment_to_balloon(&s) {
        FilesRow::Balloon { scope, layers } => {
            assert_eq!(scope, BalloonScope::Normal { scope: 1, id: 2 });
            assert_eq!(layers.len(), 1);
            assert_eq!(layers[0].filename, "x.png");
            assert_eq!(layers[0].color_type, "edge");
        }
        _ => panic!("expected a balloon"),
    }
}

#[test]
fn comment_without_layers_gets_a_blank_layer() {
    match comment_to_balloon("//balloons4") {
        FilesRow::Balloon { scope, layers } => {
            assert_eq!(scope, BalloonScope::Normal { scope: 0, id: 4 });
            assert_eq!(layers.len(), 1);
            assert_eq!(layers[0].filename, "");
            assert_eq!(layers[0].color_type, "base");
        }
        _ => panic!("expected a balloon"),
    }
}

#[test]
fn sort_rows_orders_by_kind_then_number() {
    let rows = vec![
        balloon(BalloonScope::BalloonC { id: 0 }, vec![]),
        FilesRow::Comment("// x".to_string()),
        balloon(BalloonScope::Normal { scope: 2, id: 0 }, vec![]),
        balloon(BalloonScope::Normal { scope: 1, id: 3 }, vec![]),
        balloon(BalloonScope::Normal { scope: 0, id: 10 }, vec![]),
        balloon(BalloonScope::Normal { scope: 0, id: 2 }, vec![]),
    ];
    let sorted = sort_balloon_rows(&rows);
    let names: Vec<String> = sorted.iter().map(name_of).collect();
    assert_eq!(names, vec!["balloons2", "balloons10", "balloonk3", "balloonp2def0", "balloonc0"]);
}

#[test]
fn duplicates_are_reported_once() {
    let rows = vec![
        balloon(BalloonScope::Normal { scope: 0, id: 0 }, vec![]),
        balloon(BalloonScope::Normal { scope: 0, id: 0 }, vec![]),
        balloon(BalloonScope::Normal { scope: 0, id: 0 }, vec![]),
        balloon(BalloonScope::Normal { scope: 1, id: 0 }, vec![]),
        FilesRow::Comment("// balloonk0".to_string()),
    ];
    assert_eq!(find_duplicates(&rows), vec!["balloons0".to_string()]);
    let single = vec![balloon(BalloonScope::Normal { scope: 1, id: 0 }, vec![])];
    assert!(find_duplicates(&single).is_empty());
}

#[test]
fn new_layer_is_blank_base() {
    let l = LayerEntry::new();
    assert_eq!(l.filename, "");
    assert_eq!(l.color_type, "base");
}

#[test]
fn rows_of_equal_key_keep_their_order() {
    let rows = vec![
        balloon(BalloonScope::Normal { scope: 0, id: 1 }, vec![layer("second.png", "base")]),
        balloon(BalloonScope::Normal { scope: 0, id: 0 }, vec![]),
        FilesRow::Comment("// x".to_string()),
        balloon(BalloonScope::Normal { scope: 0, id: 1 }, vec![layer("third.png", "base")]),
        balloon(BalloonScope::Normal { scope: 0, id: 1 }, vec![layer("fourth.png", "edge")]),
    ];
    let sorted = sort_balloon_rows(&rows);
    let files: Vec<String> = sorted
        .iter()
        .map(|r| match r {
            FilesRow::Balloon { layers, .. } => layers.first().map(|l| l.filename.clone()).unwrap_or_default(),
            FilesRow::Comment(_) => "comment".to_string(),
        })
        .collect();
    assert_eq!(files, vec!["", "second.png", "third.png", "fourth.png"]);
}

#[test]
fn writing_rows_back_twice_changes_nothing_more() {
    let text = "balloons0 , a.png : edge ,, b.png\n\n//\n  // note\nballoonc9,x:\nballoonp2def3,:y\nweird";
    let once = rows_to_text(&parse_rows(text));
    let twice = rows_to_text(&parse_rows(&once));
    assert_eq!(twice, once);
    assert_eq!(once.lines().count(), text.lines().count());
    assert_eq!(parse_rows(text).len(), text.lines().count());
}
