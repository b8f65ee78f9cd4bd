use balloon_editor::descript::{parse_descript, set_descript_value};

fn value(text: &str, key: &str) -> Option<String> {
    parse_descript(text).get(key).cloned()
}

#[test]
fn set_replaces_an_existing_line() {
    let out = set_descript_value("a,1\nb,2\nb,3\nc,4\n", "b", "9");
    assert_eq!(out, "a,1\nb,9\nb,9\nc,4\n");
    assert_eq!(value(&out, "b").as_deref(), Some("9"));
    assert_eq!(value(&out, "a").as_deref(), Some("1"));
    assert_eq!(value(&out, "c").as_deref(), Some("4"));
}

#[test]
fn set_revives_a_commented_line() {
    let out = set_descript_value("a,1\n//  b,old\r\nc,3", "b", "9");
    assert_eq!(out, "a,1\nb,9\nc,3");
    assert_eq!(value(&out, "b").as_deref(), Some("9"));
    assert_eq!(value(&out, "c").as_deref(), Some("3"));
}

#[test]
fn set_appends_a_missing_key() {
    let out = set_descript_value("a,1\n\n  \n", "b", "9");
    assert_eq!(out, "a,1\nb,9\n");
    assert_eq!(value(&out, "b").as_deref(), Some("9"));
    assert_eq!(value(&out, "a").as_deref(), Some("1"));
    assert_eq!(set_descript_value("", "b", "9"), "\nb,9\n");
}

#[test]
fn clearing_comments_the_key_out() {
    let out = set_descript_value("a,1\nb,2\nc,3\n", "b", "");
    assert_eq!(out, "a,1\n//b,2\nc,3\n");
    assert_eq!(value(&out, "b"), None);
    assert_eq!(value(&out, "a").as_deref(), Some("1"));
    assert_eq!(set_descript_value("a,1\n", "b", ""), "a,1\n");
}

#[test]
fn write_then_read_keeps_every_other_key() {
    let text = "type,balloon\nname,x\n//font.color,#000000\nvalidrect.left,10\n";
    let before = parse_descript(text);
    for (k, v) in [("font.color", "#FF0000"), ("validrect.left", "12"), ("new.key", "1")] {
        let out = set_descript_value(text, k, v);
        let after = parse_descript(&out);
        assert_eq!(after.get(k).map(|s| s.as_str()), Some(v));
        for other in ["type", "name", "validrect.left", "font.color", "new.key"] {
            if other != k {
                assert_eq!(after.get(other), before.get(other), "{other} after setting {k}");
            }
        }
    }
}
