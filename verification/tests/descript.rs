use balloon_editor::color::Rgb;
use balloon_editor::descript::{
    get_aliased, get_color_from_descript, parse_descript, pos_str, set_color_in_descript, set_descript_value,
    set_descript_value_aliased,
};

/// どちらの表記で書かれていても引ける
#[test]
fn get_aliased_resolves_alias() {
    let p = parse_descript("number.x,-20\nnumber.yb,-5\n");
    assert_eq!(get_aliased(&p, "number.xr").map(|s| s.as_str()), Some("-20"));
    assert_eq!(get_aliased(&p, "number.y").map(|s| s.as_str()), Some("-5"));
    // 逆向き（既定表記で書かれていて別名で引く）も解決する
    let p = parse_descript("number.xr,-20\nnumber.y,-5\n");
    assert_eq!(get_aliased(&p, "number.x").map(|s| s.as_str()), Some("-20"));
    assert_eq!(get_aliased(&p, "number.yb").map(|s| s.as_str()), Some("-5"));
}

/// 別名を持たないキーは素通し
#[test]
fn get_aliased_passes_through_normal_key() {
    let p = parse_descript("arrow0.x,-5\n");
    assert_eq!(get_aliased(&p, "arrow0.x").map(|s| s.as_str()), Some("-5"));
    assert_eq!(get_aliased(&p, "arrow0.y"), None);
}

/// 素材が別名表記なら、その表記のまま更新される（既定表記の行を増やさない）
#[test]
fn set_aliased_keeps_existing_notation() {
    let out = set_descript_value_aliased("number.x,-20\n", "number.xr", "-30");
    assert!(out.contains("number.x,-30"), "actual: {out}");
    assert!(!out.contains("number.xr,"), "既定表記の行が増えている: {out}");
}

/// どちらの表記も無ければ既定表記で追記される
#[test]
fn set_aliased_adds_canonical_when_absent() {
    let out = set_descript_value_aliased("type,balloon\n", "number.xr", "-30");
    assert!(out.contains("number.xr,-30"), "actual: {out}");
    assert!(!out.contains("number.x,-30"), "別名で書かれている: {out}");
}

/// 両表記が同居していたら片方を更新し、もう片方はコメントアウトして矛盾を消す
#[test]
fn set_aliased_resolves_duplicate() {
    let out = set_descript_value_aliased("number.xr,-20\nnumber.x,-99\n", "number.xr", "-30");
    assert!(out.contains("number.xr,-30"), "actual: {out}");
    assert!(out.contains("//number.x,-99"), "別名側が無効化されていない: {out}");
    // 有効行として number.x が残っていないこと
    let p = parse_descript(&out);
    assert_eq!(p.get("number.x"), None);
    assert_eq!(p.get("number.xr").map(|s| s.as_str()), Some("-30"));
}

/// コメントアウト行があればそれを復活させる（既定表記を新規追加しない）
#[test]
fn set_aliased_revives_commented_line() {
    let out = set_descript_value_aliased("//number.x,-20\n", "number.xr", "-30");
    assert!(out.contains("number.x,-30"), "actual: {out}");
    assert!(!out.contains("number.xr,"), "既定表記の行が増えている: {out}");
}

/// 空値ならグループ内の全キーが無効化される
#[test]
fn set_aliased_empty_comments_out_whole_group() {
    let out = set_descript_value_aliased("number.xr,-20\nnumber.x,-99\n", "number.xr", "");
    let p = parse_descript(&out);
    assert_eq!(p.get("number.xr"), None);
    assert_eq!(p.get("number.x"), None);
}

/// pos_str の符号規則（別名対応の前提となる挙動）
#[test]
fn pos_str_sign_rule() {
    assert_eq!(pos_str("100", 506), 100); // 正値＝左/上起点
    assert_eq!(pos_str("-35", 506), 471); // 負値＝右/下起点
    assert_eq!(pos_str("", 506), 0); // 不正値は 0
    // sstpmessage.xr/.yb の初期値 -1 は、画像サイズが変わっても
    // それぞれの右端/下端付近に解決される（正値のような固定座標にならない）
    assert_eq!(pos_str("-1", 506), 505);
    assert_eq!(pos_str("-1", 136), 135);
}

/// A value keeps its trailing whitespace; only the leading whitespace and
/// the key's surrounding whitespace go.
#[test]
fn value_keeps_trailing_whitespace() {
    let p = parse_descript("font.name,MS Gothic  \n  key  ,  v \r\n// c,x\nnocomma\n");
    assert_eq!(p.get("font.name").map(|s| s.as_str()), Some("MS Gothic  "));
    assert_eq!(p.get("key").map(|s| s.as_str()), Some("v "));
    assert_eq!(p.get("// c"), None);
    assert_eq!(p.len(), 2);
}

#[test]
fn written_colour_reads_back() {
    let text = "font.name,MS Gothic  \ntype,balloon\nfont.color.r,1\n//font.color.g,9\n";
    let out = set_color_in_descript(text, "font.color", Some(Rgb(12, 0, 255)));
    let p = parse_descript(&out);
    assert_eq!(get_color_from_descript(&p, "font.color"), Some(Rgb(12, 0, 255)));
    assert_eq!(p.get("font.name").map(|s| s.as_str()), Some("MS Gothic  "));
    let out = set_color_in_descript(&out, "font.color", None);
    assert_eq!(get_color_from_descript(&parse_descript(&out), "font.color"), None);
}

#[test]
fn aliased_value_reads_back_under_both_spellings() {
    let out = set_descript_value_aliased("number.x,-20\nnumber.xr,-5\ntype,balloon\n", "number.xr", "-30");
    let p = parse_descript(&out);
    assert_eq!(get_aliased(&p, "number.x").map(|s| s.as_str()), Some("-30"));
    assert_eq!(get_aliased(&p, "number.xr").map(|s| s.as_str()), Some("-30"));
    assert_eq!(p.get("type").map(|s| s.as_str()), Some("balloon"));
    let cleared = set_descript_value_aliased(&out, "number.x", "");
    let q = parse_descript(&cleared);
    assert_eq!(get_aliased(&q, "number.x"), None);
    assert_eq!(get_aliased(&q, "number.xr"), None);
    assert_eq!(q.get("type").map(|s| s.as_str()), Some("balloon"));
}

#[test]
fn appended_key_reads_back_after_trailing_whitespace() {
    let out = set_descript_value("a,b  \nc,d  ", "k", "v");
    let p = parse_descript(&out);
    assert_eq!(p.get("k").map(|s| s.as_str()), Some("v"));
    assert_eq!(p.get("a").map(|s| s.as_str()), Some("b  "));
    // The last value loses its trailing spaces: the text's end is cut before the new line.
    assert_eq!(p.get("c").map(|s| s.as_str()), Some("d"));
}
