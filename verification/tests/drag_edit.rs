use balloon_editor::descript::{parse_descript, pos_str};
use balloon_editor::drag::{
    cb_edge_current_val, clamp_val, compute_new_val_with_edge, edge_current_val, get_descript_val, target_info,
    to_descript_x, to_descript_y, was_negative_in_descript, write_val_to_descript, DragEditTarget, RectEdge,
};
use balloon_editor::StringHashMap;

fn no_parts() -> StringHashMap<(u32, u32)> {
    StringHashMap::new()
}

#[test]
fn positions_count_from_either_edge() {
    assert_eq!(pos_str("15", 200), 15);
    assert_eq!(pos_str("-20", 200), 180);
    assert_eq!(pos_str("-0", 200), 200);
    assert_eq!(pos_str("abc", 200), 0);
    assert_eq!(pos_str("-abc", 200), 200);
}

#[test]
fn descript_values_by_axis() {
    let parsed = parse_descript("arrow0.x,-20\narrow0.y,5\n");
    let defaults = parse_descript("number.y,-10\n");
    assert_eq!(get_descript_val("arrow0.x", &parsed, &defaults, 200, 100), 180);
    assert_eq!(get_descript_val("arrow0.y", &parsed, &defaults, 200, 100), 5);
    assert_eq!(get_descript_val("number.y", &parsed, &defaults, 200, 100), 90);
    assert_eq!(get_descript_val("arrow1.x", &parsed, &defaults, 200, 100), 0);
}

#[test]
fn rect_sides_current_values() {
    let parsed = parse_descript("validrect.left,12\nvalidrect.bottom,-8\n");
    let defaults = parse_descript("");
    assert_eq!(edge_current_val(RectEdge::Left, &parsed, &defaults, 200, 100), (12, 0));
    assert_eq!(edge_current_val(RectEdge::Bottom, &parsed, &defaults, 200, 100), (0, 92));
    let cb = parse_descript("communicatebox.x,5\ncommunicatebox.y,-40\n");
    assert_eq!(cb_edge_current_val(RectEdge::Left, &cb, 100), (5, 0));
    assert_eq!(cb_edge_current_val(RectEdge::Top, &cb, 100), (0, 60));
    assert_eq!(cb_edge_current_val(RectEdge::Right, &cb, 100), (105, 0));
    assert_eq!(cb_edge_current_val(RectEdge::Bottom, &cb, 100), (0, 90));
}

#[test]
fn target_start_positions() {
    let parsed = parse_descript("number.xr,-30\nnumber.y,12\narrow1.x,3\narrow1.y,-4\nwordwrappoint.x,-15\n");
    let defaults = parse_descript("");
    assert_eq!(target_info(DragEditTarget::Counter, &parsed, &defaults, 200, 100).current_val, (170, 12));
    assert_eq!(target_info(DragEditTarget::Arrow1, &parsed, &defaults, 200, 100).current_val, (3, 96));
    assert_eq!(target_info(DragEditTarget::WordWrap, &parsed, &defaults, 200, 100).current_val, (185, 0));
    assert_eq!(target_info(DragEditTarget::ValidRect, &parsed, &defaults, 200, 100).current_val, (0, 0));
    let empty = parse_descript("");
    assert_eq!(target_info(DragEditTarget::Counter, &empty, &defaults, 200, 100).current_val, (180, 0));
}

#[test]
fn moves_follow_the_axes_of_each_target() {
    assert_eq!(compute_new_val_with_edge(DragEditTarget::Arrow0, None, (10, 20), 5, 7), (15, 27));
    assert_eq!(compute_new_val_with_edge(DragEditTarget::WordWrap, None, (10, 20), 5, 7), (15, 20));
    assert_eq!(compute_new_val_with_edge(DragEditTarget::ValidRect, Some(RectEdge::Left), (10, 20), 5, 7), (15, 20));
    assert_eq!(compute_new_val_with_edge(DragEditTarget::CommunicateBox, Some(RectEdge::Bottom), (10, 20), 5, 7), (10, 27));
    assert_eq!(compute_new_val_with_edge(DragEditTarget::ValidRect, None, (10, 20), 5, 7), (10, 20));
}

#[test]
fn clamping_keeps_parts_inside() {
    let mut parts = StringHashMap::new();
    parts.insert("arrow0.png".to_string(), (20u32, 10u32));
    let defaults = parse_descript("");
    assert_eq!(clamp_val(DragEditTarget::Arrow0, (300, -5), None, "", 200, 100, &parts, &defaults), (180, 0));
    assert_eq!(clamp_val(DragEditTarget::Arrow1, (300, 150), None, "", 200, 100, &no_parts(), &defaults), (200, 100));
    assert_eq!(clamp_val(DragEditTarget::WordWrap, (-3, 777), None, "", 200, 100, &no_parts(), &defaults), (0, 777));
    assert_eq!(clamp_val(DragEditTarget::SstpMessage, (250, -1), None, "", 200, 100, &no_parts(), &defaults), (200, 0));
}

#[test]
fn clamping_keeps_the_minimum_gap() {
    let defaults = parse_descript("");
    let text = "validrect.right,-10\nvalidrect.top,30\n";
    assert_eq!(
        clamp_val(DragEditTarget::ValidRect, (185, 3), Some(RectEdge::Left), text, 200, 100, &no_parts(), &defaults),
        (180, 3)
    );
    assert_eq!(
        clamp_val(DragEditTarget::ValidRect, (0, 35), Some(RectEdge::Bottom), text, 200, 100, &no_parts(), &defaults),
        (0, 40)
    );
    assert_eq!(
        clamp_val(DragEditTarget::CommunicateBox, (5, 15), Some(RectEdge::Bottom), "", 200, 100, &no_parts(), &defaults),
        (5, 20)
    );
}

#[test]
fn descript_coordinates_keep_their_notation() {
    assert_eq!(to_descript_x(180, 200, true), "-20");
    assert_eq!(to_descript_x(180, 200, false), "180");
    assert_eq!(to_descript_y(5, 100, false), "5");
    assert_eq!(to_descript_y(100, 100, true), "0");
}

#[test]
fn negative_notation_is_detected() {
    let parsed = parse_descript("arrow0.x, -5\narrow0.y,3\nvalidrect.top,-7\n");
    let defaults = parse_descript("number.y,-1\n");
    assert_eq!(was_negative_in_descript(DragEditTarget::Arrow0, &parsed, &defaults, None), (true, false));
    assert_eq!(was_negative_in_descript(DragEditTarget::Counter, &parsed, &defaults, None), (false, true));
    assert_eq!(was_negative_in_descript(DragEditTarget::ValidRect, &parsed, &defaults, Some(RectEdge::Top)), (false, true));
    assert_eq!(was_negative_in_descript(DragEditTarget::CommunicateBox, &parsed, &defaults, Some(RectEdge::Top)), (false, false));
}

#[test]
fn drag_result_is_written_back() {
    let out = write_val_to_descript(DragEditTarget::Arrow0, "arrow0.x,-20\n", (170, 5), None, (true, false), 200, 100);
    assert_eq!(out, "arrow0.x,-30\narrow0.y,5\n");
    let out = write_val_to_descript(DragEditTarget::Counter, "number.xr,-20\n", (150, 40), None, (false, false), 200, 100);
    assert_eq!(out, "number.xr,-50\nnumber.y,40\n");
}

#[test]
fn input_box_side_keeps_the_other_side() {
    let out = write_val_to_descript(DragEditTarget::CommunicateBox, "", (30, 0), Some(RectEdge::Left), (false, false), 200, 100);
    assert_eq!(out, "\ncommunicatebox.x,30\ncommunicatebox.width,80\n");
    let p = parse_descript(&out);
    assert_eq!(p.get("communicatebox.x").map(|s| s.as_str()), Some("30"));
    assert_eq!(p.get("communicatebox.width").map(|s| s.as_str()), Some("80"));
}

#[test]
fn clamping_stays_in_the_image_without_room_for_the_gap() {
    let defaults = parse_descript("");
    let text = "validrect.left,195\nvalidrect.top,95\n";
    assert_eq!(
        clamp_val(DragEditTarget::ValidRect, (150, 0), Some(RectEdge::Right), text, 200, 100, &no_parts(), &defaults),
        (200, 0)
    );
    assert_eq!(
        clamp_val(DragEditTarget::ValidRect, (7, 20), Some(RectEdge::Bottom), text, 200, 100, &no_parts(), &defaults),
        (7, 100)
    );
}

#[test]
fn dragged_position_reads_back_in_its_notation() {
    let defaults = parse_descript("");
    let text = "arrow0.x,-20\narrow0.y,5\n";
    let neg = was_negative_in_descript(DragEditTarget::Arrow0, &parse_descript(text), &defaults, None);
    assert_eq!(neg, (true, false));
    let out = write_val_to_descript(DragEditTarget::Arrow0, text, (150, 30), None, neg, 200, 100);
    let p = parse_descript(&out);
    assert_eq!(p.get("arrow0.x").map(|s| s.as_str()), Some("-50"));
    assert_eq!(get_descript_val("arrow0.x", &p, &defaults, 200, 100), 150);
    assert_eq!(get_descript_val("arrow0.y", &p, &defaults, 200, 100), 30);
    assert_eq!(was_negative_in_descript(DragEditTarget::Arrow0, &p, &defaults, None), (true, false));
}
