use layout::box_model::BoxModel;
use layout::geometry::{Edges, Point, Rect};

#[test]
fn padding_then_border_expand_outward() {
    let content = Rect::new(0, 0, 100, 50);
    let padding = Edges::new(2, 3, 4, 5);
    let padding_box = content.add_outer_edges(&padding);
    assert_eq!(padding_box, Rect::new(-5, -2, 108, 56));
    let border = Edges::new(1, 1, 1, 1);
    let border_box = padding_box.add_outer_edges(&border);
    assert_eq!(border_box, Rect::new(-6, -3, 110, 58));
}

#[test]
fn box_model_rects_compose() {
    let model = BoxModel {
        margin: Edges::new(10, 10, 10, 10),
        border: Edges::new(1, 1, 1, 1),
        padding: Edges::new(2, 3, 4, 5),
    };
    let content = Rect::new(0, 0, 100, 50);
    assert_eq!(model.padding_rect(&content), Rect::new(-5, -2, 108, 56));
    assert_eq!(model.border_rect(&content), Rect::new(-6, -3, 110, 58));
    assert_eq!(model.margin_rect(&content), Rect::new(-16, -13, 130, 78));
}

#[test]
fn contains_point_inclusive_at_origin_exclusive_at_far_edge() {
    let r = Rect::new(10, 10, 20, 20);
    assert!(r.is_contain_point(&Point::new(10, 10)));
    assert!(r.is_contain_point(&Point::new(29, 29)));
    assert!(!r.is_contain_point(&Point::new(30, 30)));
    assert!(!r.is_contain_point(&Point::new(9, 9)));
}

#[test]
fn translate_moves_origin_only() {
    let mut r = Rect::new(1, 2, 3, 4);
    r.translate(10, -20);
    assert_eq!(r, Rect::new(11, -18, 3, 4));
}
