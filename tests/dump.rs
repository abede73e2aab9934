use layout::dump::{decimal_string, dump};
use layout::layout_box::{BoxData, LayoutBox, LayoutTree};
use layout::style::{Display, NodeKind, Position, RenderNode, Value};

fn element(tag: &str, display: Display, position: Position) -> RenderNode {
    RenderNode {
        kind: NodeKind::Element(tag.to_string()),
        display,
        position,
        width: Value::Auto,
        height: Value::Auto,
    }
}

#[test]
fn decimal_strings() {
    assert_eq!(decimal_string(0), "0");
    assert_eq!(decimal_string(-1205), "-1205");
    assert_eq!(decimal_string(i64::MIN), "-9223372036854775808");
    assert_eq!(decimal_string(i64::MAX), "9223372036854775807");
}

#[test]
fn dump_lists_boxes_with_absolute_geometry() {
    let mut tree = LayoutTree::new(LayoutBox::new(element("html", Display::Block, Position::Static)).unwrap());
    let root = tree.root();
    let div = tree
        .append_child(root, LayoutBox::new(element("div", Display::Block, Position::Static)).unwrap())
        .unwrap();
    tree.append_child(root, LayoutBox::new_anonymous(BoxData::block_box())).unwrap();
    div.set_offset(&mut tree, 10, 20);
    div.set_content_width(&mut tree, 30);
    div.set_content_height(&mut tree, 40);
    assert_eq!(
        dump(&tree, root, 0),
        "[BlockBox] <html> (x: 0 | y: 0 | w: 0 | h: 0)\n  [BlockBox] <div> (x: 10 | y: 20 | w: 30 | h: 40)\n  [Anonymous BlockBox] (x: 0 | y: 0 | w: 0 | h: 0)\n"
    );
}

#[test]
fn dump_lists_line_boxes_of_inline_content() {
    let mut tree = LayoutTree::new(LayoutBox::new(element("p", Display::Block, Position::Static)).unwrap());
    let root = tree.root();
    root.set_content_width(&mut tree, 50);
    let text = RenderNode {
        kind: NodeKind::Text,
        display: Display::Inline,
        position: Position::Static,
        width: Value::Auto,
        height: Value::Auto,
    };
    for _ in 0..2 {
        let t = tree.append_child(root, LayoutBox::new(text.clone()).unwrap()).unwrap();
        t.set_content_width(&mut tree, 30);
        t.set_content_height(&mut tree, 5);
    }
    assert_eq!(layout::formatting_context::layout(&mut tree), Ok(()));
    assert_eq!(
        dump(&tree, root, 1),
        "  [BlockBox] <p> (x: 0 | y: 0 | w: 50 | h: 10)\n    [Line] (w: 30 | h: 5)\n    [Line] (w: 30 | h: 5)\n"
    );
}
