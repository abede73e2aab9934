use layout::formatting_context::{layout, layout_inline_content, place_block_children};
use layout::geometry::{Edges, Point, Rect, Size};
use layout::hit_test::mark_mouse_over_boxes;
use layout::layout_box::{
    BoxData, FormattingContextType, InlineContents, LayoutBox, LayoutBoxPtr, LayoutError,
    LayoutTree,
};
use layout::box_model::BoxModel;
use layout::line_box::{break_lines, InlinePiece};
use layout::style::{
    Display, InnerDisplayType, NodeKind, OuterDisplayType, Position, RenderNode, Value,
};

fn element(tag: &str, display: Display, position: Position) -> RenderNode {
    RenderNode {
        kind: NodeKind::Element(tag.to_string()),
        display,
        position,
        width: Value::Auto,
        height: Value::Auto,
    }
}

fn block(tag: &str) -> LayoutBox {
    LayoutBox::new(element(tag, Display::Block, Position::Static)).unwrap()
}

fn text() -> LayoutBox {
    LayoutBox::new(RenderNode {
        kind: NodeKind::Text,
        display: Display::Inline,
        position: Position::Static,
        width: Value::Auto,
        height: Value::Auto,
    })
    .unwrap()
}

#[test]
fn create_box_by_display() {
    assert!(matches!(block("div").data, BoxData::BlockBox { .. }));
    assert!(matches!(text().data, BoxData::InlineContents(InlineContents::TextRun)));
    let inline = LayoutBox::new(element("span", Display::Inline, Position::Static)).unwrap();
    assert!(matches!(inline.data, BoxData::InlineContents(InlineContents::InlineBox)));
    let inline_block = LayoutBox::new(element(
        "span",
        Display::Full(OuterDisplayType::Inline, InnerDisplayType::FlowRoot),
        Position::Static,
    ))
    .unwrap();
    assert!(matches!(inline_block.data, BoxData::InlineContents(InlineContents::InlineBox)));
    let unsupported = LayoutBox::new(element(
        "div",
        Display::Full(OuterDisplayType::Block, InnerDisplayType::FlowRoot),
        Position::Static,
    ));
    assert!(matches!(unsupported, Err(LayoutError::UnsupportedDisplay)));
    let none = LayoutBox::new(element("div", Display::NoDisplay, Position::Static));
    assert!(matches!(none, Err(LayoutError::UnsupportedDisplay)));
}

#[test]
fn default_display_is_block() {
    assert_eq!(Display::default(), Value::Display(Display::Block));
}

#[test]
fn anonymous_iff_no_source_node() {
    let mut tree = LayoutTree::new(block("html"));
    let root = tree.root();
    let anon = tree.append_child(root, LayoutBox::new_anonymous(BoxData::block_box())).unwrap();
    assert!(anon.is_anonymous(&tree));
    assert!(!root.is_anonymous(&tree));
    assert!(root.is_root_element(&tree));
    assert!(!anon.is_root_element(&tree));
    assert_eq!(anon.friendly_name(&tree), "BlockBox");
}

#[test]
fn text_run_is_a_leaf() {
    let mut tree = LayoutTree::new(block("p"));
    let t = tree.append_child(tree.root(), text()).unwrap();
    assert!(!t.can_have_children(&tree));
    assert_eq!(tree.get(t).children.len(), 0);
    assert!(matches!(tree.append_child(t, text()), Err(LayoutError::CannotHaveChildren)));
    assert_eq!(tree.get(t).children.len(), 0);
    assert_eq!(t.friendly_name(&tree), "TextRun");
}

#[test]
fn replaced_elements() {
    let mut tree = LayoutTree::new(block("body"));
    let root = tree.root();
    assert!(root.is_body_element(&tree));
    let img = tree.append_child(root, block("img")).unwrap();
    let div = tree.append_child(root, block("div")).unwrap();
    let anon = tree.append_child(root, LayoutBox::new_anonymous(BoxData::inline_box())).unwrap();
    assert!(!img.is_non_replaced(&tree));
    assert!(div.is_non_replaced(&tree));
    assert!(anon.is_non_replaced(&tree));
}

#[test]
fn absolute_rect_adds_containing_block_offsets() {
    let mut tree = LayoutTree::new(block("html"));
    let root = tree.root();
    let a = tree.append_child(root, block("div")).unwrap();
    let g = tree.append_child(a, block("div")).unwrap();
    root.set_offset(&mut tree, 0, 0);
    a.set_offset(&mut tree, 10, 20);
    g.set_offset(&mut tree, 5, 5);
    g.set_content_width(&mut tree, 30);
    g.set_content_height(&mut tree, 40);
    assert_eq!(g.containing_block(&tree), Ok(Some(a)));
    assert_eq!(a.containing_block(&tree), Ok(Some(root)));
    assert_eq!(root.containing_block(&tree), Ok(None));
    assert_eq!(g.absolute_rect(&tree), Ok(Rect::new(15, 25, 30, 40)));
    assert_eq!(g.absolute_location(&tree), Ok(Point::new(15, 25)));
}

#[test]
fn border_and_padding_boxes_grow_the_absolute_rect() {
    let mut tree = LayoutTree::new(block("html"));
    let root = tree.root();
    let a = tree.append_child(root, block("div")).unwrap();
    a.set_offset(&mut tree, 10, 10);
    a.set_content_width(&mut tree, 100);
    a.set_content_height(&mut tree, 50);
    a.set_box_model(
        &mut tree,
        BoxModel {
            margin: Edges::new(0, 0, 0, 0),
            border: Edges::new(1, 1, 1, 1),
            padding: Edges::new(2, 3, 4, 5),
        },
    );
    assert_eq!(a.padding_box_absolute(&tree), Ok(Rect::new(5, 8, 108, 56)));
    assert_eq!(a.border_box_absolute(&tree), Ok(Rect::new(4, 7, 110, 58)));
    let marks = mark_mouse_over_boxes(&tree, &Point::new(4, 7));
    assert_eq!(marks, Ok(vec![false, true]));
    let marks = mark_mouse_over_boxes(&tree, &Point::new(3, 7));
    assert_eq!(marks, Ok(vec![false, false]));
}

#[test]
fn containing_block_by_position_scheme() {
    let mut tree = LayoutTree::new(block("html"));
    let root = tree.root();
    let rel = tree
        .append_child(root, LayoutBox::new(element("div", Display::Block, Position::Relative)).unwrap())
        .unwrap();
    let mid = tree.append_child(rel, block("div")).unwrap();
    let abs = tree
        .append_child(mid, LayoutBox::new(element("div", Display::Block, Position::Absolute)).unwrap())
        .unwrap();
    let fixed = tree
        .append_child(mid, LayoutBox::new(element("div", Display::Block, Position::Fixed)).unwrap())
        .unwrap();
    assert!(abs.is_positioned(&tree, Position::Absolute));
    assert_eq!(abs.containing_block(&tree), Ok(Some(rel)));
    assert_eq!(fixed.containing_block(&tree), Ok(Some(root)));
    // Each step of the chain moves to a shallower box and ends at the root.
    let mut cur = abs;
    let mut steps = 0;
    while let Ok(Some(c)) = cur.containing_block(&tree) {
        cur = c;
        steps += 1;
    }
    assert_eq!(cur, root);
    assert!(steps <= 3);
}

#[test]
fn explicit_sizes_resolve_against_containing_block() {
    let mut tree = LayoutTree::new(block("html"));
    let root = tree.root();
    root.set_content_width(&mut tree, 200);
    root.set_content_height(&mut tree, 80);
    let mut node = element("div", Display::Block, Position::Static);
    node.width = Value::Percentage(50);
    node.height = Value::Length(30);
    let child = tree.append_child(root, LayoutBox::new(node).unwrap()).unwrap();
    assert_eq!(child.apply_explicit_sizes(&mut tree), Ok(()));
    assert_eq!(child.content_size(&tree), Size::new(100, 30));

    let auto = tree.append_child(root, block("div")).unwrap();
    auto.set_content_width(&mut tree, 7);
    assert_eq!(auto.apply_explicit_sizes(&mut tree), Ok(()));
    assert_eq!(auto.content_size(&tree).width, 7);
}

#[test]
fn explicit_sizes_need_a_containing_block() {
    let mut tree = LayoutTree::new(block("html"));
    let root = tree.root();
    assert_eq!(root.apply_explicit_sizes(&mut tree), Err(LayoutError::MissingContainingBlock));
}

#[test]
fn explicit_sizes_skip_plain_inline_boxes() {
    let mut tree = LayoutTree::new(block("p"));
    let root = tree.root();
    root.set_content_width(&mut tree, 200);
    let mut node = element("span", Display::Inline, Position::Static);
    node.width = Value::Length(50);
    let span = tree.append_child(root, LayoutBox::new(node).unwrap()).unwrap();
    root.set_formatting_context(&mut tree, FormattingContextType::InlineFormattingContext);
    assert_eq!(span.apply_explicit_sizes(&mut tree), Ok(()));
    assert_eq!(span.content_size(&tree).width, 0);
    assert!(!span.is_inline_block(&tree));
}

#[test]
fn formatting_context_must_be_assigned_before_reading() {
    let mut tree = LayoutTree::new(block("html"));
    let root = tree.root();
    assert_eq!(root.formatting_context(&tree), Err(LayoutError::MissingFormattingContext));
    root.set_formatting_context(&mut tree, FormattingContextType::BlockFormattingContext);
    assert_eq!(root.formatting_context(&tree), Ok(FormattingContextType::BlockFormattingContext));
}

#[test]
fn three_fragments_break_after_two() {
    let pieces = vec![
        InlinePiece { box_index: 1, width: 40, height: 10 },
        InlinePiece { box_index: 2, width: 40, height: 12 },
        InlinePiece { box_index: 3, width: 40, height: 8 },
    ];
    let lines = break_lines(&pieces, 100);
    assert_eq!(lines.len(), 2);
    assert_eq!(lines[0].fragments.len(), 2);
    assert_eq!(lines[0].width, 80);
    assert_eq!(lines[0].height, 12);
    assert_eq!(lines[0].fragments[1].x, 40);
    assert_eq!(lines[1].fragments.len(), 1);
    assert_eq!(lines[1].fragments[0].box_index, 3);
    assert_eq!(lines[1].fragments[0].x, 0);
}

#[test]
fn wide_fragment_overflows_the_current_line() {
    let pieces = vec![
        InlinePiece { box_index: 1, width: 30, height: 10 },
        InlinePiece { box_index: 2, width: 150, height: 10 },
        InlinePiece { box_index: 3, width: 10, height: 10 },
    ];
    let lines = break_lines(&pieces, 100);
    assert_eq!(lines.len(), 2);
    assert_eq!(lines[0].fragments.len(), 2);
    assert_eq!(lines[0].width, 180);
    assert_eq!(lines[0].fragments[1].x, 30);
    assert_eq!(lines[1].fragments[0].box_index, 3);
    assert_eq!(break_lines(&Vec::new(), 100).len(), 0);
}

#[test]
fn inline_content_becomes_lines_of_the_block() {
    let mut tree = LayoutTree::new(block("p"));
    let root = tree.root();
    root.set_content_width(&mut tree, 100);
    let mut runs = Vec::new();
    for _ in 0..3 {
        let t = tree.append_child(root, text()).unwrap();
        t.set_content_width(&mut tree, 40);
        t.set_content_height(&mut tree, 10);
        runs.push(t);
    }
    let height = layout_inline_content(&mut tree, root);
    assert_eq!(height, 20);
    let lines = root.lines(&tree);
    assert_eq!(lines.len(), 2);
    assert_eq!(lines[1].fragments[0].box_index, runs[2].0);
}

#[test]
fn block_children_stack_vertically() {
    let mut tree = LayoutTree::new(block("html"));
    let root = tree.root();
    let a = tree.append_child(root, block("div")).unwrap();
    let b = tree.append_child(root, block("div")).unwrap();
    a.set_content_height(&mut tree, 30);
    a.set_box_model(
        &mut tree,
        BoxModel {
            margin: Edges::new(5, 0, 5, 2),
            border: Edges::new(0, 0, 0, 0),
            padding: Edges::new(0, 0, 0, 0),
        },
    );
    b.set_content_height(&mut tree, 10);
    let total = place_block_children(&mut tree, root);
    assert_eq!(a.offset(&tree), Point::new(2, 5));
    assert_eq!(b.offset(&tree), Point::new(0, 40));
    assert_eq!(total, 50);
    assert_eq!(a.margin_box_height(&tree), 40);
    assert_eq!(a.margin_box_width(&tree), 2);
}

#[test]
fn full_layout_of_a_small_document() {
    let mut tree = LayoutTree::new(block("html"));
    let root = tree.root();
    root.set_content_width(&mut tree, 100);
    let body = tree.append_child(root, block("body")).unwrap();
    let p = tree.append_child(body, block("p")).unwrap();
    let mut runs = Vec::new();
    for _ in 0..3 {
        let t = tree.append_child(p, text()).unwrap();
        t.set_content_width(&mut tree, 40);
        t.set_content_height(&mut tree, 10);
        runs.push(t);
    }
    let mut fixed = element("div", Display::Block, Position::Static);
    fixed.height = Value::Length(15);
    let footer = tree.append_child(body, LayoutBox::new(fixed).unwrap()).unwrap();
    assert_eq!(layout(&mut tree), Ok(()));
    assert_eq!(root.formatting_context(&tree), Ok(FormattingContextType::BlockFormattingContext));
    assert_eq!(p.formatting_context(&tree), Ok(FormattingContextType::InlineFormattingContext));
    assert!(p.is_block_container(&tree));
    assert!(p.children_are_inline(&tree));
    assert_eq!(p.lines(&tree).len(), 2);
    assert_eq!(p.content_size(&tree), Size::new(100, 20));
    assert_eq!(footer.content_size(&tree), Size::new(100, 15));
    assert_eq!(footer.offset(&tree), Point::new(0, 20));
    assert_eq!(body.content_size(&tree), Size::new(100, 35));
    assert_eq!(root.content_size(&tree).height, 35);
    assert_eq!(footer.absolute_rect(&tree), Ok(Rect::new(0, 20, 100, 15)));
}

#[test]
fn appending_a_child_drops_line_boxes() {
    let mut tree = LayoutTree::new(block("p"));
    let root = tree.root();
    root.set_content_width(&mut tree, 100);
    let t = tree.append_child(root, text()).unwrap();
    t.set_content_width(&mut tree, 10);
    layout_inline_content(&mut tree, root);
    assert_eq!(root.lines(&tree).len(), 1);
    tree.append_child(root, block("div")).unwrap();
    assert_eq!(root.lines(&tree).len(), 0);
    assert!(!root.children_are_inline(&tree));
    assert!(root.is_block(&tree));
    assert!(!LayoutBoxPtr(1).is_block(&tree));
    assert!(LayoutBoxPtr(1).is_inline(&tree));
}

#[test]
fn absolute_box_without_positioned_ancestor_is_an_error() {
    let mut tree = LayoutTree::new(block("html"));
    let root = tree.root();
    let abs = tree
        .append_child(root, LayoutBox::new(element("div", Display::Block, Position::Absolute)).unwrap())
        .unwrap();
    let inner = tree.append_child(abs, block("div")).unwrap();
    assert_eq!(abs.containing_block(&tree), Err(LayoutError::MissingContainingBlock));
    assert_eq!(abs.absolute_rect(&tree), Err(LayoutError::MissingContainingBlock));
    assert_eq!(inner.containing_block(&tree), Ok(Some(abs)));
    assert_eq!(inner.absolute_rect(&tree), Err(LayoutError::MissingContainingBlock));
    assert_eq!(abs.border_box_absolute(&tree), Err(LayoutError::MissingContainingBlock));
    assert_eq!(
        mark_mouse_over_boxes(&tree, &Point::new(0, 0)),
        Err(LayoutError::MissingContainingBlock)
    );
    assert_eq!(layout(&mut tree), Err(LayoutError::MissingContainingBlock));
}

#[test]
fn plain_inline_box_needs_no_containing_block() {
    let mut tree = LayoutTree::new(LayoutBox::new(element("span", Display::Inline, Position::Static)).unwrap());
    let root = tree.root();
    assert_eq!(root.apply_explicit_sizes(&mut tree), Ok(()));
}

#[test]
fn anonymous_ancestor_is_not_a_positioned_containing_block() {
    let mut tree = LayoutTree::new(block("html"));
    let root = tree.root();
    let rel = tree
        .append_child(root, LayoutBox::new(element("div", Display::Block, Position::Relative)).unwrap())
        .unwrap();
    let anon = tree.append_child(rel, LayoutBox::new_anonymous(BoxData::block_box())).unwrap();
    let abs = tree
        .append_child(anon, LayoutBox::new(element("div", Display::Block, Position::Absolute)).unwrap())
        .unwrap();
    assert_eq!(abs.containing_block(&tree), Ok(Some(rel)));
}

#[test]
fn layout_reaches_grandchildren() {
    let mut tree = LayoutTree::new(block("html"));
    let root = tree.root();
    root.set_content_width(&mut tree, 120);
    let outer = tree.append_child(root, block("div")).unwrap();
    let inner = tree.append_child(outer, block("div")).unwrap();
    let leaf = tree.append_child(inner, block("div")).unwrap();
    let mut sized = element("div", Display::Block, Position::Static);
    sized.height = Value::Length(7);
    let deep = tree.append_child(leaf, LayoutBox::new(sized).unwrap()).unwrap();
    assert_eq!(layout(&mut tree), Ok(()));
    assert_eq!(deep.content_size(&tree), Size::new(120, 7));
    assert_eq!(leaf.formatting_context(&tree), Ok(FormattingContextType::BlockFormattingContext));
    assert_eq!(deep.formatting_context(&tree), Ok(FormattingContextType::InlineFormattingContext));
    assert_eq!(root.content_size(&tree).height, 7);
}
