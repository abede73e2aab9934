//! The layout box tree: an arena of boxes addressed by index, with the
//! structural and geometric queries that layout and painting ask of it.
use vstd::prelude::*;
use crate::box_model::BoxModel;
use crate::geometry::{fits_i64, Point, Rect, Size, MAX_LENGTH, MAX_OFFSET};
use crate::line_box::LineBox;
use crate::style::{
    clamp_length, Display, InnerDisplayType, OuterDisplayType, Position, Property, RenderNode,
    Value,
};

verus! {

/// The most boxes one tree holds.
pub const MAX_BOXES: usize = 0x400_0000;

#[derive(Clone, Copy, Debug, PartialEq, Eq, Structural)]
pub enum InlineContents {
    InlineBox,
    TextRun,
}

/// What a box is: a block (with its line boxes, filled only where it lays
/// out inline children), or inline content.
#[derive(Clone, Debug)]
pub enum BoxData {
    BlockBox { lines: Vec<LineBox> },
    InlineContents(InlineContents),
}

impl BoxData {
    pub fn block_box() -> (r: Self)
        ensures
            r matches BoxData::BlockBox { lines } && lines@.len() == 0,
    {
        BoxData::BlockBox { lines: Vec::new() }
    }

    pub fn inline_box() -> (r: Self)
        ensures
            r == BoxData::InlineContents(InlineContents::InlineBox),
    {
        BoxData::InlineContents(InlineContents::InlineBox)
    }

    pub fn text_run() -> (r: Self)
        ensures
            r == BoxData::InlineContents(InlineContents::TextRun),
    {
        BoxData::InlineContents(InlineContents::TextRun)
    }

    pub open spec fn lines_spec(&self) -> Seq<LineBox> {
        match *self {
            BoxData::BlockBox { lines } => lines@,
            _ => Seq::empty(),
        }
    }
}

/// The algorithm that lays out a box's children.
#[derive(Clone, Copy, Debug, PartialEq, Eq, Structural)]
pub enum FormattingContextType {
    BlockFormattingContext,
    InlineFormattingContext,
}

/// Fatal conditions of tree construction and layout.
#[derive(Clone, Copy, Debug, PartialEq, Eq, Structural)]
pub enum LayoutError {
    /// A `display` combination that no box kind implements.
    UnsupportedDisplay,
    /// A formatting context was read before one was assigned.
    MissingFormattingContext,
    /// A box that needs a containing block has none.
    MissingContainingBlock,
    /// A child was offered to a text run.
    CannotHaveChildren,
    /// The tree already holds `MAX_BOXES` boxes.
    TooManyBoxes,
}

/// One node of the layout tree. Geometry is relative to the box's
/// containing block.
#[derive(Debug)]
pub struct LayoutBox {
    pub data: BoxData,
    pub node: Option<RenderNode>,
    pub box_model: BoxModel,
    pub offset: Point,
    pub content_size: Size,
    pub formatting_context: Option<FormattingContextType>,
    pub parent: Option<usize>,
    pub children: Vec<usize>,
}

/// The box kind that a styled node generates, if any.
pub open spec fn data_kind_for(node: RenderNode) -> Option<BoxKind> {
    if node.kind is Text {
        Some(BoxKind::Inline(InlineContents::TextRun))
    } else {
        match node.display.full_spec() {
            Some((OuterDisplayType::Block, InnerDisplayType::Flow)) => Some(
                BoxKind::Block,
            ),
            Some((OuterDisplayType::Inline, _)) => Some(
                BoxKind::Inline(InlineContents::InlineBox),
            ),
            _ => None,
        }
    }
}

/// The kind of a box without its line boxes.
#[derive(Clone, Copy, Debug, PartialEq, Eq, Structural)]
pub enum BoxKind {
    Block,
    Inline(InlineContents),
}

pub open spec fn kind_of(d: BoxData) -> BoxKind {
    match d {
        BoxData::BlockBox { .. } => BoxKind::Block,
        BoxData::InlineContents(c) => BoxKind::Inline(c),
    }
}

impl LayoutBox {
    /// A fresh box: zero geometry, no context, detached.
    pub open spec fn is_fresh(&self) -> bool {
        &&& self.box_model == BoxModel { margin: zero_edges(), border: zero_edges(), padding: zero_edges() }
        &&& self.offset == (Point { x: 0, y: 0 })
        &&& self.content_size == (Size { width: 0, height: 0 })
        &&& self.formatting_context is None
        &&& self.parent is None
        &&& self.children@.len() == 0
    }

    /// The box that a styled node generates: a text run for text, a block
    /// for block flow, an inline box for inline flow or flow-root.
    pub fn new(render_node: RenderNode) -> (r: Result<LayoutBox, LayoutError>)
        ensures
            data_kind_for(render_node) is None <==> r == Err::<LayoutBox, LayoutError>(
                LayoutError::UnsupportedDisplay,
            ),
            data_kind_for(render_node) is Some ==> r is Ok,
            r matches Ok(b) ==> {
                &&& b.is_fresh()
                &&& b.node == Some(render_node)
                &&& data_kind_for(render_node) == Some(kind_of(b.data))
                &&& b.data.lines_spec().len() == 0
            },
    {
        let data = if render_node.is_text() {
            BoxData::text_run()
        } else {
            let d = render_node.get_style(&Property::Display);
            match d {
                Value::Display(d) => match d.full() {
                    Some((OuterDisplayType::Block, InnerDisplayType::Flow)) => BoxData::block_box(),
                    Some((OuterDisplayType::Inline, InnerDisplayType::Flow))
                    | Some((OuterDisplayType::Inline, InnerDisplayType::FlowRoot)) => {
                        BoxData::inline_box()
                    },
                    _ => {
                        return Err(LayoutError::UnsupportedDisplay);
                    },
                },
                _ => {
                    return Err(LayoutError::UnsupportedDisplay);
                },
            }
        };
        Ok(
            LayoutBox {
                data,
                node: Some(render_node),
                box_model: BoxModel::new(),
                offset: Point::new(0, 0),
                content_size: Size::new(0, 0),
                formatting_context: None,
                parent: None,
                children: Vec::new(),
            },
        )
    }

    /// A box with no source node, of the given kind.
    pub fn new_anonymous(data: BoxData) -> (r: LayoutBox)
        ensures
            r.is_fresh(),
            r.node is None,
            r.data == data,
    {
        LayoutBox {
            data,
            node: None,
            box_model: BoxModel::new(),
            offset: Point::new(0, 0),
            content_size: Size::new(0, 0),
            formatting_context: None,
            parent: None,
            children: Vec::new(),
        }
    }

    /// Offset, size and edges lie within the bounds the tree keeps.
    pub open spec fn geometry_bounded(&self) -> bool {
        &&& -MAX_OFFSET <= self.offset.x <= MAX_OFFSET
        &&& -MAX_OFFSET <= self.offset.y <= MAX_OFFSET
        &&& 0 <= self.content_size.width <= MAX_LENGTH
        &&& 0 <= self.content_size.height <= MAX_LENGTH
        &&& self.box_model.is_bounded()
    }
}

pub open spec fn zero_edges() -> crate::geometry::Edges {
    crate::geometry::Edges { top: 0, right: 0, bottom: 0, left: 0 }
}

/// How a box searches its ancestors for its containing block.
#[derive(Clone, Copy, Debug, PartialEq, Eq, Structural)]
pub enum AncestorRule {
    /// A block container, or a box that already has a formatting context.
    Flow,
    /// A box positioned relative, absolute or fixed (a box without a
    /// source node has no position and does not qualify).
    Positioned,
    /// The root.
    Root,
    /// A block container.
    Container,
}

/// The layout tree. Box 0 is the root; every other box has a parent with
/// a smaller index, so walking up always ends.
pub struct LayoutTree {
    boxes: Vec<LayoutBox>,
}

impl View for LayoutTree {
    type V = Seq<LayoutBox>;

    closed spec fn view(&self) -> Seq<LayoutBox> {
        self.boxes@
    }
}

/// A handle to a box of a `LayoutTree`.
#[derive(Clone, Copy, Debug, PartialEq, Eq, Structural)]
pub struct LayoutBoxPtr(pub usize);

impl LayoutTree {
    pub open spec fn len_spec(&self) -> int {
        self@.len() as int
    }

    pub open spec fn parent_of(&self, i: int) -> Option<usize> {
        self@[i].parent
    }

    pub open spec fn children_of(&self, i: int) -> Seq<usize> {
        self@[i].children@
    }

    pub open spec fn is_inline_spec(&self, i: int) -> bool {
        self@[i].data is InlineContents
    }

    pub open spec fn is_text_run_spec(&self, i: int) -> bool {
        self@[i].data == BoxData::InlineContents(InlineContents::TextRun)
    }

    pub open spec fn children_are_inline_spec(&self, i: int) -> bool {
        forall|k: int|
            0 <= k < self.children_of(i).len() ==> #[trigger] self.is_inline_spec(
                self.children_of(i)[k] as int,
            )
    }

    pub open spec fn is_block_container_spec(&self, i: int) -> bool {
        !self.children_are_inline_spec(i) || self@[i].formatting_context == Some(
            FormattingContextType::InlineFormattingContext,
        )
    }

    pub open spec fn position_of(&self, i: int) -> Option<Position> {
        match self@[i].node {
            Some(n) => Some(n.position),
            None => None,
        }
    }

    pub open spec fn is_positioned_spec(&self, i: int, p: Position) -> bool {
        self.position_of(i) == Some(p)
    }

    pub open spec fn rule_of(&self, i: int) -> AncestorRule {
        if self.is_positioned_spec(i, Position::Static) || self.is_positioned_spec(
            i,
            Position::Relative,
        ) {
            AncestorRule::Flow
        } else if self.is_positioned_spec(i, Position::Absolute) {
            AncestorRule::Positioned
        } else if self.is_positioned_spec(i, Position::Fixed) {
            AncestorRule::Root
        } else {
            AncestorRule::Container
        }
    }

    pub open spec fn matches_rule(&self, i: int, rule: AncestorRule) -> bool {
        match rule {
            AncestorRule::Flow => self.is_block_container_spec(i) || self@[i].formatting_context is Some,
            AncestorRule::Positioned => self.position_of(i) matches Some(p) && p != Position::Static,
            AncestorRule::Root => self.parent_of(i) is None,
            AncestorRule::Container => self.is_block_container_spec(i),
        }
    }

    /// The nearest proper ancestor of `i` that meets `rule`.
    pub open spec fn find_ancestor(&self, i: int, rule: AncestorRule) -> Option<int>
        decreases i,
    {
        if 0 <= i < self.len_spec() {
            match self.parent_of(i) {
                Some(p) => if 0 <= p < i {
                    if self.matches_rule(p as int, rule) {
                        Some(p as int)
                    } else {
                        self.find_ancestor(p as int, rule)
                    }
                } else {
                    None
                },
                None => None,
            }
        } else {
            None
        }
    }

    /// The containing block of box `i`, chosen by its positioning scheme.
    pub open spec fn containing_block_spec(&self, i: int) -> Option<int> {
        self.find_ancestor(i, self.rule_of(i))
    }

    /// Position of box `i` in the root's coordinate space, on one axis: its
    /// own offset plus the offsets of its chain of containing blocks.
    pub open spec fn abs_x(&self, i: int) -> int
        decreases i,
    {
        if 0 <= i {
            self@[i].offset.x + match self.containing_block_spec(i) {
                Some(c) => if 0 <= c < i {
                    self.abs_x(c)
                } else {
                    0
                },
                None => 0,
            }
        } else {
            0
        }
    }

    pub open spec fn abs_y(&self, i: int) -> int
        decreases i,
    {
        if 0 <= i {
            self@[i].offset.y + match self.containing_block_spec(i) {
                Some(c) => if 0 <= c < i {
                    self.abs_y(c)
                } else {
                    0
                },
                None => 0,
            }
        } else {
            0
        }
    }

    /// Every box on the containing-block chain of `i`, but the root, has a
    /// containing block.
    pub open spec fn chain_resolves(&self, i: int) -> bool
        decreases i,
    {
        i == 0 || match self.containing_block_spec(i) {
            Some(c) => 0 <= c < i && self.chain_resolves(c),
            None => false,
        }
    }

    /// Number of containing-block steps from `i` until none is found.
    pub open spec fn chain_steps(&self, i: int) -> nat
        decreases i,
    {
        if 0 <= i {
            match self.containing_block_spec(i) {
                Some(c) => if 0 <= c < i {
                    1 + self.chain_steps(c)
                } else {
                    0
                },
                None => 0,
            }
        } else {
            0
        }
    }

    /// Number of parent steps from `i` to the root.
    pub open spec fn depth(&self, i: int) -> nat
        decreases i,
    {
        if 0 <= i < self.len_spec() {
            match self.parent_of(i) {
                Some(p) => if 0 <= p < i {
                    1 + self.depth(p as int)
                } else {
                    0
                },
                None => 0,
            }
        } else {
            0
        }
    }

    /// The structural invariant of the tree.
    pub open spec fn wf(&self) -> bool {
        &&& 1 <= self.len_spec() <= MAX_BOXES
        &&& self.parent_of(0) is None
        &&& forall|i: int|
            0 < i < self.len_spec() ==> (#[trigger] self.parent_of(i) matches Some(p) && p < i
                && self.children_of(p as int).contains(i as usize))
        &&& forall|i: int, k: int|
            0 <= i < self.len_spec() && 0 <= k < self.children_of(i).len() ==> {
                let c = #[trigger] self.children_of(i)[k];
                i < c < self.len_spec() && self.parent_of(c as int) == Some(i as usize)
            }
        &&& forall|i: int| 0 <= i < self.len_spec() ==> #[trigger] self.box_ok(i)
        &&& forall|i: int| 0 <= i < self.len_spec() ==> #[trigger] self.children_of(i).no_duplicates()
        &&& forall|i: int| 0 <= i < self.len_spec() ==> #[trigger] self.children_of(i).len() < self.len_spec()
        &&& forall|i: int, k1: int, k2: int|
            0 <= i < self.len_spec() && 0 <= k1 < k2 < self.children_of(i).len()
                ==> #[trigger] self.children_of(i)[k1] < #[trigger] self.children_of(i)[k2]
    }

    /// What holds of each box: bounded geometry, text runs are leaves, and
    /// line boxes are held only over inline children.
    pub open spec fn box_ok(&self, i: int) -> bool {
        &&& self@[i].geometry_bounded()
        &&& self.is_text_run_spec(i) ==> self.children_of(i).len() == 0
        &&& self@[i].data.lines_spec().len() > 0 ==> self.children_are_inline_spec(i)
    }

    /// A tree of one root box.
    pub fn new(root: LayoutBox) -> (r: LayoutTree)
        requires
            root.geometry_bounded(),
        ensures
            r.wf(),
            r@.len() == 1,
            r@[0].data == root.data,
            r@[0].node == root.node,
            r@[0].box_model == root.box_model,
            r@[0].offset == root.offset,
            r@[0].content_size == root.content_size,
            r@[0].formatting_context == root.formatting_context,
            r@[0].parent is None,
            r@[0].children@.len() == 0,
    {
        let mut root = root;
        root.parent = None;
        root.children = Vec::new();
        let mut boxes: Vec<LayoutBox> = Vec::new();
        boxes.push(root);
        let r = LayoutTree { boxes };
        assert(r.box_ok(0));
        r
    }


    /// Attaches `child` as the last child of `parent` and returns its handle.
    /// The parent's line boxes are dropped, as its children changed.
    pub fn append_child(&mut self, parent: LayoutBoxPtr, child: LayoutBox) -> (r: Result<
        LayoutBoxPtr,
        LayoutError,
    >)
        requires
            old(self).wf(),
            parent.0 < old(self)@.len(),
            child.geometry_bounded(),
        ensures
            final(self).wf(),
            old(self).is_text_run_spec(parent.0 as int) ==> r == Err::<LayoutBoxPtr, LayoutError>(
                LayoutError::CannotHaveChildren,
            ),
            !old(self).is_text_run_spec(parent.0 as int) && old(self)@.len() == MAX_BOXES ==> r
                == Err::<LayoutBoxPtr, LayoutError>(LayoutError::TooManyBoxes),
            !old(self).is_text_run_spec(parent.0 as int) && old(self)@.len() < MAX_BOXES ==> r
                is Ok,
            r is Err ==> final(self)@ == old(self)@,
            r matches Ok(c) ==> {
                &&& c.0 == old(self)@.len()
                &&& final(self)@.len() == old(self)@.len() + 1
                &&& final(self)@[c.0 as int].data == child.data
                &&& final(self)@[c.0 as int].node == child.node
                &&& final(self)@[c.0 as int].box_model == child.box_model
                &&& final(self)@[c.0 as int].offset == child.offset
                &&& final(self)@[c.0 as int].content_size == child.content_size
                &&& final(self)@[c.0 as int].formatting_context == child.formatting_context
                &&& final(self)@[c.0 as int].parent == Some(parent.0)
                &&& final(self)@[c.0 as int].children@.len() == 0
                &&& final(self).children_of(parent.0 as int) == old(self).children_of(
                    parent.0 as int,
                ).push(c.0)
                &&& final(self)@[parent.0 as int].data.lines_spec().len() == 0
                &&& kind_of(final(self)@[parent.0 as int].data) == kind_of(
                    old(self)@[parent.0 as int].data,
                )
                &&& final(self)@[parent.0 as int].node == old(self)@[parent.0 as int].node
                &&& final(self)@[parent.0 as int].box_model == old(self)@[parent.0 as int].box_model
                &&& final(self)@[parent.0 as int].offset == old(self)@[parent.0 as int].offset
                &&& final(self)@[parent.0 as int].content_size == old(
                    self,
                )@[parent.0 as int].content_size
                &&& final(self)@[parent.0 as int].formatting_context == old(
                    self,
                )@[parent.0 as int].formatting_context
                &&& final(self)@[parent.0 as int].parent == old(self)@[parent.0 as int].parent
                &&& forall|j: int|
                    0 <= j < old(self)@.len() && j != parent.0 ==> final(self)@[j] == old(
                        self,
                    )@[j]
            },
    {
        let p = parent.0;
        let is_text = match self.boxes[p].data {
            BoxData::InlineContents(InlineContents::TextRun) => true,
            _ => false,
        };
        if is_text {
            return Err(LayoutError::CannotHaveChildren);
        }
        if self.boxes.len() >= MAX_BOXES {
            return Err(LayoutError::TooManyBoxes);
        }
        let ghost old_tree = *self;
        let idx = self.boxes.len();
        let mut child = child;
        child.parent = Some(p);
        child.children = Vec::new();
        self.boxes.push(child);
        self.boxes[p].children.push(idx);
        let is_block = match self.boxes[p].data {
            BoxData::BlockBox { .. } => true,
            _ => false,
        };
        if is_block {
            self.boxes[p].data = BoxData::block_box();
        }
        proof {
            assert forall|i: int| 0 < i < self.len_spec() implies (#[trigger] self.parent_of(
                i,
            ) matches Some(q) && q < i && self.children_of(q as int).contains(i as usize)) by {
                if i < old_tree.len_spec() {
                    let q = old_tree.parent_of(i)->0;
                    if q == p {
                        let k = choose|k: int|
                            0 <= k < old_tree.children_of(q as int).len()
                                && old_tree.children_of(q as int)[k] == i as usize;
                        assert(self.children_of(q as int)[k] == i as usize);
                    }
                } else {
                    assert(self.children_of(p as int)[self.children_of(p as int).len() - 1]
                        == idx);
                }
            }
            assert forall|i: int, k: int|
                0 <= i < self.len_spec() && 0 <= k < self.children_of(i).len() implies {
                let c = #[trigger] self.children_of(i)[k];
                i < c < self.len_spec() && self.parent_of(c as int) == Some(i as usize)
            } by {
                if i != p && i < old_tree.len_spec() {
                    assert(self.children_of(i) == old_tree.children_of(i));
                }
                if i == p && k < old_tree.children_of(i).len() {
                    assert(self.children_of(i)[k] == old_tree.children_of(i)[k]);
                }
            }
            assert forall|i: int, k1: int, k2: int|
                0 <= i < self.len_spec() && 0 <= k1 < k2 < self.children_of(i).len()
                    implies #[trigger] self.children_of(i)[k1] < #[trigger] self.children_of(i)[k2] by {
                if i < old_tree.len_spec() {
                    if i == p && k2 == old_tree.children_of(i).len() {
                        assert(old_tree.children_of(i)[k1] < old_tree.len_spec());
                    }
                    if i != p {
                        assert(self.children_of(i) == old_tree.children_of(i));
                    }
                }
            }
            assert forall|i: int| 0 <= i < self.len_spec() implies #[trigger] self.children_of(i).len() < self.len_spec() by {
                if i < old_tree.len_spec() {
                    assert(old_tree.children_of(i).len() < old_tree.len_spec());
                }
            }
            assert forall|i: int| 0 <= i < self.len_spec() implies #[trigger] self.children_of(i).no_duplicates() by {
                if i < old_tree.len_spec() {
                    assert(old_tree.children_of(i).no_duplicates());
                    if i == p {
                        assert forall|k: int| 0 <= k < old_tree.children_of(i).len() implies old_tree.children_of(i)[k] != idx by {
                            assert(old_tree.children_of(i)[k] < old_tree.len_spec());
                        }
                        assert(self.children_of(i) == old_tree.children_of(i).push(idx));
                    }
                } else {
                    assert(self.children_of(i).len() == 0);
                }
            }
            assert forall|i: int| 0 <= i < self.len_spec() implies #[trigger] self.box_ok(i) by {
                if i < old_tree.len_spec() {
                    assert(old_tree.box_ok(i));
                    if i != p {
                        assert forall|k: int|
                            0 <= k < self.children_of(i).len() implies #[trigger] self.is_inline_spec(
                            self.children_of(i)[k] as int,
                        ) == old_tree.is_inline_spec(old_tree.children_of(i)[k] as int) by {
                            assert(old_tree.children_of(i)[k] < old_tree.len_spec());
                        }
                    }
                }
            }
        }
        Ok(LayoutBoxPtr(idx))
    }

    pub fn len(&self) -> (r: usize)
        ensures
            r == self@.len(),
    {
        self.boxes.len()
    }

    pub fn root(&self) -> (r: LayoutBoxPtr)
        requires
            self.wf(),
        ensures
            r.0 == 0,
    {
        LayoutBoxPtr(0)
    }

    /// The box behind a handle.
    pub fn get(&self, p: LayoutBoxPtr) -> (r: &LayoutBox)
        requires
            p.0 < self@.len(),
        ensures
            *r == self@[p.0 as int],
    {
        &self.boxes[p.0]
    }
}

impl LayoutBoxPtr {
    /// The handle names a box of a well-formed tree.
    pub open spec fn valid(&self, tree: &LayoutTree) -> bool {
        tree.wf() && self.0 < tree@.len()
    }

    pub open spec fn idx(&self) -> int {
        self.0 as int
    }

    /// Whether the box's source node is an element with tag `tag`.
    pub open spec fn has_tag(&self, tree: &LayoutTree, tag: Seq<char>) -> bool {
        tree@[self.idx()].node matches Some(n) && n.tag_spec() == Some(tag)
    }

    fn tag_is(&self, tree: &LayoutTree, tag: &str) -> (r: bool)
        requires
            self.valid(tree),
        ensures
            r == self.has_tag(tree, tag@),
    {
        match &tree.boxes[self.0].node {
            Some(n) => match n.tag_name() {
                Some(t) => *t == String::from_str(tag),
                None => false,
            },
            None => false,
        }
    }

    pub fn is_root_element(&self, tree: &LayoutTree) -> (r: bool)
        requires
            self.valid(tree),
        ensures
            r == self.has_tag(tree, "html"@),
    {
        self.tag_is(tree, "html")
    }

    pub fn is_body_element(&self, tree: &LayoutTree) -> (r: bool)
        requires
            self.valid(tree),
        ensures
            r == self.has_tag(tree, "body"@),
    {
        self.tag_is(tree, "body")
    }

    pub fn is_anonymous(&self, tree: &LayoutTree) -> (r: bool)
        requires
            self.valid(tree),
        ensures
            r == (tree@[self.idx()].node is None),
    {
        tree.boxes[self.0].node.is_none()
    }

    pub fn children_are_inline(&self, tree: &LayoutTree) -> (r: bool)
        requires
            self.valid(tree),
        ensures
            r == tree.children_are_inline_spec(self.idx()),
    {
        let children = &tree.boxes[self.0].children;
        let mut k: usize = 0;
        while k < children.len()
            invariant
                self.valid(tree),
                children@ == tree.children_of(self.idx()),
                k <= children@.len(),
                forall|j: int| 0 <= j < k ==> #[trigger] tree.is_inline_spec(children@[j] as int),
            decreases children@.len() - k,
        {
            let c = children[k];
            assert(tree.children_of(self.idx())[k as int] == c);
            if !LayoutBoxPtr(c).is_inline(tree) {
                return false;
            }
            k = k + 1;
        }
        true
    }

    pub fn is_block_container(&self, tree: &LayoutTree) -> (r: bool)
        requires
            self.valid(tree),
        ensures
            r == tree.is_block_container_spec(self.idx()),
    {
        let all_inline = self.children_are_inline(tree);
        let is_block = !all_inline;
        let establishes_inline = all_inline && match tree.boxes[self.0].formatting_context {
            Some(FormattingContextType::InlineFormattingContext) => true,
            _ => false,
        };
        is_block || establishes_inline
    }

    fn matches_rule(&self, tree: &LayoutTree, rule: AncestorRule) -> (r: bool)
        requires
            self.valid(tree),
        ensures
            r == tree.matches_rule(self.idx(), rule),
    {
        match rule {
            AncestorRule::Flow => self.is_block_container(tree)
                || tree.boxes[self.0].formatting_context.is_some(),
            AncestorRule::Positioned => self.is_positioned(tree, Position::Relative)
                || self.is_positioned(tree, Position::Absolute) || self.is_positioned(
                tree,
                Position::Fixed,
            ),
            AncestorRule::Root => tree.boxes[self.0].parent.is_none(),
            AncestorRule::Container => self.is_block_container(tree),
        }
    }

    /// The ancestor whose content box gives this box its coordinates:
    /// for static and relative boxes the nearest block container or box
    /// with a formatting context, for absolute boxes the nearest box
    /// positioned relative, absolute or fixed, for fixed boxes the root, and for anonymous boxes the
    /// nearest block container. Only the root has none; any other box that
    /// finds none is an error.
    pub fn containing_block(&self, tree: &LayoutTree) -> (r: Result<
        Option<LayoutBoxPtr>,
        LayoutError,
    >)
        requires
            self.valid(tree),
        ensures
            self.0 == 0 <==> tree@[self.idx()].parent is None,
            self.0 == 0 ==> r == Ok::<Option<LayoutBoxPtr>, LayoutError>(None),
            self.0 != 0 ==> match tree.containing_block_spec(self.idx()) {
                Some(c) => r == Ok::<Option<LayoutBoxPtr>, LayoutError>(Some(LayoutBoxPtr(c as usize))),
                None => r == Err::<Option<LayoutBoxPtr>, LayoutError>(LayoutError::MissingContainingBlock),
            },
    {
        proof {
            tree.lemma_containing_block_before(self.idx());
        }
        match self.find_containing_block(tree) {
            Some(c) => Ok(Some(c)),
            None => {
                if self.0 == 0 {
                    Ok(None)
                } else {
                    Err(LayoutError::MissingContainingBlock)
                }
            },
        }
    }

    fn find_containing_block(&self, tree: &LayoutTree) -> (r: Option<LayoutBoxPtr>)
        requires
            self.valid(tree),
        ensures
            r matches Some(c) ==> tree.containing_block_spec(self.idx()) == Some(c.idx()),
            r is None ==> tree.containing_block_spec(self.idx()) is None,
    {
        let rule = if self.is_positioned(tree, Position::Static) || self.is_positioned(
            tree,
            Position::Relative,
        ) {
            AncestorRule::Flow
        } else if self.is_positioned(tree, Position::Absolute) {
            AncestorRule::Positioned
        } else if self.is_positioned(tree, Position::Fixed) {
            AncestorRule::Root
        } else {
            AncestorRule::Container
        };
        let mut cur: usize = self.0;
        loop
            invariant
                self.valid(tree),
                cur < tree@.len(),
                rule == tree.rule_of(self.idx()),
                tree.find_ancestor(self.idx(), rule) == tree.find_ancestor(cur as int, rule),
            decreases cur,
        {
            match tree.boxes[cur].parent {
                Some(p) => {
                    if cur == 0 {
                        return None;
                    }
                    assert(tree.parent_of(cur as int) == Some(p));
                    if LayoutBoxPtr(p).matches_rule(tree, rule) {
                        return Some(LayoutBoxPtr(p));
                    }
                    cur = p;
                },
                None => {
                    return None;
                },
            }
        }
    }

    pub fn can_have_children(&self, tree: &LayoutTree) -> (r: bool)
        requires
            self.valid(tree),
        ensures
            r == !tree.is_text_run_spec(self.idx()),
    {
        match tree.boxes[self.0].data {
            BoxData::InlineContents(InlineContents::TextRun) => false,
            _ => true,
        }
    }

    pub fn is_inline(&self, tree: &LayoutTree) -> (r: bool)
        requires
            self.valid(tree),
        ensures
            r == tree.is_inline_spec(self.idx()),
    {
        match tree.boxes[self.0].data {
            BoxData::InlineContents(_) => true,
            _ => false,
        }
    }

    pub fn is_block(&self, tree: &LayoutTree) -> (r: bool)
        requires
            self.valid(tree),
        ensures
            r == (tree@[self.idx()].data is BlockBox),
    {
        match tree.boxes[self.0].data {
            BoxData::BlockBox { .. } => true,
            _ => false,
        }
    }

    /// An inline box whose source node's display is inner flow-root.
    pub open spec fn is_inline_block_spec(&self, tree: &LayoutTree) -> bool {
        &&& tree@[self.idx()].node matches Some(n)
        &&& n.display.full_spec() matches Some((_, InnerDisplayType::FlowRoot))
        &&& tree.is_inline_spec(self.idx())
    }

    pub fn is_inline_block(&self, tree: &LayoutTree) -> (r: bool)
        requires
            self.valid(tree),
        ensures
            r == self.is_inline_block_spec(tree),
    {
        match &tree.boxes[self.0].node {
            Some(n) => match n.get_style(&Property::Display) {
                Value::Display(d) => match d.full() {
                    Some((_, InnerDisplayType::FlowRoot)) => self.is_inline(tree),
                    _ => false,
                },
                _ => false,
            },
            None => false,
        }
    }

    pub fn is_positioned(&self, tree: &LayoutTree, position: Position) -> (r: bool)
        requires
            self.valid(tree),
        ensures
            r == tree.is_positioned_spec(self.idx(), position),
    {
        match &tree.boxes[self.0].node {
            Some(n) => match n.get_style(&Property::Position) {
                Value::Position(pos) => pos == position,
                _ => false,
            },
            None => false,
        }
    }

    /// False only for elements whose content is replaced: video, image,
    /// img and canvas.
    pub open spec fn is_non_replaced_spec(&self, tree: &LayoutTree) -> bool {
        !(self.has_tag(tree, "video"@) || self.has_tag(tree, "image"@) || self.has_tag(
            tree,
            "img"@,
        ) || self.has_tag(tree, "canvas"@))
    }

    pub fn is_non_replaced(&self, tree: &LayoutTree) -> (r: bool)
        requires
            self.valid(tree),
        ensures
            r == self.is_non_replaced_spec(tree),
    {
        !(self.tag_is(tree, "video") || self.tag_is(tree, "image") || self.tag_is(tree, "img")
            || self.tag_is(tree, "canvas"))
    }
}

/// `b` with its content size replaced.
pub open spec fn with_size(b: LayoutBox, s: Size) -> LayoutBox {
    LayoutBox { content_size: s, ..b }
}

/// `b` with its offset replaced.
pub open spec fn with_offset(b: LayoutBox, p: Point) -> LayoutBox {
    LayoutBox { offset: p, ..b }
}

/// `b` with its formatting context replaced.
pub open spec fn with_context(b: LayoutBox, c: Option<FormattingContextType>) -> LayoutBox {
    LayoutBox { formatting_context: c, ..b }
}

impl LayoutTree {
    /// An ancestor found by a search lies before the box searched from.
    pub proof fn lemma_find_ancestor_before(&self, i: int, rule: AncestorRule)
        ensures
            self.find_ancestor(i, rule) matches Some(c) ==> 0 <= c < i,
        decreases i,
    {
        if 0 <= i < self.len_spec() {
            if let Some(p) = self.parent_of(i) {
                if 0 <= p < i && !self.matches_rule(p as int, rule) {
                    self.lemma_find_ancestor_before(p as int, rule);
                }
            }
        }
    }

    /// The containing block of a box lies before it.
    pub proof fn lemma_containing_block_before(&self, i: int)
        ensures
            self.containing_block_spec(i) matches Some(c) ==> 0 <= c < i,
    {
        self.lemma_find_ancestor_before(i, self.rule_of(i));
    }

    /// Absolute coordinates stay within `(i + 1) * MAX_OFFSET`.
    pub proof fn lemma_abs_bounded(&self, i: int)
        requires
            self.wf(),
            0 <= i < self.len_spec(),
        ensures
            -(i + 1) * MAX_OFFSET <= self.abs_x(i) <= (i + 1) * MAX_OFFSET,
            -(i + 1) * MAX_OFFSET <= self.abs_y(i) <= (i + 1) * MAX_OFFSET,
        decreases i,
    {
        assert(self.box_ok(i));
        self.lemma_containing_block_before(i);
        if let Some(c) = self.containing_block_spec(i) {
            self.lemma_abs_bounded(c);
        }
    }

    /// Changing one box's geometry, context or line boxes, within bounds and
    /// keeping its kind and its place in the tree, keeps the tree well formed.
    pub proof fn lemma_geometry_update(&self, other: &LayoutTree, i: int)
        requires
            self.wf(),
            0 <= i < self.len_spec(),
            other@.len() == self@.len(),
            forall|j: int| 0 <= j < self.len_spec() && j != i ==> other@[j] == self@[j],
            kind_of(other@[i].data) == kind_of(self@[i].data),
            other@[i].data.lines_spec().len() > 0 ==> self.children_are_inline_spec(i),
            other@[i].node == self@[i].node,
            other@[i].parent == self@[i].parent,
            other@[i].children == self@[i].children,
            other@[i].geometry_bounded(),
        ensures
            other.wf(),
    {
        assert forall|j: int| 0 < j < other.len_spec() implies (#[trigger] other.parent_of(
            j,
        ) matches Some(q) && q < j && other.children_of(q as int).contains(j as usize)) by {
            assert(self.parent_of(j) matches Some(q) && q < j && self.children_of(
                q as int,
            ).contains(j as usize));
        }
        assert forall|j: int, k: int|
            0 <= j < other.len_spec() && 0 <= k < other.children_of(j).len() implies {
            let c = #[trigger] other.children_of(j)[k];
            j < c < other.len_spec() && other.parent_of(c as int) == Some(j as usize)
        } by {
            assert(other.children_of(j) == self.children_of(j));
            let c = self.children_of(j)[k];
            assert(j < c < self.len_spec() && self.parent_of(c as int) == Some(j as usize));
        }
        assert forall|j: int, k1: int, k2: int|
            0 <= j < other.len_spec() && 0 <= k1 < k2 < other.children_of(j).len()
                implies #[trigger] other.children_of(j)[k1] < #[trigger] other.children_of(j)[k2] by {
            assert(other.children_of(j) == self.children_of(j));
        }
        assert forall|j: int| 0 <= j < other.len_spec() implies #[trigger] other.children_of(j).len() < other.len_spec() by {
            assert(self.children_of(j).len() < self.len_spec());
            assert(other.children_of(j) == self.children_of(j));
        }
        assert forall|j: int| 0 <= j < other.len_spec() implies #[trigger] other.children_of(j).no_duplicates() by {
            assert(self.children_of(j).no_duplicates());
            assert(other.children_of(j) == self.children_of(j));
        }
        assert forall|j: int| 0 <= j < other.len_spec() implies #[trigger] other.box_ok(j) by {
            assert(self.box_ok(j));
            assert(other.children_of(j) == self.children_of(j));
            assert forall|k: int| 0 <= k < other.children_of(j).len() implies #[trigger] other.is_inline_spec(
                other.children_of(j)[k] as int,
            ) == self.is_inline_spec(self.children_of(j)[k] as int) by {
                let c = self.children_of(j)[k];
                assert(j < c < self.len_spec());
            }
        }
    }
}

impl LayoutBoxPtr {
    /// The box's content rectangle in the root's coordinate space.
    pub open spec fn absolute_rect_spec(&self, tree: &LayoutTree) -> Rect {
        Rect {
            x: tree.abs_x(self.idx()) as i64,
            y: tree.abs_y(self.idx()) as i64,
            width: tree@[self.idx()].content_size.width,
            height: tree@[self.idx()].content_size.height,
        }
    }

    pub fn box_model(&self, tree: &LayoutTree) -> (r: BoxModel)
        requires
            self.valid(tree),
        ensures
            r == tree@[self.idx()].box_model,
    {
        tree.boxes[self.0].box_model
    }

    pub fn content_size(&self, tree: &LayoutTree) -> (r: Size)
        requires
            self.valid(tree),
        ensures
            r == tree@[self.idx()].content_size,
    {
        tree.boxes[self.0].content_size
    }

    pub fn offset(&self, tree: &LayoutTree) -> (r: Point)
        requires
            self.valid(tree),
        ensures
            r == tree@[self.idx()].offset,
    {
        tree.boxes[self.0].offset
    }

    pub fn set_content_width(&self, tree: &mut LayoutTree, width: i64)
        requires
            self.valid(old(tree)),
            0 <= width <= MAX_LENGTH,
        ensures
            final(tree).wf(),
            final(tree)@ == old(tree)@.update(
                self.idx(),
                with_size(
                    old(tree)@[self.idx()],
                    Size { width, height: old(tree)@[self.idx()].content_size.height },
                ),
            ),
    {
        let ghost old_tree = *tree;
        tree.boxes[self.0].content_size.width = width;
        proof {
            assert(tree@ =~= old_tree@.update(
                self.idx(),
                with_size(
                    old_tree@[self.idx()],
                    Size { width, height: old_tree@[self.idx()].content_size.height },
                ),
            ));
            assert(old_tree.box_ok(self.idx()));
            old_tree.lemma_geometry_update(tree, self.idx());
        }
    }

    pub fn set_content_height(&self, tree: &mut LayoutTree, height: i64)
        requires
            self.valid(old(tree)),
            0 <= height <= MAX_LENGTH,
        ensures
            final(tree).wf(),
            final(tree)@ == old(tree)@.update(
                self.idx(),
                with_size(
                    old(tree)@[self.idx()],
                    Size { width: old(tree)@[self.idx()].content_size.width, height },
                ),
            ),
    {
        let ghost old_tree = *tree;
        tree.boxes[self.0].content_size.height = height;
        proof {
            assert(tree@ =~= old_tree@.update(
                self.idx(),
                with_size(
                    old_tree@[self.idx()],
                    Size { width: old_tree@[self.idx()].content_size.width, height },
                ),
            ));
            assert(old_tree.box_ok(self.idx()));
            old_tree.lemma_geometry_update(tree, self.idx());
        }
    }

    pub fn set_offset(&self, tree: &mut LayoutTree, x: i64, y: i64)
        requires
            self.valid(old(tree)),
            -MAX_OFFSET <= x <= MAX_OFFSET,
            -MAX_OFFSET <= y <= MAX_OFFSET,
        ensures
            final(tree).wf(),
            final(tree)@ == old(tree)@.update(
                self.idx(),
                with_offset(old(tree)@[self.idx()], Point { x, y }),
            ),
    {
        let ghost old_tree = *tree;
        tree.boxes[self.0].offset.x = x;
        tree.boxes[self.0].offset.y = y;
        proof {
            assert(tree@ =~= old_tree@.update(
                self.idx(),
                with_offset(old_tree@[self.idx()], Point { x, y }),
            ));
            assert(old_tree.box_ok(self.idx()));
            old_tree.lemma_geometry_update(tree, self.idx());
        }
    }

    /// Replaces the box's edge quantities.
    pub fn set_box_model(&self, tree: &mut LayoutTree, model: BoxModel)
        requires
            self.valid(old(tree)),
            model.is_bounded(),
        ensures
            final(tree).wf(),
            final(tree)@ == old(tree)@.update(
                self.idx(),
                LayoutBox { box_model: model, ..old(tree)@[self.idx()] },
            ),
    {
        let ghost old_tree = *tree;
        tree.boxes[self.0].box_model = model;
        proof {
            assert(tree@ =~= old_tree@.update(
                self.idx(),
                LayoutBox { box_model: model, ..old_tree@[self.idx()] },
            ));
            assert(old_tree.box_ok(self.idx()));
            old_tree.lemma_geometry_update(tree, self.idx());
        }
    }

    /// Content height plus the top and bottom margins.
    pub fn margin_box_height(&self, tree: &LayoutTree) -> (r: i64)
        requires
            self.valid(tree),
        ensures
            r == tree@[self.idx()].content_size.height + tree@[self.idx()].box_model.margin.top
                + tree@[self.idx()].box_model.margin.bottom,
    {
        proof {
            assert(tree.box_ok(self.idx()));
        }
        let margin = tree.boxes[self.0].box_model.margin_box();
        tree.boxes[self.0].content_size.height + margin.top + margin.bottom
    }

    /// Content width plus the left and right margins.
    pub fn margin_box_width(&self, tree: &LayoutTree) -> (r: i64)
        requires
            self.valid(tree),
        ensures
            r == tree@[self.idx()].content_size.width + tree@[self.idx()].box_model.margin.left
                + tree@[self.idx()].box_model.margin.right,
    {
        proof {
            assert(tree.box_ok(self.idx()));
        }
        let margin = tree.boxes[self.0].box_model.margin_box();
        tree.boxes[self.0].content_size.width + margin.left + margin.right
    }

    /// The content rectangle moved into the root's coordinates by the
    /// offsets of the whole containing-block chain; an error where a box on
    /// the chain, other than the root, has no containing block.
    pub fn absolute_rect(&self, tree: &LayoutTree) -> (r: Result<Rect, LayoutError>)
        requires
            self.valid(tree),
        ensures
            tree.chain_resolves(self.idx()) ==> r == Ok::<Rect, LayoutError>(
                self.absolute_rect_spec(tree),
            ),
            !tree.chain_resolves(self.idx()) ==> r == Err::<Rect, LayoutError>(
                LayoutError::MissingContainingBlock,
            ),
    {
        let i = self.0;
        proof {
            assert(tree.box_ok(i as int));
            tree.lemma_containing_block_before(i as int);
        }
        let mut rect = Rect::from_point_size(tree.boxes[i].offset, tree.boxes[i].content_size);
        let mut cur = match self.containing_block(tree) {
            Ok(c) => c,
            Err(e) => {
                return Err(e);
            },
        };
        let ghost mut steps: int = 0;
        while cur.is_some()
            invariant
                self.valid(tree),
                i == self.0,
                rect.width == tree@[i as int].content_size.width,
                rect.height == tree@[i as int].content_size.height,
                0 <= steps,
                cur matches Some(c) ==> steps + c.0 < i,
                cur is None ==> steps <= i,
                tree.chain_resolves(i as int) == match cur {
                    Some(c) => tree.chain_resolves(c.idx()),
                    None => true,
                },
                -(steps + 1) * MAX_OFFSET <= rect.x <= (steps + 1) * MAX_OFFSET,
                -(steps + 1) * MAX_OFFSET <= rect.y <= (steps + 1) * MAX_OFFSET,
                rect.x + (match cur {
                    Some(c) => tree.abs_x(c.idx()),
                    None => 0,
                }) == tree.abs_x(i as int),
                rect.y + (match cur {
                    Some(c) => tree.abs_y(c.idx()),
                    None => 0,
                }) == tree.abs_y(i as int),
            decreases
                match cur {
                    Some(c) => c.0 + 1,
                    None => 0,
                },
        {
            let c = cur.unwrap();
            proof {
                assert(tree.box_ok(c.idx()));
                tree.lemma_containing_block_before(c.idx());
            }
            let off = tree.boxes[c.0].offset;
            rect.translate(off.x, off.y);
            cur = match c.containing_block(tree) {
                Ok(n) => n,
                Err(e) => {
                    return Err(e);
                },
            };
            proof {
                steps = steps + 1;
            }
        }
        Ok(rect)
    }

    /// The origin of `absolute_rect`.
    pub fn absolute_location(&self, tree: &LayoutTree) -> (r: Result<Point, LayoutError>)
        requires
            self.valid(tree),
        ensures
            tree.chain_resolves(self.idx()) ==> (r matches Ok(p) && p.x == tree.abs_x(self.idx())
                && p.y == tree.abs_y(self.idx())),
            !tree.chain_resolves(self.idx()) ==> r == Err::<Point, LayoutError>(
                LayoutError::MissingContainingBlock,
            ),
    {
        proof {
            tree.lemma_abs_bounded(self.idx());
        }
        match self.absolute_rect(tree) {
            Ok(rect) => Ok(Point::new(rect.x, rect.y)),
            Err(e) => Err(e),
        }
    }

    /// The absolute content rectangle grown by the padding.
    pub fn padding_box_absolute(&self, tree: &LayoutTree) -> (r: Result<Rect, LayoutError>)
        requires
            self.valid(tree),
        ensures
            tree.chain_resolves(self.idx()) ==> r == Ok::<Rect, LayoutError>(
                self.absolute_rect_spec(tree).outer_spec(tree@[self.idx()].box_model.padding),
            ),
            !tree.chain_resolves(self.idx()) ==> r == Err::<Rect, LayoutError>(
                LayoutError::MissingContainingBlock,
            ),
    {
        proof {
            assert(tree.box_ok(self.idx()));
            tree.lemma_abs_bounded(self.idx());
        }
        let padding = tree.boxes[self.0].box_model.padding_box();
        match self.absolute_rect(tree) {
            Ok(rect) => Ok(rect.add_outer_edges(&padding)),
            Err(e) => Err(e),
        }
    }

    /// The absolute content rectangle grown by the padding and the border.
    pub fn border_box_absolute(&self, tree: &LayoutTree) -> (r: Result<Rect, LayoutError>)
        requires
            self.valid(tree),
        ensures
            tree.chain_resolves(self.idx()) ==> r == Ok::<Rect, LayoutError>(
                self.absolute_rect_spec(tree).outer_spec(
                    tree@[self.idx()].box_model.padding,
                ).outer_spec(tree@[self.idx()].box_model.border),
            ),
            !tree.chain_resolves(self.idx()) ==> r == Err::<Rect, LayoutError>(
                LayoutError::MissingContainingBlock,
            ),
    {
        proof {
            assert(tree.box_ok(self.idx()));
            tree.lemma_abs_bounded(self.idx());
        }
        let border = tree.boxes[self.0].box_model.border_box();
        match self.padding_box_absolute(tree) {
            Ok(rect) => Ok(rect.add_outer_edges(&border)),
            Err(e) => Err(e),
        }
    }
}

impl LayoutBoxPtr {
    pub fn render_node<'a>(&self, tree: &'a LayoutTree) -> (r: Option<&'a RenderNode>)
        requires
            self.valid(tree),
        ensures
            r matches Some(n) ==> tree@[self.idx()].node == Some(*n),
            r is None ==> tree@[self.idx()].node is None,
    {
        match &tree.boxes[self.0].node {
            Some(n) => Some(n),
            None => None,
        }
    }

    /// The name of the box's kind.
    pub open spec fn friendly_name_spec(&self, tree: &LayoutTree) -> Seq<char> {
        match tree@[self.idx()].data {
            BoxData::BlockBox { .. } => "BlockBox"@,
            BoxData::InlineContents(InlineContents::TextRun) => "TextRun"@,
            BoxData::InlineContents(_) => "InlineBox"@,
        }
    }

    pub fn friendly_name(&self, tree: &LayoutTree) -> (r: String)
        requires
            self.valid(tree),
        ensures
            r@ == self.friendly_name_spec(tree),
    {
        match tree.boxes[self.0].data {
            BoxData::BlockBox { .. } => String::from_str("BlockBox"),
            BoxData::InlineContents(InlineContents::TextRun) => String::from_str("TextRun"),
            BoxData::InlineContents(_) => String::from_str("InlineBox"),
        }
    }

    /// The context assigned to the box; reading it before one is assigned
    /// is an error.
    pub fn formatting_context(&self, tree: &LayoutTree) -> (r: Result<
        FormattingContextType,
        LayoutError,
    >)
        requires
            self.valid(tree),
        ensures
            tree@[self.idx()].formatting_context matches Some(c) ==> r == Ok::<
                FormattingContextType,
                LayoutError,
            >(c),
            tree@[self.idx()].formatting_context is None ==> r == Err::<
                FormattingContextType,
                LayoutError,
            >(LayoutError::MissingFormattingContext),
    {
        match tree.boxes[self.0].formatting_context {
            Some(c) => Ok(c),
            None => Err(LayoutError::MissingFormattingContext),
        }
    }

    /// Assigns (or, on a later pass, replaces) the box's context.
    pub fn set_formatting_context(&self, tree: &mut LayoutTree, context: FormattingContextType)
        requires
            self.valid(old(tree)),
        ensures
            final(tree).wf(),
            final(tree)@ == old(tree)@.update(
                self.idx(),
                with_context(old(tree)@[self.idx()], Some(context)),
            ),
    {
        let ghost old_tree = *tree;
        tree.boxes[self.0].formatting_context = Some(context);
        proof {
            assert(tree@ =~= old_tree@.update(
                self.idx(),
                with_context(old_tree@[self.idx()], Some(context)),
            ));
            assert(old_tree.box_ok(self.idx()));
            old_tree.lemma_geometry_update(tree, self.idx());
        }
    }

    /// The line boxes of a block box.
    pub fn lines<'a>(&self, tree: &'a LayoutTree) -> (r: &'a Vec<LineBox>)
        requires
            self.valid(tree),
            tree@[self.idx()].data is BlockBox,
        ensures
            r@ == tree@[self.idx()].data.lines_spec(),
    {
        match &tree.boxes[self.0].data {
            BoxData::BlockBox { lines } => lines,
            BoxData::InlineContents(_) => {
                assert(false);
                unreached()
            },
        }
    }

    /// Whether explicit sizes leave the box alone: inline content that is
    /// not an inline block, or a box with no source node.
    pub open spec fn sized_by_content(&self, tree: &LayoutTree) -> bool {
        (tree.is_inline_spec(self.idx()) && !self.is_inline_block_spec(tree))
            || tree@[self.idx()].node is None
    }

    /// The content size after applying the computed `width` and `height`
    /// against a containing block of content size `cb`.
    pub open spec fn explicit_size_spec(&self, tree: &LayoutTree, cb: Size) -> Size {
        let b = tree@[self.idx()];
        if self.sized_by_content(tree) {
            b.content_size
        } else {
            let n = b.node->0;
            Size {
                width: if n.width is Auto {
                    b.content_size.width
                } else {
                    clamp_length(n.width.px_spec(cb.width as int)) as i64
                },
                height: if n.height is Auto {
                    b.content_size.height
                } else {
                    clamp_length(n.height.px_spec(cb.height as int)) as i64
                },
            }
        }
    }

    /// Inline content that is not an inline block: line layout sizes it.
    pub open spec fn skips_explicit_sizes(&self, tree: &LayoutTree) -> bool {
        tree.is_inline_spec(self.idx()) && !self.is_inline_block_spec(tree)
    }

    /// Resolves the computed `width` and `height` that are not `auto`
    /// against the containing block's content size and makes them the
    /// box's content size. Inline content that is not an inline block is
    /// left alone; any other box without a containing block is an error.
    pub fn apply_explicit_sizes(&self, tree: &mut LayoutTree) -> (r: Result<(), LayoutError>)
        requires
            self.valid(old(tree)),
        ensures
            final(tree).wf(),
            self.skips_explicit_sizes(old(tree)) ==> r == Ok::<(), LayoutError>(())
                && final(tree)@ == old(tree)@,
            !self.skips_explicit_sizes(old(tree)) ==> (old(tree).containing_block_spec(
                self.idx(),
            ) is None <==> r == Err::<(), LayoutError>(LayoutError::MissingContainingBlock)),
            !self.skips_explicit_sizes(old(tree)) && old(tree).containing_block_spec(
                self.idx(),
            ) is Some ==> r is Ok,
            r is Err ==> final(tree)@ == old(tree)@,
            r is Ok && !self.skips_explicit_sizes(old(tree)) ==> final(tree)@ == old(tree)@.update(
                self.idx(),
                with_size(
                    old(tree)@[self.idx()],
                    self.explicit_size_spec(
                        old(tree),
                        old(tree)@[old(tree).containing_block_spec(self.idx())->0].content_size,
                    ),
                ),
            ),
    {
        let ghost old_tree = *tree;
        if self.is_inline(tree) && !self.is_inline_block(tree) {
            return Ok(());
        }
        let cb = match self.containing_block(tree) {
            Ok(Some(c)) => c,
            _ => {
                proof {
                    if self.0 == 0 {
                        assert(tree.find_ancestor(0, tree.rule_of(0)) is None);
                    }
                }
                return Err(LayoutError::MissingContainingBlock);
            },
        };
        proof {
            tree.lemma_containing_block_before(self.idx());
            assert(tree.box_ok(cb.idx()));
            assert(tree.box_ok(self.idx()));
        }
        let containing = tree.boxes[cb.0].content_size;
        let styles = match &tree.boxes[self.0].node {
            Some(n) => Some((n.get_style(&Property::Width), n.get_style(&Property::Height))),
            None => None,
        };
        match styles {
            Some((width, height)) => {
                if !width.is_auto() {
                    let used_width = width.to_px(containing.width);
                    self.set_content_width(tree, used_width);
                }
                if !height.is_auto() {
                    let used_height = height.to_px(containing.height);
                    self.set_content_height(tree, used_height);
                }
                proof {
                    assert(tree@ =~= old_tree@.update(
                        self.idx(),
                        with_size(
                            old_tree@[self.idx()],
                            self.explicit_size_spec(&old_tree, containing),
                        ),
                    ));
                }
            },
            None => {
                proof {
                    assert(tree@ =~= old_tree@.update(
                        self.idx(),
                        with_size(old_tree@[self.idx()], old_tree@[self.idx()].content_size),
                    ));
                }
            },
        }
        Ok(())
    }
}

impl LayoutBoxPtr {
    /// Replaces the line boxes of a block box whose children are inline.
    pub fn set_lines(&self, tree: &mut LayoutTree, lines: Vec<LineBox>)
        requires
            self.valid(old(tree)),
            old(tree)@[self.idx()].data is BlockBox,
            old(tree).children_are_inline_spec(self.idx()),
        ensures
            final(tree).wf(),
            final(tree)@.len() == old(tree)@.len(),
            final(tree)@[self.idx()].data is BlockBox,
            final(tree)@[self.idx()].data.lines_spec() == lines@,
            final(tree)@ == old(tree)@.update(
                self.idx(),
                LayoutBox { data: final(tree)@[self.idx()].data, ..old(tree)@[self.idx()] },
            ),
    {
        let ghost old_tree = *tree;
        tree.boxes[self.0].data = BoxData::BlockBox { lines };
        proof {
            assert(tree@ =~= old_tree@.update(
                self.idx(),
                LayoutBox { data: tree@[self.idx()].data, ..old_tree@[self.idx()] },
            ));
            assert(old_tree.box_ok(self.idx()));
            old_tree.lemma_geometry_update(tree, self.idx());
        }
    }
}

} // verus!
