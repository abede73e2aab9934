//! Block and inline formatting: how a box lays out its children.
use vstd::prelude::*;
use crate::geometry::{Point, Size, MAX_LENGTH};
use crate::layout_box::{
    kind_of, with_offset, AncestorRule, BoxData, MAX_BOXES, FormattingContextType, LayoutBox, LayoutBoxPtr, LayoutError,
    LayoutTree,
};
use crate::line_box::{break_lines, greedy_lines, lines_view, InlinePiece, LineView};
use crate::style::clamp_length;

verus! {

/// Margin, border and padding on the left.
pub open spec fn left_edges(b: LayoutBox) -> int {
    b.box_model.margin.left + b.box_model.border.left + b.box_model.padding.left
}

/// Margin, border and padding on the top.
pub open spec fn top_edges(b: LayoutBox) -> int {
    b.box_model.margin.top + b.box_model.border.top + b.box_model.padding.top
}

/// Margin, border and padding on both sides of the horizontal axis.
pub open spec fn horizontal_edges(b: LayoutBox) -> int {
    left_edges(b) + b.box_model.margin.right + b.box_model.border.right
        + b.box_model.padding.right
}

/// Margin, border and padding on both sides of the vertical axis.
pub open spec fn vertical_edges(b: LayoutBox) -> int {
    top_edges(b) + b.box_model.margin.bottom + b.box_model.border.bottom
        + b.box_model.padding.bottom
}

/// The width of the margin box: content plus every horizontal edge.
pub open spec fn outer_width(b: LayoutBox) -> int {
    b.content_size.width + horizontal_edges(b)
}

/// The height of the margin box: content plus every vertical edge.
pub open spec fn outer_height(b: LayoutBox) -> int {
    b.content_size.height + vertical_edges(b)
}

/// The piece that child `c` contributes to its parent's lines.
pub open spec fn piece_of(tree: LayoutTree, c: usize) -> InlinePiece {
    InlinePiece {
        box_index: c,
        width: outer_width(tree@[c as int]) as i64,
        height: outer_height(tree@[c as int]) as i64,
    }
}

/// The pieces of the children of box `i`, in order.
pub open spec fn inline_pieces(tree: LayoutTree, i: int) -> Seq<InlinePiece> {
    tree.children_of(i).map_values(|c: usize| piece_of(tree, c))
}

/// The lines stacked one under another: the sum of their heights,
/// saturating at `MAX_LENGTH`.
pub open spec fn lines_height(ls: Seq<LineView>) -> int
    decreases ls.len(),
{
    if ls.len() == 0 {
        0
    } else {
        clamp_length(lines_height(ls.drop_last()) + ls.last().2)
    }
}

/// Where the `k`-th child of box `i` starts in a block flow: the margin
/// box heights of the children before it, summed and saturating at
/// `MAX_LENGTH`.
pub open spec fn stack_top(tree: LayoutTree, i: int, k: int) -> int
    decreases k,
{
    if k <= 0 {
        0
    } else {
        clamp_length(
            stack_top(tree, i, k - 1) + outer_height(tree@[tree.children_of(i)[k - 1] as int]),
        )
    }
}

/// The offset that block flow gives the `k`-th child of box `i`.
pub open spec fn block_position(tree: LayoutTree, i: int, k: int) -> Point {
    let b = tree@[tree.children_of(i)[k] as int];
    Point { x: left_edges(b) as i64, y: (stack_top(tree, i, k) + top_edges(b)) as i64 }
}

/// The pieces of a box's children, in order.
fn collect_pieces(tree: &LayoutTree, block: LayoutBoxPtr) -> (r: Vec<InlinePiece>)
    requires
        block.valid(tree),
    ensures
        r@ == inline_pieces(*tree, block.idx()),
        forall|k: int| 0 <= k < r@.len() ==> #[trigger] r@[k].is_bounded(),
{
    let children = &tree.get(block).children;
    let mut pieces: Vec<InlinePiece> = Vec::new();
    let mut k: usize = 0;
    while k < children.len()
        invariant
            block.valid(tree),
            children@ == tree.children_of(block.idx()),
            k <= children@.len(),
            pieces@ == inline_pieces(*tree, block.idx()).take(k as int),
            forall|j: int| 0 <= j < pieces@.len() ==> #[trigger] pieces@[j].is_bounded(),
        decreases children@.len() - k,
    {
        let c = children[k];
        proof {
            assert(block.idx() < c < tree.len_spec());
            assert(tree.box_ok(c as int));
        }
        let b = tree.get(LayoutBoxPtr(c));
        let m = b.box_model;
        let width = b.content_size.width + m.margin.left + m.border.left + m.padding.left
            + m.margin.right + m.border.right + m.padding.right;
        let height = b.content_size.height + m.margin.top + m.border.top + m.padding.top
            + m.margin.bottom + m.border.bottom + m.padding.bottom;
        pieces.push(InlinePiece { box_index: c, width, height });
        proof {
            assert(pieces@ =~= inline_pieces(*tree, block.idx()).take(k as int + 1));
        }
        k = k + 1;
    }
    proof {
        assert(pieces@ =~= inline_pieces(*tree, block.idx()));
    }
    pieces
}

/// Inline formatting: breaks the children of a block into line boxes as
/// wide as the block's content, stores them on the block, and returns the
/// height of the stacked lines.
pub fn layout_inline_content(tree: &mut LayoutTree, block: LayoutBoxPtr) -> (r: i64)
    requires
        block.valid(old(tree)),
        old(tree)@[block.idx()].data is BlockBox,
        old(tree).children_are_inline_spec(block.idx()),
    ensures
        final(tree).wf(),
        final(tree)@[block.idx()].data is BlockBox,
        lines_view(final(tree)@[block.idx()].data.lines_spec()) == greedy_lines(
            inline_pieces(*old(tree), block.idx()),
            old(tree)@[block.idx()].content_size.width as int,
        ),
        final(tree)@ == old(tree)@.update(
            block.idx(),
            LayoutBox { data: final(tree)@[block.idx()].data, ..old(tree)@[block.idx()] },
        ),
        r == lines_height(lines_view(final(tree)@[block.idx()].data.lines_spec())),
{
    proof {
        assert(tree.box_ok(block.idx()));
    }
    let pieces = collect_pieces(tree, block);
    let width = tree.get(block).content_size.width;
    let lines = break_lines(&pieces, width);
    let mut total: i64 = 0;
    let mut k: usize = 0;
    while k < lines.len()
        invariant
            k <= lines@.len(),
            0 <= total <= MAX_LENGTH,
            total == lines_height(lines_view(lines@).take(k as int)),
        decreases lines@.len() - k,
    {
        let h = lines[k].height;
        proof {
            let ls = lines_view(lines@).take(k as int + 1);
            assert(ls.drop_last() =~= lines_view(lines@).take(k as int));
            assert(ls.last().2 == h);
        }
        if h >= MAX_LENGTH - total {
            total = MAX_LENGTH;
        } else if h <= -total {
            total = 0;
        } else {
            total = total + h;
        }
        k = k + 1;
    }
    proof {
        assert(lines_view(lines@).take(k as int) =~= lines_view(lines@));
    }
    block.set_lines(tree, lines);
    total
}

/// Block flow: places the children of box `block` one under another, each
/// at its left edges and below the margin boxes of those before it, and
/// returns the height they take together.
pub fn place_block_children(tree: &mut LayoutTree, block: LayoutBoxPtr) -> (r: i64)
    requires
        block.valid(old(tree)),
    ensures
        final(tree).wf(),
        final(tree)@.len() == old(tree)@.len(),
        forall|k: int|
            0 <= k < old(tree).children_of(block.idx()).len() ==> final(tree)@[old(
                tree,
            ).children_of(block.idx())[k] as int] == with_offset(
                old(tree)@[old(tree).children_of(block.idx())[k] as int],
                block_position(*old(tree), block.idx(), k),
            ),
        forall|j: int|
            0 <= j < old(tree)@.len() && !old(tree).children_of(block.idx()).contains(j as usize)
                ==> final(tree)@[j] == old(tree)@[j],
        r == stack_top(*old(tree), block.idx(), old(tree).children_of(block.idx()).len() as int),
{
    let ghost old_tree = *tree;
    let ghost kids = tree.children_of(block.idx());
    let n = tree.get(block).children.len();
    let mut top: i64 = 0;
    let mut k: usize = 0;
    while k < n
        invariant
            block.valid(tree),
            tree@.len() == old_tree@.len(),
            n == kids.len(),
            kids == old_tree.children_of(block.idx()),
            kids == tree.children_of(block.idx()),
            kids.no_duplicates(),
            k <= n,
            0 <= top <= MAX_LENGTH,
            top == stack_top(old_tree, block.idx(), k as int),
            forall|m: int|
                0 <= m < k ==> tree@[#[trigger] kids[m] as int] == with_offset(
                    old_tree@[kids[m] as int],
                    block_position(old_tree, block.idx(), m),
                ),
            forall|j: int|
                0 <= j < old_tree@.len() && !(exists|m: int| 0 <= m < k && kids[m] == j as usize)
                    ==> #[trigger] tree@[j] == old_tree@[j],
        decreases n - k,
    {
        let c = tree.get(block).children[k];
        proof {
            assert(kids[k as int] == c);
            assert(block.idx() < c < tree.len_spec());
            assert(tree.box_ok(c as int));
            assert(!(exists|m: int| 0 <= m < k && kids[m] == c));
            assert(tree@[c as int] == old_tree@[c as int]);
        }
        let b = tree.get(LayoutBoxPtr(c));
        let m = b.box_model;
        let left = m.margin.left + m.border.left + m.padding.left;
        let y = top + m.margin.top + m.border.top + m.padding.top;
        let outer = b.content_size.height + m.margin.top + m.border.top + m.padding.top
            + m.margin.bottom + m.border.bottom + m.padding.bottom;
        let ghost before = *tree;
        LayoutBoxPtr(c).set_offset(tree, left, y);
        proof {
            assert forall|mm: int| 0 <= mm < k + 1 implies tree@[#[trigger] kids[mm] as int]
                == with_offset(
                old_tree@[kids[mm] as int],
                block_position(old_tree, block.idx(), mm),
            ) by {
                if mm < k {
                    assert(kids[mm] != c);
                }
            }
            assert forall|j: int|
                0 <= j < old_tree@.len() && !(exists|mm: int| 0 <= mm < k + 1 && kids[mm] == j as usize)
                    implies #[trigger] tree@[j] == old_tree@[j] by {
                assert(kids[k as int] == c);
                assert(j != c);
                assert(!(exists|mm: int| 0 <= mm < k && kids[mm] == j as usize));
                assert(before@[j] == old_tree@[j]);
            }
            assert(tree.children_of(block.idx()) == before.children_of(block.idx()));
        }
        if outer >= MAX_LENGTH - top {
            top = MAX_LENGTH;
        } else {
            top = top + outer;
        }
        k = k + 1;
    }
    proof {
        assert forall|j: int|
            0 <= j < old_tree@.len() && !old_tree.children_of(block.idx()).contains(j as usize)
                implies tree@[j] == old_tree@[j] by {
            if exists|m: int| 0 <= m < n && kids[m] == j as usize {
                let m = choose|m: int| 0 <= m < n && kids[m] == j as usize;
                assert(old_tree.children_of(block.idx())[m] == j as usize);
            }
        }
    }
    top
}

/// Two trees with the same boxes, kinds, source nodes and links: layout
/// changes geometry, contexts and line boxes, never the shape.
pub open spec fn same_shape(a: LayoutTree, b: LayoutTree) -> bool {
    &&& a@.len() == b@.len()
    &&& forall|j: int| 0 <= j < a@.len() ==> same_box_shape(a@[j], #[trigger] b@[j])
}

/// Same kind, source node and links.
pub open spec fn same_box_shape(x: LayoutBox, y: LayoutBox) -> bool {
    &&& kind_of(y.data) == kind_of(x.data)
    &&& y.node == x.node
    &&& y.parent == x.parent
    &&& y.children == x.children
}

/// Whether box `i` takes its height from its content.
pub open spec fn has_auto_height(tree: LayoutTree, i: int) -> bool {
    match tree@[i].node {
        Some(n) => n.height is Auto,
        None => true,
    }
}

/// The context that a block box gets: inline when its children are all
/// inline, block otherwise.
pub open spec fn context_for(tree: LayoutTree, i: int) -> FormattingContextType {
    if tree.children_are_inline_spec(i) {
        FormattingContextType::InlineFormattingContext
    } else {
        FormattingContextType::BlockFormattingContext
    }
}

proof fn lemma_same_shape_inline(a: LayoutTree, b: LayoutTree, i: int)
    requires
        a.wf(),
        same_shape(a, b),
        0 <= i < a@.len(),
    ensures
        b.children_of(i) == a.children_of(i),
        b.children_are_inline_spec(i) == a.children_are_inline_spec(i),
{
    assert(same_box_shape(a@[i], b@[i]));
    assert forall|k: int|
        #![trigger a.is_inline_spec(a.children_of(i)[k] as int)]
        #![trigger b.is_inline_spec(b.children_of(i)[k] as int)]
        0 <= k < b.children_of(i).len() implies b.is_inline_spec(b.children_of(i)[k] as int)
        == a.is_inline_spec(a.children_of(i)[k] as int) by {
        let c = a.children_of(i)[k];
        assert(i < c < a.len_spec());
        assert(same_box_shape(a@[c as int], b@[c as int]));
    }
}


proof fn lemma_same_shape_trans(a: LayoutTree, b: LayoutTree, c: LayoutTree)
    requires
        same_shape(a, b),
        same_shape(b, c),
    ensures
        same_shape(a, c),
{
    assert forall|j: int| 0 <= j < a@.len() implies same_box_shape(a@[j], #[trigger] c@[j]) by {
        assert(same_box_shape(a@[j], b@[j]));
        assert(same_box_shape(b@[j], c@[j]));
    }
}

proof fn lemma_same_shape_update(a: LayoutTree, b: LayoutTree, i: int, x: LayoutBox)
    requires
        0 <= i < a@.len(),
        b@ == a@.update(i, x),
        kind_of(x.data) == kind_of(a@[i].data),
        x.node == a@[i].node,
        x.parent == a@[i].parent,
        x.children == a@[i].children,
    ensures
        same_shape(a, b),
{
    assert forall|j: int| 0 <= j < a@.len() implies same_box_shape(a@[j], #[trigger] b@[j]) by {
        if j != i {
            assert(b@[j] == a@[j]);
        }
    }
}

proof fn lemma_same_shape_refl(a: LayoutTree)
    ensures
        same_shape(a, a),
{
}


proof fn lemma_stack_top_frame(t1: LayoutTree, t2: LayoutTree, i: int, k: int)
    requires
        t2.children_of(i) == t1.children_of(i),
        0 <= k <= t1.children_of(i).len(),
        forall|m: int|
            0 <= m < t1.children_of(i).len() ==> #[trigger] t2@[t1.children_of(i)[m] as int].content_size
                == t1@[t1.children_of(i)[m] as int].content_size && t2@[t1.children_of(
                i,
            )[m] as int].box_model == t1@[t1.children_of(i)[m] as int].box_model,
    ensures
        stack_top(t1, i, k) == stack_top(t2, i, k),
    decreases k,
{
    if k > 0 {
        lemma_stack_top_frame(t1, t2, i, k - 1);
        let c = t1.children_of(i)[k - 1] as int;
        assert(t2@[c].content_size == t1@[c].content_size);
    }
}

/// What the placement of the children of `i` reads is the same in two
/// trees whose children of `i` have the same sizes and edges.
proof fn lemma_children_frame(t1: LayoutTree, t2: LayoutTree, i: int)
    requires
        t2.children_of(i) == t1.children_of(i),
        forall|m: int|
            0 <= m < t1.children_of(i).len() ==> #[trigger] t2@[t1.children_of(i)[m] as int].content_size
                == t1@[t1.children_of(i)[m] as int].content_size && t2@[t1.children_of(
                i,
            )[m] as int].box_model == t1@[t1.children_of(i)[m] as int].box_model,
    ensures
        stack_top(t1, i, t1.children_of(i).len() as int) == stack_top(
            t2,
            i,
            t1.children_of(i).len() as int,
        ),
        forall|k: int|
            0 <= k < t1.children_of(i).len() ==> #[trigger] block_position(t1, i, k)
                == block_position(t2, i, k),
        inline_pieces(t1, i) == inline_pieces(t2, i),
{
    lemma_stack_top_frame(t1, t2, i, t1.children_of(i).len() as int);
    assert forall|k: int| 0 <= k < t1.children_of(i).len() implies #[trigger] block_position(
        t1,
        i,
        k,
    ) == block_position(t2, i, k) by {
        lemma_stack_top_frame(t1, t2, i, k);
        let c = t1.children_of(i)[k] as int;
        assert(t2@[c].content_size == t1@[c].content_size);
        assert(t2@[c].box_model == t1@[c].box_model);
    }
    assert(inline_pieces(t1, i) =~= inline_pieces(t2, i));
}

/// Box `j` is `r` or lies below it.
pub open spec fn in_subtree(tree: LayoutTree, r: int, j: int) -> bool {
    j == r || is_ancestor(tree, r, j)
}

/// What layout leaves true of box `i`: a block box has the context its
/// children call for; over inline children it holds the greedy lines of
/// its children, and over block children each child sits at its place in
/// the flow and, where it has no width of its own, fills the block's
/// width; where its height is `auto`, it is as tall as its content.
pub open spec fn box_laid_out(tree: LayoutTree, i: int) -> bool {
    tree@[i].data is BlockBox ==> {
        &&& tree@[i].formatting_context == Some(context_for(tree, i))
        &&& tree.children_are_inline_spec(i) ==> {
            &&& lines_view(tree@[i].data.lines_spec()) == greedy_lines(
                inline_pieces(tree, i),
                tree@[i].content_size.width as int,
            )
            &&& has_auto_height(tree, i) ==> tree@[i].content_size.height == lines_height(
                lines_view(tree@[i].data.lines_spec()),
            )
        }
        &&& !tree.children_are_inline_spec(i) ==> {
            &&& forall|k: int|
                0 <= k < tree.children_of(i).len() ==> #[trigger] tree@[tree.children_of(
                    i,
                )[k] as int].offset == block_position(tree, i, k)
            &&& forall|k: int|
                0 <= k < tree.children_of(i).len() && has_auto_width(
                    tree,
                    tree.children_of(i)[k] as int,
                ) ==> #[trigger] tree@[tree.children_of(i)[k] as int].content_size.width
                    == fill_width(tree, i, tree.children_of(i)[k] as int)
            &&& has_auto_height(tree, i) ==> tree@[i].content_size.height == stack_top(
                tree,
                i,
                tree.children_of(i).len() as int,
            )
        }
    }
}

/// Every box of the subtree of `r` is laid out.
pub open spec fn subtree_laid_out(tree: LayoutTree, r: int) -> bool {
    forall|j: int|
        0 <= j < tree.len_spec() && in_subtree(tree, r, j) ==> #[trigger] box_laid_out(tree, j)
}

proof fn lemma_child_subtree_inside(t: LayoutTree, b: int, c: int, j: int)
    requires
        t.wf(),
        0 <= b < c < t.len_spec(),
        t.parent_of(c) == Some(b as usize),
        in_subtree(t, c, j),
    ensures
        is_ancestor(t, b, j),
    decreases j,
{
    assert(is_ancestor(t, b, c));
    if j != c {
        let p = t.parent_of(j)->0 as int;
        if p != c {
            lemma_child_subtree_inside(t, b, c, p);
        }
    }
}

proof fn lemma_sibling_subtrees_apart(t: LayoutTree, b: int, c1: int, c2: int, j: int)
    requires
        t.wf(),
        0 <= b < c1 < t.len_spec(),
        b < c2 < t.len_spec(),
        c1 != c2,
        t.parent_of(c1) == Some(b as usize),
        t.parent_of(c2) == Some(b as usize),
        in_subtree(t, c1, j),
    ensures
        !in_subtree(t, c2, j),
    decreases j,
{
    if j == c1 {
        if is_ancestor(t, c2, c1) {
            if c2 != b {
                lemma_ancestor_before(t, c2, b);
            }
        }
    } else {
        let p = t.parent_of(j)->0 as int;
        if j == c2 {
            if is_ancestor(t, c1, b) {
                lemma_ancestor_before(t, c1, b);
            }
        } else {
            lemma_sibling_subtrees_apart(t, b, c1, c2, p);
        }
    }
}

proof fn lemma_below_some_child(t: LayoutTree, b: int, j: int)
    requires
        t.wf(),
        0 <= b < t.len_spec(),
        is_ancestor(t, b, j),
    ensures
        exists|m: int|
            0 <= m < t.children_of(b).len() && in_subtree(t, #[trigger] t.children_of(b)[m] as int, j),
    decreases j,
{
    let p = t.parent_of(j)->0;
    if p as int == b {
        let m = choose|m: int| 0 <= m < t.children_of(b).len() && t.children_of(b)[m] == j as usize;
        assert(in_subtree(t, t.children_of(b)[m] as int, j));
    } else {
        lemma_below_some_child(t, b, p as int);
        let m = choose|m: int|
            0 <= m < t.children_of(b).len() && in_subtree(t, #[trigger] t.children_of(b)[m] as int, p as int);
        assert(in_subtree(t, t.children_of(b)[m] as int, j));
    }
}

/// A laid-out subtree stays laid out while nothing in it changes but the
/// offset of its top box.
proof fn lemma_laid_out_transfer(t1: LayoutTree, t2: LayoutTree, c: int)
    requires
        t1.wf(),
        t2.wf(),
        same_shape(t1, t2),
        0 <= c < t1.len_spec(),
        forall|j: int|
            0 <= j < t1.len_spec() && in_subtree(t1, c, j) && j != c ==> #[trigger] t2@[j] == t1@[j],
        t2@[c] == with_offset(t1@[c], t2@[c].offset),
        subtree_laid_out(t1, c),
    ensures
        subtree_laid_out(t2, c),
{
    assert forall|j: int| 0 <= j < t2.len_spec() && in_subtree(t2, c, j) implies #[trigger] box_laid_out(t2, j) by {
        lemma_shape_keeps_ancestry(t1, t2, c, j);
        assert(box_laid_out(t1, j));
        assert(same_box_shape(t1@[j], t2@[j]));
        assert forall|k: int| 0 <= k < t1.children_of(j).len() implies #[trigger] t2@[t1.children_of(j)[k] as int]
            == t1@[t1.children_of(j)[k] as int] by {
            let kid = t1.children_of(j)[k] as int;
            assert(j < kid < t1.len_spec());
            assert(t1.parent_of(kid) == Some(j as usize));
            if j != c {
                lemma_ancestor_before(t1, c, j);
            }
            assert(is_ancestor(t1, c, kid));
            assert(kid != c);
        }
        lemma_children_frame(t1, t2, j);
        lemma_same_shape_inline(t1, t2, j);
        assert(t2@[j].content_size == t1@[j].content_size);
        if t1@[j].data is BlockBox && !t1.children_are_inline_spec(j) {
            assert forall|k: int| 0 <= k < t2.children_of(j).len() && has_auto_width(
                t2,
                t2.children_of(j)[k] as int,
            ) implies #[trigger] t2@[t2.children_of(j)[k] as int].content_size.width
                == fill_width(t2, j, t2.children_of(j)[k] as int) by {
                let kid = t1.children_of(j)[k] as int;
                assert(t2@[kid] == t1@[kid]);
                assert(has_auto_width(t1, kid));
            }
            assert forall|k: int| 0 <= k < t2.children_of(j).len() implies #[trigger] t2@[t2.children_of(
                j,
            )[k] as int].offset == block_position(t2, j, k) by {
                let kid = t1.children_of(j)[k] as int;
                assert(t2@[kid] == t1@[kid]);
                assert(block_position(t1, j, k) == block_position(t2, j, k));
            }
        }
    }
}

proof fn lemma_same_shape_sym(a: LayoutTree, b: LayoutTree)
    requires
        same_shape(a, b),
    ensures
        same_shape(b, a),
{
    assert forall|j: int| 0 <= j < b@.len() implies same_box_shape(b@[j], #[trigger] a@[j]) by {
        assert(same_box_shape(a@[j], b@[j]));
    }
}

/// Laying out child `kids[k]` of `b` changes nothing outside its subtree,
/// so nothing outside `b`'s subtree and none of the earlier children's
/// laid-out subtrees.
proof fn lemma_child_step(
    old: LayoutTree,
    before: LayoutTree,
    after: LayoutTree,
    b: int,
    k: int,
)
    requires
        old.wf(),
        before.wf(),
        after.wf(),
        same_shape(old, before),
        same_shape(old, after),
        0 <= b < old.len_spec(),
        0 <= k < old.children_of(b).len(),
        forall|j: int|
            0 <= j < old.len_spec() && !in_subtree(old, old.children_of(b)[k] as int, j)
                ==> #[trigger] after@[j] == before@[j],
        forall|j: int|
            0 <= j < old.len_spec() && !in_subtree(old, b, j) ==> #[trigger] before@[j] == old@[j],
        forall|m: int|
            0 <= m < k ==> #[trigger] subtree_laid_out(before, old.children_of(b)[m] as int),
    ensures
        forall|j: int|
            0 <= j < old.len_spec() && !in_subtree(old, b, j) ==> #[trigger] after@[j] == old@[j],
        forall|m: int|
            0 <= m < k ==> #[trigger] subtree_laid_out(after, old.children_of(b)[m] as int),
{
    let kids = old.children_of(b);
    let c = kids[k] as int;
    assert(b < c < old.len_spec() && old.parent_of(c) == Some(b as usize));
    assert forall|j: int| 0 <= j < old.len_spec() && !in_subtree(old, b, j) implies #[trigger] after@[j]
        == old@[j] by {
        if in_subtree(old, c, j) {
            lemma_child_subtree_inside(old, b, c, j);
        }
        assert(before@[j] == old@[j]);
    }
    lemma_same_shape_sym(old, before);
    lemma_same_shape_trans(before, old, after);
    assert forall|m: int| 0 <= m < k implies #[trigger] subtree_laid_out(after, kids[m] as int) by {
        let cm = kids[m] as int;
        assert(b < cm < old.len_spec() && old.parent_of(cm) == Some(b as usize));
        assert(kids.no_duplicates());
        assert(cm != c);
        assert(subtree_laid_out(before, cm));
        assert forall|j: int|
            0 <= j < before.len_spec() && in_subtree(before, cm, j) && j != cm implies #[trigger] after@[j]
            == before@[j] by {
            lemma_shape_keeps_ancestry(old, before, cm, j);
            lemma_sibling_subtrees_apart(old, b, cm, c, j);
        }
        assert(after@[cm] == before@[cm]) by {
            lemma_sibling_subtrees_apart(old, b, cm, c, cm);
        }
        lemma_laid_out_transfer(before, after, cm);
    }
}

/// After the children of `b` are laid out, placing them and sizing `b`
/// leaves their subtrees laid out and, with `b` laid out, the whole
/// subtree of `b`.
proof fn lemma_finish_subtree(old: LayoutTree, looped: LayoutTree, fin: LayoutTree, b: int)
    requires
        old.wf(),
        looped.wf(),
        fin.wf(),
        same_shape(old, looped),
        same_shape(old, fin),
        0 <= b < old.len_spec(),
        forall|j: int|
            0 <= j < old.len_spec() && !in_subtree(old, b, j) ==> #[trigger] looped@[j] == old@[j],
        forall|m: int|
            0 <= m < old.children_of(b).len() ==> #[trigger] subtree_laid_out(
                looped,
                old.children_of(b)[m] as int,
            ),
        forall|j: int|
            0 <= j < old.len_spec() && j != b && !old.children_of(b).contains(j as usize)
                ==> #[trigger] fin@[j] == looped@[j],
        forall|m: int|
            0 <= m < old.children_of(b).len() ==> #[trigger] fin@[old.children_of(b)[m] as int]
                == with_offset(
                looped@[old.children_of(b)[m] as int],
                fin@[old.children_of(b)[m] as int].offset,
            ),
        box_laid_out(fin, b),
    ensures
        forall|j: int|
            0 <= j < old.len_spec() && !in_subtree(old, b, j) ==> #[trigger] fin@[j] == old@[j],
        subtree_laid_out(fin, b),
{
    let kids = old.children_of(b);
    assert forall|j: int| 0 <= j < old.len_spec() && !in_subtree(old, b, j) implies #[trigger] fin@[j]
        == old@[j] by {
        if kids.contains(j as usize) {
            let m = choose|m: int| 0 <= m < kids.len() && kids[m] == j as usize;
            assert(old.parent_of(j) == Some(b as usize));
            assert(is_ancestor(old, b, j));
        }
        assert(looped@[j] == old@[j]);
    }
    lemma_same_shape_sym(old, looped);
    lemma_same_shape_trans(looped, old, fin);
    assert forall|m: int| 0 <= m < kids.len() implies #[trigger] subtree_laid_out(fin, kids[m] as int) by {
        let cm = kids[m] as int;
        assert(b < cm < old.len_spec() && old.parent_of(cm) == Some(b as usize));
        assert(subtree_laid_out(looped, cm));
        assert forall|j: int|
            0 <= j < looped.len_spec() && in_subtree(looped, cm, j) && j != cm implies #[trigger] fin@[j]
            == looped@[j] by {
            lemma_shape_keeps_ancestry(old, looped, cm, j);
            lemma_child_subtree_inside(old, b, cm, j);
            lemma_ancestor_before(old, b, j);
            if kids.contains(j as usize) {
                let m2 = choose|m2: int| 0 <= m2 < kids.len() && kids[m2] == j as usize;
                assert(old.parent_of(j) == Some(b as usize));
                lemma_sibling_subtrees_apart(old, b, j, cm, j);
            }
        }
        lemma_laid_out_transfer(looped, fin, cm);
    }
    assert forall|j: int| 0 <= j < fin.len_spec() && in_subtree(fin, b, j) implies #[trigger] box_laid_out(
        fin,
        j,
    ) by {
        if j != b {
            lemma_shape_keeps_ancestry(old, fin, b, j);
            lemma_below_some_child(old, b, j);
            let m = choose|m: int|
                0 <= m < kids.len() && in_subtree(old, #[trigger] kids[m] as int, j);
            lemma_shape_keeps_ancestry(old, fin, kids[m] as int, j);
            assert(subtree_laid_out(fin, kids[m] as int));
        }
    }
}

fn has_auto_height_exec(tree: &LayoutTree, b: LayoutBoxPtr) -> (r: bool)
    requires
        b.valid(tree),
    ensures
        r == has_auto_height(*tree, b.idx()),
{
    match &tree.get(b).node {
        Some(n) => n.height.is_auto(),
        None => true,
    }
}

/// Whether box `c` keeps the width its parent's flow gives it: line
/// layout sizes it, or it has no computed width.
pub open spec fn has_auto_width(tree: LayoutTree, c: int) -> bool {
    LayoutBoxPtr(c as usize).skips_explicit_sizes(&tree) || match tree@[c].node {
        Some(n) => n.width is Auto,
        None => true,
    }
}

/// The width a block child takes by default: its parent's content width
/// less its own margin, border and padding, never below zero.
pub open spec fn fill_width(tree: LayoutTree, b: int, c: int) -> int {
    clamp_length(tree@[b].content_size.width - horizontal_edges(tree@[c]))
}

/// Whether box `a` is a proper ancestor of box `i`.
pub open spec fn is_ancestor(tree: LayoutTree, a: int, i: int) -> bool
    decreases i,
{
    0 <= i < tree.len_spec() && match tree.parent_of(i) {
        Some(p) => p < i && (p == a || is_ancestor(tree, a, p as int)),
        None => false,
    }
}

/// Every absolutely positioned box after `b` has a positioned ancestor:
/// the one search for a containing block that can fail inside a subtree
/// whose top block has its formatting context.
pub open spec fn positioned_resolve(tree: LayoutTree, b: int) -> bool {
    forall|j: int|
        b < j < tree.len_spec() && tree.rule_of(j) == AncestorRule::Positioned
            ==> #[trigger] tree.find_ancestor(j, AncestorRule::Positioned) is Some
}

/// A box above `b` whose formatting context is the one its children call
/// for.
pub open spec fn anchor_ok(tree: LayoutTree, b: int, anchor: Option<int>) -> bool {
    match anchor {
        Some(a) => is_ancestor(tree, a, b) && tree@[a].formatting_context == Some(
            context_for(tree, a),
        ),
        None => true,
    }
}

proof fn lemma_find_below_match(t: LayoutTree, a: int, i: int, rule: AncestorRule)
    requires
        t.wf(),
        is_ancestor(t, a, i),
        t.matches_rule(a, rule),
    ensures
        t.find_ancestor(i, rule) is Some,
    decreases i,
{
    let p = t.parent_of(i)->0 as int;
    if p != a && !t.matches_rule(p, rule) {
        lemma_find_below_match(t, a, p, rule);
    }
}

proof fn lemma_root_is_ancestor(t: LayoutTree, i: int)
    requires
        t.wf(),
        0 < i < t.len_spec(),
    ensures
        is_ancestor(t, 0, i),
    decreases i,
{
    let p = t.parent_of(i)->0 as int;
    if p != 0 {
        lemma_root_is_ancestor(t, p);
    }
}

proof fn lemma_shape_keeps_ancestry(t1: LayoutTree, t2: LayoutTree, a: int, i: int)
    requires
        same_shape(t1, t2),
    ensures
        is_ancestor(t1, a, i) == is_ancestor(t2, a, i),
        t1.rule_of(i) == t2.rule_of(i) || !(0 <= i < t1@.len()),
        0 <= i < t1@.len() ==> t1.find_ancestor(i, AncestorRule::Positioned) == t2.find_ancestor(
            i,
            AncestorRule::Positioned,
        ),
    decreases i,
{
    if 0 <= i < t1@.len() {
        assert(same_box_shape(t1@[i], t2@[i]));
        let p = t1.parent_of(i);
        if let Some(p) = p {
            if p < i {
                lemma_shape_keeps_ancestry(t1, t2, a, p as int);
                assert(same_box_shape(t1@[p as int], t2@[p as int]));
            }
        }
    }
}

proof fn lemma_shape_keeps_positioned(t1: LayoutTree, t2: LayoutTree, b: int)
    requires
        same_shape(t1, t2),
        positioned_resolve(t1, b),
        0 <= b,
    ensures
        positioned_resolve(t2, b),
{
    assert forall|j: int|
        b < j < t2.len_spec() && t2.rule_of(j) == AncestorRule::Positioned implies #[trigger] t2.find_ancestor(
        j,
        AncestorRule::Positioned,
    ) is Some by {
        lemma_shape_keeps_ancestry(t1, t2, 0, j);
        assert(t1.rule_of(j) == AncestorRule::Positioned);
        assert(b < j < t1.len_spec());
        assert(t1.find_ancestor(j, AncestorRule::Positioned) is Some);
    }
}

proof fn lemma_ancestor_before(t: LayoutTree, a: int, i: int)
    requires
        is_ancestor(t, a, i),
    ensures
        0 <= a < i,
    decreases i,
{
    let p = t.parent_of(i)->0 as int;
    if p != a {
        lemma_ancestor_before(t, a, p);
    }
}

proof fn lemma_child_anchor(
    old: LayoutTree,
    t: LayoutTree,
    b: int,
    c: int,
    anchor: Option<int>,
    is_block: bool,
)
    requires
        old.wf(),
        t.wf(),
        same_shape(old, t),
        0 <= b < c < t.len_spec(),
        t.parent_of(c) == Some(b as usize),
        anchor_ok(old, b, anchor),
        is_block ==> t@[b].formatting_context == Some(context_for(old, b)),
        forall|j: int| 0 <= j < b ==> t@[j] == old@[j],
        is_block || anchor is Some,
    ensures
        anchor_ok(
            t,
            c,
            if is_block {
                Some(b)
            } else {
                anchor
            },
        ),
{
    if is_block {
        lemma_same_shape_inline(old, t, b);
        assert(is_ancestor(t, b, c));
    } else {
        let a = anchor->0;
        lemma_ancestor_before(old, a, b);
        lemma_shape_keeps_ancestry(old, t, a, b);
        assert(is_ancestor(t, a, c));
        lemma_same_shape_inline(old, t, a);
        assert(t@[a] == old@[a]);
    }
}

/// Below a box whose formatting context is set, every box finds a
/// containing block, but an absolute box may not.
proof fn lemma_resolves_below_anchor(t: LayoutTree, a: int, c: int)
    requires
        t.wf(),
        0 < c < t.len_spec(),
        is_ancestor(t, a, c),
        t@[a].formatting_context == Some(context_for(t, a)),
        t.rule_of(c) == AncestorRule::Positioned ==> t.find_ancestor(c, AncestorRule::Positioned)
            is Some,
    ensures
        t.containing_block_spec(c) is Some,
{
    let rule = t.rule_of(c);
    if rule == AncestorRule::Root {
        lemma_root_is_ancestor(t, c);
        lemma_find_below_match(t, 0, c, rule);
    } else if rule != AncestorRule::Positioned {
        lemma_find_below_match(t, a, c, rule);
    }
}

/// Lays out the subtree of `b`: assigns the context of a block box, sizes
/// each child (a block child first fills the content width left by its
/// edges, then takes its explicit sizes), lays out each child's own
/// subtree, then places the children (in lines or in block flow) and,
/// where the box's height is `auto`, gives it the height of its content.
/// Boxes before `b` are left alone and the tree keeps its shape.
pub fn layout_box(tree: &mut LayoutTree, b: LayoutBoxPtr) -> (r: Result<(), LayoutError>)
    requires
        b.valid(old(tree)),
    ensures
        final(tree).wf(),
        same_shape(*old(tree), *final(tree)),
        forall|j: int| 0 <= j < b.idx() ==> final(tree)@[j] == old(tree)@[j],
        final(tree)@[b.idx()].content_size.width == old(tree)@[b.idx()].content_size.width,
        forall|j: int|
            0 <= j < old(tree)@.len() ==> #[trigger] final(tree)@[j].box_model
                == old(tree)@[j].box_model,
        forall|j: int|
            0 <= j < old(tree)@.len() && !in_subtree(*old(tree), b.idx(), j) ==> #[trigger] final(tree)@[j]
                == old(tree)@[j],
        r is Ok ==> subtree_laid_out(*final(tree), b.idx()),
        r is Ok && old(tree)@[b.idx()].data is BlockBox && !old(tree).children_are_inline_spec(b.idx())
            ==> forall|k: int|
            0 <= k < final(tree).children_of(b.idx()).len() && has_auto_width(
                *final(tree),
                final(tree).children_of(b.idx())[k] as int,
            ) ==> #[trigger] final(tree)@[final(tree).children_of(b.idx())[k] as int].content_size.width
                == fill_width(*final(tree), b.idx(), final(tree).children_of(b.idx())[k] as int),
        r is Ok && old(tree)@[b.idx()].data is BlockBox ==> final(tree)@[b.idx()].formatting_context
            == Some(context_for(*old(tree), b.idx())),
        r is Ok && old(tree)@[b.idx()].data is BlockBox && old(tree).children_are_inline_spec(
            b.idx(),
        ) ==> {
            &&& lines_view(final(tree)@[b.idx()].data.lines_spec()) == greedy_lines(
                inline_pieces(*final(tree), b.idx()),
                final(tree)@[b.idx()].content_size.width as int,
            )
            &&& has_auto_height(*old(tree), b.idx()) ==> final(tree)@[b.idx()].content_size.height
                == lines_height(lines_view(final(tree)@[b.idx()].data.lines_spec()))
        },
        r is Ok && old(tree)@[b.idx()].data is BlockBox && !old(tree).children_are_inline_spec(
            b.idx(),
        ) ==> {
            &&& forall|k: int|
                0 <= k < final(tree).children_of(b.idx()).len()
                    ==> #[trigger] final(tree)@[final(tree).children_of(b.idx())[k] as int].offset
                    == block_position(
                    *final(tree),
                    b.idx(),
                    k,
                )
            &&& has_auto_height(*old(tree), b.idx()) ==> final(tree)@[b.idx()].content_size.height
                == stack_top(*final(tree), b.idx(), final(tree).children_of(b.idx()).len() as int)
        },
        old(tree)@[b.idx()].data is BlockBox && positioned_resolve(*old(tree), b.idx()) ==> r is Ok,
{
    layout_subtree(tree, b, Ghost(None))
}

/// Places the children of block `b`, already laid out, in lines or in
/// block flow, and gives `b` the height of its content where its own
/// height is `auto`.
#[verifier::spinoff_prover]
fn place_and_size(tree: &mut LayoutTree, b: LayoutBoxPtr, all_inline: bool)
    requires
        b.valid(old(tree)),
        old(tree)@[b.idx()].data is BlockBox,
        all_inline == old(tree).children_are_inline_spec(b.idx()),
    ensures
        final(tree).wf(),
        same_shape(*old(tree), *final(tree)),
        final(tree)@[b.idx()].formatting_context == old(tree)@[b.idx()].formatting_context,
        final(tree)@[b.idx()].content_size.width == old(tree)@[b.idx()].content_size.width,
        forall|j: int|
            0 <= j < old(tree)@.len() ==> #[trigger] final(tree)@[j].box_model
                == old(tree)@[j].box_model,
        forall|j: int|
            0 <= j < old(tree)@.len() && j != b.idx() && !old(tree).children_of(b.idx()).contains(
                j as usize,
            ) ==> #[trigger] final(tree)@[j] == old(tree)@[j],
        forall|m: int|
            0 <= m < old(tree).children_of(b.idx()).len() ==> #[trigger] final(tree)@[old(
                tree).children_of(b.idx())[m] as int] == with_offset(
                old(tree)@[old(tree).children_of(b.idx())[m] as int],
                final(tree)@[old(tree).children_of(b.idx())[m] as int].offset,
            ),
        all_inline ==> {
            &&& lines_view(final(tree)@[b.idx()].data.lines_spec()) == greedy_lines(
                inline_pieces(*final(tree), b.idx()),
                final(tree)@[b.idx()].content_size.width as int,
            )
            &&& has_auto_height(*old(tree), b.idx()) ==> final(tree)@[b.idx()].content_size.height
                == lines_height(lines_view(final(tree)@[b.idx()].data.lines_spec()))
        },
        !all_inline ==> {
            &&& forall|k: int|
                0 <= k < final(tree).children_of(b.idx()).len()
                    ==> #[trigger] final(tree)@[final(tree).children_of(b.idx())[k] as int].offset
                    == block_position(*final(tree), b.idx(), k)
            &&& has_auto_height(*old(tree), b.idx()) ==> final(tree)@[b.idx()].content_size.height
                == stack_top(*final(tree), b.idx(), final(tree).children_of(b.idx()).len() as int)
        },
{
    let ghost old_tree = *tree;
    proof {
        lemma_same_shape_refl(old_tree);
        assert(tree.box_ok(b.idx()));
    }
    proof {
        lemma_same_shape_inline(old_tree, *tree, b.idx());
    }
    let ghost before = *tree;
    let height = if all_inline {
        let h = layout_inline_content(tree, b);
        proof {
            lemma_same_shape_update(before, *tree, b.idx(), tree@[b.idx()]);
        }
        h
    } else {
        let h = place_block_children(tree, b);
        proof {
            assert forall|j: int| 0 <= j < before@.len() implies same_box_shape(before@[j], #[trigger] tree@[j]) by {
                if before.children_of(b.idx()).contains(j as usize) {
                    let m = choose|m: int|
                        0 <= m < before.children_of(b.idx()).len()
                            && before.children_of(b.idx())[m] == j as usize;
                    assert(tree@[j] == with_offset(
                        before@[j],
                        block_position(before, b.idx(), m),
                    ));
                }
            }
        }
        h
    };
    proof {
        lemma_same_shape_trans(old_tree, before, *tree);
        assert forall|j: int| 0 <= j < old_tree@.len() implies #[trigger] tree@[j].box_model
            == old_tree@[j].box_model by {
            assert(before@[j].box_model == old_tree@[j].box_model);
            if !all_inline && before.children_of(b.idx()).contains(j as usize) {
                let m = choose|m: int|
                    0 <= m < before.children_of(b.idx()).len()
                        && before.children_of(b.idx())[m] == j as usize;
                assert(tree@[j] == with_offset(before@[j], block_position(before, b.idx(), m)));
            }
        }
        assert forall|j: int| 0 <= j < b.idx() implies tree@[j] == old_tree@[j] by {
            if !all_inline {
                assert(!before.children_of(b.idx()).contains(j as usize)) by {
                    if before.children_of(b.idx()).contains(j as usize) {
                        let m = choose|m: int|
                            0 <= m < before.children_of(b.idx()).len()
                                && before.children_of(b.idx())[m] == j as usize;
                        assert(b.idx() < before.children_of(b.idx())[m]);
                    }
                }
            }
        }
    }
    let ghost placed = *tree;
    if has_auto_height_exec(tree, b) {
        let ghost mid = *tree;
        b.set_content_height(tree, height);
        proof {
            assert forall|j: int| 0 <= j < old_tree@.len() implies #[trigger] tree@[j].box_model
                == old_tree@[j].box_model by {
                assert(mid@[j].box_model == old_tree@[j].box_model);
            }
            lemma_same_shape_update(mid, *tree, b.idx(), tree@[b.idx()]);
            lemma_same_shape_trans(old_tree, mid, *tree);
        }
    }
    proof {
        let kids = before.children_of(b.idx());
        assert(tree.children_of(b.idx()) == kids);
        assert(placed.children_of(b.idx()) == kids);
        assert forall|m: int| 0 <= m < kids.len() implies #[trigger] tree@[kids[m] as int]
            == placed@[kids[m] as int] by {
            assert(b.idx() < kids[m]);
        }
        if all_inline {
            assert forall|m: int| 0 <= m < kids.len() implies #[trigger] placed@[kids[m] as int]
                == before@[kids[m] as int] by {
                assert(b.idx() < kids[m]);
            }
            lemma_children_frame(before, *tree, b.idx());
        } else {
            assert forall|m: int| 0 <= m < kids.len() implies #[trigger] tree@[kids[m] as int].content_size
                == before@[kids[m] as int].content_size && tree@[kids[m] as int].box_model
                == before@[kids[m] as int].box_model by {
                assert(placed@[kids[m] as int] == with_offset(
                    before@[kids[m] as int],
                    block_position(before, b.idx(), m),
                ));
            }
            lemma_children_frame(before, *tree, b.idx());
            assert forall|k: int| 0 <= k < tree.children_of(b.idx()).len() implies #[trigger] tree@[tree.children_of(b.idx())[k] as int].offset
                == block_position(*tree, b.idx(), k) by {
                assert(placed@[kids[k] as int] == with_offset(
                    before@[kids[k] as int],
                    block_position(before, b.idx(), k),
                ));
            }
        }
        assert forall|m: int| 0 <= m < kids.len() implies #[trigger] tree@[kids[m] as int]
            == with_offset(before@[kids[m] as int], tree@[kids[m] as int].offset) by {
            assert(b.idx() < kids[m]);
            if all_inline {
                assert(placed@[kids[m] as int] == before@[kids[m] as int]);
            } else {
                assert(placed@[kids[m] as int] == with_offset(
                    before@[kids[m] as int],
                    block_position(before, b.idx(), m),
                ));
            }
        }
        assert forall|jj: int|
            0 <= jj < old_tree.len_spec() && jj != b.idx() && !kids.contains(jj as usize)
                implies #[trigger] tree@[jj] == before@[jj] by {
            assert(tree@[jj] == placed@[jj]);
        }
    }
}

/// The work of `layout_box`, told of a box above `b` whose context is set.
#[verifier::rlimit(100)]
fn layout_subtree(tree: &mut LayoutTree, b: LayoutBoxPtr, Ghost(anchor): Ghost<Option<int>>) -> (r: Result<(), LayoutError>)
    requires
        b.valid(old(tree)),
        anchor_ok(*old(tree), b.idx(), anchor),
    ensures
        final(tree).wf(),
        same_shape(*old(tree), *final(tree)),
        forall|j: int| 0 <= j < b.idx() ==> final(tree)@[j] == old(tree)@[j],
        final(tree)@[b.idx()].content_size.width == old(tree)@[b.idx()].content_size.width,
        forall|j: int|
            0 <= j < old(tree)@.len() ==> #[trigger] final(tree)@[j].box_model
                == old(tree)@[j].box_model,
        forall|j: int|
            0 <= j < old(tree)@.len() && !in_subtree(*old(tree), b.idx(), j) ==> #[trigger] final(tree)@[j]
                == old(tree)@[j],
        r is Ok ==> subtree_laid_out(*final(tree), b.idx()),
        r is Ok && old(tree)@[b.idx()].data is BlockBox && !old(tree).children_are_inline_spec(b.idx())
            ==> forall|k: int|
            0 <= k < final(tree).children_of(b.idx()).len() && has_auto_width(
                *final(tree),
                final(tree).children_of(b.idx())[k] as int,
            ) ==> #[trigger] final(tree)@[final(tree).children_of(b.idx())[k] as int].content_size.width
                == fill_width(*final(tree), b.idx(), final(tree).children_of(b.idx())[k] as int),
        r is Ok && old(tree)@[b.idx()].data is BlockBox ==> final(tree)@[b.idx()].formatting_context
            == Some(context_for(*old(tree), b.idx())),
        r is Ok && old(tree)@[b.idx()].data is BlockBox && old(tree).children_are_inline_spec(
            b.idx(),
        ) ==> {
            &&& lines_view(final(tree)@[b.idx()].data.lines_spec()) == greedy_lines(
                inline_pieces(*final(tree), b.idx()),
                final(tree)@[b.idx()].content_size.width as int,
            )
            &&& has_auto_height(*old(tree), b.idx()) ==> final(tree)@[b.idx()].content_size.height
                == lines_height(lines_view(final(tree)@[b.idx()].data.lines_spec()))
        },
        r is Ok && old(tree)@[b.idx()].data is BlockBox && !old(tree).children_are_inline_spec(
            b.idx(),
        ) ==> {
            &&& forall|k: int|
                0 <= k < final(tree).children_of(b.idx()).len()
                    ==> #[trigger] final(tree)@[final(tree).children_of(b.idx())[k] as int].offset
                    == block_position(
                    *final(tree),
                    b.idx(),
                    k,
                )
            &&& has_auto_height(*old(tree), b.idx()) ==> final(tree)@[b.idx()].content_size.height
                == stack_top(*final(tree), b.idx(), final(tree).children_of(b.idx()).len() as int)
        },
        (old(tree)@[b.idx()].data is BlockBox || anchor is Some) && positioned_resolve(
            *old(tree),
            b.idx(),
        ) ==> r is Ok,
    decreases MAX_BOXES - b.0,
{
    let ghost old_tree = *tree;
    let is_block = b.is_block(tree);
    let all_inline = b.children_are_inline(tree);
    let context = if all_inline {
        FormattingContextType::InlineFormattingContext
    } else {
        FormattingContextType::BlockFormattingContext
    };
    if is_block {
        b.set_formatting_context(tree, context);
        proof {
            lemma_same_shape_update(old_tree, *tree, b.idx(), tree@[b.idx()]);
        }
    } else {
        proof {
            lemma_same_shape_refl(old_tree);
        }
    }
    proof {
        lemma_same_shape_inline(old_tree, *tree, b.idx());
        assert(tree.box_ok(b.idx()));
    }
    proof {
        assert forall|j: int| 0 <= j < old_tree@.len() implies #[trigger] tree@[j].box_model
            == old_tree@[j].box_model by {
            if is_block && j == b.idx() {
            }
        }
    }
    let width = tree.get(b).content_size.width;
    let n = tree.get(b).children.len();
    let ghost kids = old_tree.children_of(b.idx());
    let mut k: usize = 0;
    while k < n
        invariant
            b.valid(tree),
            old_tree.wf(),
            old_tree == *old(tree),
            anchor_ok(old_tree, b.idx(), anchor),
            is_block == (old_tree@[b.idx()].data is BlockBox),
            all_inline == old_tree.children_are_inline_spec(b.idx()),
            b.valid(&old_tree),
            n == old_tree.children_of(b.idx()).len(),
            k <= n,
            same_shape(old_tree, *tree),
            forall|j: int| 0 <= j < b.idx() ==> tree@[j] == old_tree@[j],
            tree@[b.idx()].content_size.width == width,
            width == old_tree@[b.idx()].content_size.width,
            0 <= width <= MAX_LENGTH,
            is_block ==> tree@[b.idx()].formatting_context == Some(context),
            context == context_for(old_tree, b.idx()),
            kids == old_tree.children_of(b.idx()),
            forall|j: int|
                0 <= j < old_tree@.len() && !in_subtree(old_tree, b.idx(), j) ==> #[trigger] tree@[j]
                    == old_tree@[j],
            forall|m: int| 0 <= m < k ==> #[trigger] subtree_laid_out(*tree, kids[m] as int),
            forall|j: int|
                0 <= j < old_tree@.len() ==> #[trigger] tree@[j].box_model
                    == old_tree@[j].box_model,
            is_block && !all_inline ==> forall|m: int|
                0 <= m < k && has_auto_width(old_tree, kids[m] as int)
                    ==> #[trigger] tree@[kids[m] as int].content_size.width
                    == fill_width(old_tree, b.idx(), kids[m] as int),
        decreases n - k,
    {
        proof {
            lemma_same_shape_inline(old_tree, *tree, b.idx());
        }
        let c = LayoutBoxPtr(tree.get(b).children[k]);
        proof {
            assert(c.idx() == kids[k as int]);
            assert(b.idx() < c.idx() < tree.len_spec());
            assert(tree.box_ok(c.idx()));
        }
        let ghost before = *tree;
        if is_block && !all_inline {
            let m = tree.get(c).box_model;
            let edges = m.margin.left + m.border.left + m.padding.left + m.margin.right
                + m.border.right + m.padding.right;
            let fill = if width - edges < 0 {
                0
            } else {
                width - edges
            };
            c.set_content_width(tree, fill);
            proof {
                assert(forall|j: int| 0 <= j < b.idx() ==> tree@[j] == before@[j]);
                assert(forall|j: int| 0 <= j < c.idx() ==> tree@[j] == before@[j]);
                assert forall|j: int| 0 <= j < old_tree@.len() implies #[trigger] tree@[j].box_model
                    == old_tree@[j].box_model by {
                    assert(before@[j].box_model == old_tree@[j].box_model);
                }
                assert(tree@[c.idx()].content_size.width == fill_width(old_tree, b.idx(), c.idx()));
                lemma_same_shape_update(before, *tree, c.idx(), tree@[c.idx()]);
                lemma_same_shape_trans(old_tree, before, *tree);
            }
        }
        let ghost mid = *tree;
        let ghost child_anchor: Option<int> = if is_block {
            Some(b.idx())
        } else {
            anchor
        };
        proof {
            if (is_block || anchor is Some) && positioned_resolve(old_tree, b.idx()) {
                assert(mid.parent_of(c.idx()) == Some(b.0));
                lemma_child_anchor(old_tree, mid, b.idx(), c.idx(), anchor, is_block);
                lemma_shape_keeps_positioned(old_tree, mid, b.idx());
                lemma_resolves_below_anchor(mid, child_anchor->0, c.idx());
            }
        }
        let sized = c.apply_explicit_sizes(tree);
        proof {
            assert(forall|j: int| 0 <= j < b.idx() ==> tree@[j] == mid@[j]);
            assert(forall|j: int| 0 <= j < c.idx() ==> tree@[j] == mid@[j]);
            assert forall|j: int| 0 <= j < old_tree@.len() implies #[trigger] tree@[j].box_model
                == old_tree@[j].box_model by {
                assert(mid@[j].box_model == old_tree@[j].box_model);
            }
            if sized is Ok && has_auto_width(old_tree, c.idx()) {
                assert(same_box_shape(old_tree@[c.idx()], mid@[c.idx()]));
                assert(tree@[c.idx()].content_size.width == mid@[c.idx()].content_size.width);
            }
            if sized is Ok && !c.skips_explicit_sizes(&mid) {
                lemma_same_shape_update(mid, *tree, c.idx(), tree@[c.idx()]);
                lemma_same_shape_trans(old_tree, mid, *tree);
            }
        }
        match sized {
            Ok(()) => {},
            Err(e) => {
                return Err(e);
            },
        }
        let ghost mid2 = *tree;
        assert(tree@.len() == old_tree@.len());
        proof {
            assert(tree.parent_of(c.idx()) == Some(b.0));
            if is_block || anchor is Some {
                lemma_child_anchor(old_tree, *tree, b.idx(), c.idx(), anchor, is_block);
            }
            if positioned_resolve(old_tree, b.idx()) {
                lemma_shape_keeps_positioned(old_tree, *tree, b.idx());
            }
        }
        let sub = layout_subtree(tree, c, Ghost(if is_block || anchor is Some { child_anchor } else { None }));
        proof {
            lemma_same_shape_trans(old_tree, mid2, *tree);
            assert forall|j: int| 0 <= j < old_tree@.len() implies #[trigger] tree@[j].box_model
                == old_tree@[j].box_model by {
                assert(mid2@[j].box_model == old_tree@[j].box_model);
            }
            if is_block && !all_inline {
                assert forall|m: int|
                    0 <= m < k + 1 && has_auto_width(old_tree, kids[m] as int)
                        implies #[trigger] tree@[kids[m] as int].content_size.width
                        == fill_width(old_tree, b.idx(), kids[m] as int) by {
                    if m < k {
                        assert(kids[m] < kids[k as int]);
                        assert(tree@[kids[m] as int] == mid2@[kids[m] as int]);
                        assert(mid2@[kids[m] as int] == mid@[kids[m] as int]);
                        assert(mid@[kids[m] as int] == before@[kids[m] as int]);
                    }
                }
            }
        }
        proof {
            assert forall|j: int|
                0 <= j < old_tree.len_spec() && !in_subtree(old_tree, c.idx(), j) implies #[trigger] tree@[j]
                == before@[j] by {
                lemma_shape_keeps_ancestry(old_tree, mid2, c.idx(), j);
                assert(tree@[j] == mid2@[j]);
                assert(mid2@[j] == mid@[j]);
                assert(mid@[j] == before@[j]);
            }
            lemma_child_step(old_tree, before, *tree, b.idx(), k as int);
        }
        match sub {
            Ok(()) => {},
            Err(e) => {
                return Err(e);
            },
        }
        k = k + 1;
    }
    let ghost looped = *tree;
    if is_block {
        proof {
            lemma_same_shape_inline(old_tree, *tree, b.idx());
        }
        place_and_size(tree, b, all_inline);
        proof {
            lemma_same_shape_trans(old_tree, looped, *tree);
            assert forall|j: int| 0 <= j < b.idx() implies tree@[j] == old_tree@[j] by {
                if kids.contains(j as usize) {
                    let m = choose|m: int| 0 <= m < kids.len() && kids[m] == j as usize;
                    assert(b.idx() < kids[m]);
                }
                assert(tree@[j] == looped@[j]);
            }
            assert forall|j: int| 0 <= j < old_tree@.len() implies #[trigger] tree@[j].box_model
                == old_tree@[j].box_model by {
                assert(looped@[j].box_model == old_tree@[j].box_model);
            }
        }
    }
    proof {
        lemma_same_shape_inline(old_tree, *tree, b.idx());
        if is_block {
            assert(tree@[b.idx()].formatting_context == Some(context_for(*tree, b.idx())));
            assert(has_auto_height(*tree, b.idx()) == has_auto_height(old_tree, b.idx()));
            assert(box_laid_out(*tree, b.idx()));
        }
        lemma_finish_subtree(old_tree, looped, *tree, b.idx());
    }
    Ok(())
}

/// Lays out the whole tree from its root, whose content size the caller
/// has set (the viewport).
pub fn layout(tree: &mut LayoutTree) -> (r: Result<(), LayoutError>)
    requires
        old(tree).wf(),
    ensures
        final(tree).wf(),
        same_shape(*old(tree), *final(tree)),
        final(tree)@[0].content_size.width == old(tree)@[0].content_size.width,
        forall|j: int|
            0 <= j < old(tree)@.len() ==> #[trigger] final(tree)@[j].box_model
                == old(tree)@[j].box_model,
        forall|j: int|
            0 <= j < old(tree)@.len() && !in_subtree(*old(tree), 0, j) ==> #[trigger] final(tree)@[j]
                == old(tree)@[j],
        r is Ok ==> subtree_laid_out(*final(tree), 0),
        r is Ok && old(tree)@[0].data is BlockBox && !old(tree).children_are_inline_spec(0)
            ==> forall|k: int|
            0 <= k < final(tree).children_of(0).len() && has_auto_width(
                *final(tree),
                final(tree).children_of(0)[k] as int,
            ) ==> #[trigger] final(tree)@[final(tree).children_of(0)[k] as int].content_size.width
                == fill_width(*final(tree), 0, final(tree).children_of(0)[k] as int),
        r is Ok && old(tree)@[0].data is BlockBox ==> final(tree)@[0].formatting_context == Some(
            context_for(*old(tree), 0),
        ),        r is Ok && old(tree)@[0].data is BlockBox && old(tree).children_are_inline_spec(
            0,
        ) ==> {
            &&& lines_view(final(tree)@[0].data.lines_spec()) == greedy_lines(
                inline_pieces(*final(tree), 0),
                final(tree)@[0].content_size.width as int,
            )
            &&& has_auto_height(*old(tree), 0) ==> final(tree)@[0].content_size.height
                == lines_height(lines_view(final(tree)@[0].data.lines_spec()))
        },
        r is Ok && old(tree)@[0].data is BlockBox && !old(tree).children_are_inline_spec(
            0,
        ) ==> {
            &&& forall|k: int|
                0 <= k < final(tree).children_of(0).len()
                    ==> #[trigger] final(tree)@[final(tree).children_of(0)[k] as int].offset
                    == block_position(
                    *final(tree),
                    0,
                    k,
                )
            &&& has_auto_height(*old(tree), 0) ==> final(tree)@[0].content_size.height
                == stack_top(*final(tree), 0, final(tree).children_of(0).len() as int)
        },
        old(tree)@[0].data is BlockBox && positioned_resolve(*old(tree), 0) ==> r is Ok,
{
    let root = tree.root();
    layout_box(tree, root)
}

} // verus!
