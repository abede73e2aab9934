//! Properties that hold of every well-formed layout tree.
use vstd::prelude::*;
use crate::layout_box::{LayoutBoxPtr, LayoutTree};
use crate::line_box::{greedy_lines, InlinePiece, LineFragment, LineView};

verus! {

/// The box that the containing-block chain of `i` ends at: the first box
/// on it that has no containing block.
pub open spec fn chain_end(tree: LayoutTree, i: int) -> int
    decreases i,
{
    match tree.containing_block_spec(i) {
        Some(c) => if 0 <= c < i {
            chain_end(tree, c)
        } else {
            i
        },
        None => i,
    }
}

/// An ancestor found by a search is shallower than the box searched from.
proof fn lemma_find_ancestor_shallower(
    tree: LayoutTree,
    i: int,
    rule: crate::layout_box::AncestorRule,
)
    requires
        tree.wf(),
        0 <= i < tree.len_spec(),
    ensures
        tree.find_ancestor(i, rule) matches Some(c) ==> 0 <= c < tree.len_spec() && tree.depth(c)
            < tree.depth(i),
    decreases i,
{
    if let Some(p) = tree.parent_of(i) {
        if 0 <= p < i && !tree.matches_rule(p as int, rule) {
            lemma_find_ancestor_shallower(tree, p as int, rule);
        }
    }
}

/// A text run never has children.
pub proof fn text_run_is_leaf(tree: LayoutTree, b: LayoutBoxPtr)
    requires
        b.valid(&tree),
        tree.is_text_run_spec(b.idx()),
    ensures
        tree.children_of(b.idx()).len() == 0,
{
    assert(tree.box_ok(b.idx()));
}

/// A box holds line boxes only while all its children are inline.
pub proof fn lines_only_over_inline_children(tree: LayoutTree, b: LayoutBoxPtr)
    requires
        b.valid(&tree),
        tree@[b.idx()].data.lines_spec().len() > 0,
    ensures
        tree@[b.idx()].data is BlockBox,
        tree.children_are_inline_spec(b.idx()),
{
    assert(tree.box_ok(b.idx()));
}

/// Following containing blocks from a box takes at most as many steps as
/// the box is deep, each step reaching a strictly shallower ancestor. The
/// walk ends at the root, or at a box other than the root that has no
/// containing block (which `containing_block` reports as an error); it
/// ends at the root exactly when every box on the way but the root has a
/// containing block.
pub proof fn containing_block_chain_reaches_root(tree: LayoutTree, b: LayoutBoxPtr)
    requires
        b.valid(&tree),
    ensures
        tree.chain_steps(b.idx()) <= tree.depth(b.idx()),
        tree.containing_block_spec(b.idx()) matches Some(c) ==> tree.depth(c) < tree.depth(
            b.idx(),
        ),
        tree.containing_block_spec(chain_end(tree, b.idx())) is None,
        chain_end(tree, b.idx()) != 0 ==> tree.parent_of(chain_end(tree, b.idx())) is Some,
        tree.chain_resolves(b.idx()) <==> chain_end(tree, b.idx()) == 0,
    decreases b.0,
{
    let i = b.idx();
    lemma_find_ancestor_shallower(tree, i, tree.rule_of(i));
    tree.lemma_containing_block_before(i);
    if let Some(c) = tree.containing_block_spec(i) {
        containing_block_chain_reaches_root(tree, LayoutBoxPtr(c as usize));
    } else {
        if i == 0 {
            assert(tree.find_ancestor(0, tree.rule_of(0)) is None);
        }
    }
}

/// The fragments of all lines, first line first.
pub open spec fn all_fragments(ls: Seq<LineView>) -> Seq<LineFragment>
    decreases ls.len(),
{
    if ls.len() == 0 {
        Seq::empty()
    } else {
        all_fragments(ls.drop_last()) + ls.last().0
    }
}

/// Line breaking keeps every piece, in order, and gives each line at least
/// one fragment.
pub proof fn line_breaking_keeps_pieces(ps: Seq<InlinePiece>, available: int)
    ensures
        all_fragments(greedy_lines(ps, available)).len() == ps.len(),
        forall|k: int|
            0 <= k < ps.len() ==> {
                let f = #[trigger] all_fragments(greedy_lines(ps, available))[k];
                f.box_index == ps[k].box_index && f.width == ps[k].width && f.height
                    == ps[k].height
            },
        forall|l: int|
            0 <= l < greedy_lines(ps, available).len() ==> {
                let line = #[trigger] greedy_lines(ps, available)[l];
                line.0.len() >= 1
            },
    decreases ps.len(),
{
    if ps.len() > 0 {
        let prev_ps = ps.drop_last();
        line_breaking_keeps_pieces(prev_ps, available);
        let prev = greedy_lines(prev_ps, available);
        let p = ps.last();
        let cur = greedy_lines(ps, available);
        if prev.len() > 0 && (prev.last().1 + p.width <= available || p.width > available) {
            let l = prev.last();
            assert(cur.drop_last() =~= prev.drop_last());
            assert(all_fragments(prev) == all_fragments(prev.drop_last()) + l.0);
            assert(all_fragments(cur) =~= all_fragments(prev).push(cur.last().0.last()));
        } else {
            assert(cur.drop_last() =~= prev);
            assert(all_fragments(cur) =~= all_fragments(prev).push(cur.last().0.last()));
        }
        assert forall|k: int| 0 <= k < ps.len() implies {
            let f = #[trigger] all_fragments(cur)[k];
            f.box_index == ps[k].box_index && f.width == ps[k].width && f.height == ps[k].height
        } by {
            if k < ps.len() - 1 {
                assert(all_fragments(cur)[k] == all_fragments(prev)[k]);
                assert(ps[k] == prev_ps[k]);
            }
        }
    }
}

} // verus!
