//! Which boxes lie under a point.
use vstd::prelude::*;
use crate::geometry::Point;
use crate::layout_box::{LayoutBoxPtr, LayoutError, LayoutTree};

verus! {

/// Whether box `i` is under the mouse at `coord`: any box but the root
/// whose absolute border box holds the point.
pub open spec fn is_mouse_over(tree: LayoutTree, i: int, coord: Point) -> bool {
    i != 0 && LayoutBoxPtr(i as usize).absolute_rect_spec(&tree).outer_spec(
        tree@[i].box_model.padding,
    ).outer_spec(tree@[i].box_model.border).contains_spec(coord)
}

/// Every box of the tree has a containing-block chain that ends at the root.
pub open spec fn all_chains_resolve(tree: LayoutTree) -> bool {
    forall|i: int| 0 <= i < tree@.len() ==> #[trigger] tree.chain_resolves(i)
}

/// For each box of the tree, in index order, whether the mouse at `coord`
/// is over it; an error where some box has no way to the root.
pub fn mark_mouse_over_boxes(tree: &LayoutTree, coord: &Point) -> (r: Result<Vec<bool>, LayoutError>)
    requires
        tree.wf(),
    ensures
        all_chains_resolve(*tree) ==> (r matches Ok(marks) && marks@.len() == tree@.len()
            && forall|i: int| 0 <= i < marks@.len() ==> marks@[i] == is_mouse_over(*tree, i, *coord)),
        !all_chains_resolve(*tree) ==> r == Err::<Vec<bool>, LayoutError>(
            LayoutError::MissingContainingBlock,
        ),
{
    let n = tree.len();
    let mut marks: Vec<bool> = Vec::new();
    let mut i: usize = 0;
    while i < n
        invariant
            tree.wf(),
            n == tree@.len(),
            i <= n,
            marks@.len() == i,
            forall|j: int| 0 <= j < i ==> #[trigger] tree.chain_resolves(j),
            forall|j: int| 0 <= j < i ==> marks@[j] == is_mouse_over(*tree, j, *coord),
        decreases n - i,
    {
        let over = match LayoutBoxPtr(i).border_box_absolute(tree) {
            Ok(rect) => i != 0 && rect.is_contain_point(coord),
            Err(e) => {
                return Err(e);
            },
        };
        marks.push(over);
        i = i + 1;
    }
    Ok(marks)
}

} // verus!
