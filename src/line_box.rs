//! Line boxes and greedy line breaking.
use vstd::prelude::*;
use crate::geometry::{MAX_LENGTH, MAX_OFFSET};

verus! {

/// One inline piece placed on a line: the box it comes from, its offset
/// from the start of the line, and its extent.
#[derive(Clone, Copy, Debug, PartialEq, Eq, Structural)]
pub struct LineFragment {
    pub box_index: usize,
    pub x: i64,
    pub width: i64,
    pub height: i64,
}

/// A line of fragments, left to right, with the width they take and the
/// line's height (the tallest fragment).
#[derive(Clone, Debug)]
pub struct LineBox {
    pub fragments: Vec<LineFragment>,
    pub width: i64,
    pub height: i64,
}

/// A line as plain values: fragments, used width, height.
pub type LineView = (Seq<LineFragment>, int, int);

impl LineBox {
    pub open spec fn line_view(&self) -> LineView {
        (self.fragments@, self.width as int, self.height as int)
    }
}

pub open spec fn lines_view(lines: Seq<LineBox>) -> Seq<LineView> {
    lines.map_values(|l: LineBox| l.line_view())
}

/// A piece of inline content waiting for a line.
#[derive(Clone, Copy, Debug, PartialEq, Eq, Structural)]
pub struct InlinePiece {
    pub box_index: usize,
    pub width: i64,
    pub height: i64,
}

impl InlinePiece {
    pub open spec fn is_bounded(&self) -> bool {
        0 <= self.width <= MAX_OFFSET && 0 <= self.height <= MAX_OFFSET
    }
}

pub open spec fn max_int(a: int, b: int) -> int {
    if a >= b {
        a
    } else {
        b
    }
}

/// The fragment of `p` at offset `x` of its line.
pub open spec fn fragment_at(p: InlinePiece, x: int) -> LineFragment {
    LineFragment { box_index: p.box_index, x: x as i64, width: p.width, height: p.height }
}

/// Greedy line breaking: each piece goes at the end of the last line when
/// it fits in what is left of `available`, and otherwise opens a new line.
/// A piece wider than a whole line has no place to break: it stays on the
/// current line and overflows it.
pub open spec fn greedy_lines(ps: Seq<InlinePiece>, available: int) -> Seq<LineView>
    decreases ps.len(),
{
    if ps.len() == 0 {
        Seq::empty()
    } else {
        let prev = greedy_lines(ps.drop_last(), available);
        let p = ps.last();
        if prev.len() > 0 && (prev.last().1 + p.width <= available || p.width > available) {
            let l = prev.last();
            prev.update(
                prev.len() - 1,
                (l.0.push(fragment_at(p, l.1)), l.1 + p.width, max_int(l.2, p.height as int)),
            )
        } else {
            prev.push((seq![fragment_at(p, 0)], p.width as int, p.height as int))
        }
    }
}

/// Breaks `pieces`, in order, into lines of at most `available_width`.
pub fn break_lines(pieces: &Vec<InlinePiece>, available_width: i64) -> (r: Vec<LineBox>)
    requires
        0 <= available_width <= MAX_LENGTH,
        pieces@.len() <= crate::layout_box::MAX_BOXES,
        forall|i: int| 0 <= i < pieces@.len() ==> #[trigger] pieces@[i].is_bounded(),
    ensures
        lines_view(r@) == greedy_lines(pieces@, available_width as int),
{
    let mut lines: Vec<LineBox> = Vec::new();
    let mut current: Vec<LineFragment> = Vec::new();
    let mut used: i64 = 0;
    let mut height: i64 = 0;
    let mut i: usize = 0;
    while i < pieces.len()
        invariant
            0 <= available_width <= MAX_LENGTH,
            forall|j: int| 0 <= j < pieces@.len() ==> #[trigger] pieces@[j].is_bounded(),
            i <= pieces@.len(),
            pieces@.len() <= crate::layout_box::MAX_BOXES,
            0 <= used <= i * MAX_OFFSET,
            0 <= height <= MAX_OFFSET,
            i == 0 ==> lines@.len() == 0,
            i > 0 ==> lines_view(lines@).push((current@, used as int, height as int))
                == greedy_lines(pieces@.take(i as int), available_width as int),
        decreases pieces@.len() - i,
    {
        let p = pieces[i];
        assert(pieces@[i as int].is_bounded());
        let ghost prefix = pieces@.take(i as int + 1);
        assert(prefix.drop_last() =~= pieces@.take(i as int));
        assert(prefix.last() == p);
        if i > 0 && (used + p.width <= available_width || p.width > available_width) {
            current.push(LineFragment { box_index: p.box_index, x: used, width: p.width, height: p.height });
            used = used + p.width;
            if p.height > height {
                height = p.height;
            }
            proof {
                let prev = greedy_lines(pieces@.take(i as int), available_width as int);
                assert(prev.last() == (current@.drop_last(), used - p.width, prev.last().2));
                assert(lines_view(lines@).push((current@, used as int, height as int)) =~= prev.update(
                    prev.len() - 1,
                    (prev.last().0.push(fragment_at(p, prev.last().1)), prev.last().1 + p.width, max_int(prev.last().2, p.height as int)),
                ));
            }
        } else {
            if i > 0 {
                let line = LineBox { fragments: current, width: used, height };
                lines.push(line);
                proof {
                    let prev = greedy_lines(pieces@.take(i as int), available_width as int);
                    assert(lines_view(lines@) =~= prev);
                }
            }
            current = Vec::new();
            current.push(LineFragment { box_index: p.box_index, x: 0, width: p.width, height: p.height });
            used = p.width;
            height = p.height;
            proof {
                let prev = greedy_lines(pieces@.take(i as int), available_width as int);
                assert(current@ =~= seq![fragment_at(p, 0)]);
                assert(lines_view(lines@).push((current@, used as int, height as int)) =~= prev.push(
                    (seq![fragment_at(p, 0)], p.width as int, p.height as int),
                ));
            }
        }
        i = i + 1;
    }
    proof {
        assert(pieces@.take(i as int) =~= pieces@);
    }
    if i > 0 {
        let line = LineBox { fragments: current, width: used, height };
        lines.push(line);
        proof {
            assert(lines_view(lines@) =~= greedy_lines(pieces@, available_width as int));
        }
    } else {
        assert(lines_view(lines@) =~= greedy_lines(pieces@, available_width as int));
    }
    lines
}

} // verus!
