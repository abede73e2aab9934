//! Margin, border and padding around a content box.
use vstd::prelude::*;
use crate::geometry::{Edges, Rect};

verus! {

/// The three edge sets of a box; each expands the rectangle inside it.
#[derive(Clone, Copy, Debug, PartialEq, Eq, Structural)]
pub struct BoxModel {
    pub margin: Edges,
    pub border: Edges,
    pub padding: Edges,
}

impl BoxModel {
    /// A box model with every edge zero.
    pub fn new() -> (r: BoxModel)
        ensures
            r.margin == (Edges { top: 0, right: 0, bottom: 0, left: 0 }),
            r.border == (Edges { top: 0, right: 0, bottom: 0, left: 0 }),
            r.padding == (Edges { top: 0, right: 0, bottom: 0, left: 0 }),
    {
        BoxModel { margin: Edges::zero(), border: Edges::zero(), padding: Edges::zero() }
    }

    pub open spec fn is_bounded(&self) -> bool {
        self.margin.is_bounded() && self.border.is_bounded() && self.padding.is_bounded()
    }

    pub fn margin_box(&self) -> (r: Edges)
        ensures
            r == self.margin,
    {
        self.margin
    }

    pub fn border_box(&self) -> (r: Edges)
        ensures
            r == self.border,
    {
        self.border
    }

    pub fn padding_box(&self) -> (r: Edges)
        ensures
            r == self.padding,
    {
        self.padding
    }

    /// The padding rectangle around `content`.
    pub fn padding_rect(&self, content: &Rect) -> (r: Rect)
        requires
            content.can_add_outer_edges(self.padding),
        ensures
            r == content.outer_spec(self.padding),
    {
        content.add_outer_edges(&self.padding)
    }

    /// The border rectangle around `content`: padding, then border.
    pub fn border_rect(&self, content: &Rect) -> (r: Rect)
        requires
            content.can_add_outer_edges(self.padding),
            content.outer_spec(self.padding).can_add_outer_edges(self.border),
        ensures
            r == content.outer_spec(self.padding).outer_spec(self.border),
    {
        self.padding_rect(content).add_outer_edges(&self.border)
    }

    /// The margin rectangle around `content`: padding, border, then margin.
    pub fn margin_rect(&self, content: &Rect) -> (r: Rect)
        requires
            content.can_add_outer_edges(self.padding),
            content.outer_spec(self.padding).can_add_outer_edges(self.border),
            content.outer_spec(self.padding).outer_spec(self.border).can_add_outer_edges(
                self.margin,
            ),
        ensures
            r == content.outer_spec(self.padding).outer_spec(self.border).outer_spec(self.margin),
    {
        self.border_rect(content).add_outer_edges(&self.margin)
    }
}

} // verus!
