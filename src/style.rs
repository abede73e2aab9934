//! The computed style values that layout reads from a styled content node.
use vstd::prelude::*;

verus! {

#[derive(Clone, Copy, Debug, PartialEq, Eq, Structural)]
pub enum OuterDisplayType {
    Block,
    Inline,
}

#[derive(Clone, Copy, Debug, PartialEq, Eq, Structural)]
pub enum InnerDisplayType {
    Flow,
    FlowRoot,
}

/// A `display` value: a keyword, or an explicit (outer, inner) pair.
#[derive(Clone, Copy, Debug, PartialEq, Eq, Structural)]
pub enum Display {
    Inline,
    Block,
    NoDisplay,
    Full(OuterDisplayType, InnerDisplayType),
}

impl Display {
    /// The initial `display` value.
    pub fn default() -> (r: Value)
        ensures
            r == Value::Display(Display::Block),
    {
        Value::Display(Display::Block)
    }

    /// The (outer, inner) pair that the value stands for; none for
    /// `display: none`.
    pub open spec fn full_spec(&self) -> Option<(OuterDisplayType, InnerDisplayType)> {
        match *self {
            Display::Inline => Some((OuterDisplayType::Inline, InnerDisplayType::Flow)),
            Display::Block => Some((OuterDisplayType::Block, InnerDisplayType::Flow)),
            Display::NoDisplay => None,
            Display::Full(o, i) => Some((o, i)),
        }
    }

    pub fn full(&self) -> (r: Option<(OuterDisplayType, InnerDisplayType)>)
        ensures
            r == self.full_spec(),
    {
        match *self {
            Display::Inline => Some((OuterDisplayType::Inline, InnerDisplayType::Flow)),
            Display::Block => Some((OuterDisplayType::Block, InnerDisplayType::Flow)),
            Display::NoDisplay => None,
            Display::Full(o, i) => Some((o, i)),
        }
    }
}

/// The positioning scheme of a box.
#[derive(Clone, Copy, Debug, PartialEq, Eq, Structural)]
pub enum Position {
    Static,
    Relative,
    Absolute,
    Fixed,
}

/// The properties that layout looks up.
#[derive(Clone, Copy, Debug, PartialEq, Eq, Structural)]
pub enum Property {
    Display,
    Position,
    Width,
    Height,
}

/// A computed value. Lengths are whole pixels and percentages whole
/// percent.
#[derive(Clone, Copy, Debug, PartialEq, Eq, Structural)]
pub enum Value {
    Auto,
    Length(i64),
    Percentage(i64),
    Display(Display),
    Position(Position),
}

/// `v` clamped into `0..=MAX_LENGTH`: a used size is never negative and
/// never beyond what the layout tree stores.
pub open spec fn clamp_length(v: int) -> int {
    if v < 0 {
        0
    } else if v > crate::geometry::MAX_LENGTH {
        crate::geometry::MAX_LENGTH as int
    } else {
        v
    }
}

impl Value {
    pub fn is_auto(&self) -> (r: bool)
        ensures
            r == (*self is Auto),
    {
        match self {
            Value::Auto => true,
            _ => false,
        }
    }

    /// The length in pixels against a containing dimension, before clamping.
    /// Values that are not lengths resolve to zero.
    pub open spec fn px_spec(&self, containing: int) -> int {
        match *self {
            Value::Length(l) => l as int,
            Value::Percentage(p) => (containing * p) / 100,
            _ => 0,
        }
    }

    /// The used length in pixels, clamped into `0..=MAX_LENGTH`.
    pub fn to_px(&self, containing: i64) -> (r: i64)
        requires
            0 <= containing <= crate::geometry::MAX_LENGTH,
        ensures
            r == clamp_length(self.px_spec(containing as int)),
    {
        match *self {
            Value::Length(l) => {
                if l < 0 {
                    0
                } else if l > crate::geometry::MAX_LENGTH {
                    crate::geometry::MAX_LENGTH
                } else {
                    l
                }
            },
            Value::Percentage(p) => {
                if p <= 0 {
                    assert((containing as int) * (p as int) <= 0) by (nonlinear_arith)
                        requires
                            containing >= 0,
                            p <= 0,
                    ;
                    0
                } else {
                    assert(0 <= (containing as int) * (p as int) <= 0x4000_0000 * 0x7fff_ffff_ffff_ffff)
                        by (nonlinear_arith)
                        requires
                            0 <= containing <= 0x4000_0000,
                            0 < p <= 0x7fff_ffff_ffff_ffff,
                    ;
                    let v: i128 = (containing as i128) * (p as i128) / 100;
                    if v > crate::geometry::MAX_LENGTH as i128 {
                        crate::geometry::MAX_LENGTH
                    } else {
                        v as i64
                    }
                }
            },
            _ => 0,
        }
    }
}

/// What kind of content node a styled node stands for.
#[derive(Clone, Debug)]
pub enum NodeKind {
    Text,
    Element(String),
    Other,
}

/// A content node with its resolved style.
#[derive(Clone, Debug)]
pub struct RenderNode {
    pub kind: NodeKind,
    pub display: Display,
    pub position: Position,
    pub width: Value,
    pub height: Value,
}

impl RenderNode {
    pub open spec fn style_spec(&self, p: Property) -> Value {
        match p {
            Property::Display => Value::Display(self.display),
            Property::Position => Value::Position(self.position),
            Property::Width => self.width,
            Property::Height => self.height,
        }
    }

    /// The computed value of `p`; the lookup is total.
    pub fn get_style(&self, p: &Property) -> (r: Value)
        ensures
            r == self.style_spec(*p),
    {
        match p {
            Property::Display => Value::Display(self.display),
            Property::Position => Value::Position(self.position),
            Property::Width => self.width,
            Property::Height => self.height,
        }
    }

    pub fn is_text(&self) -> (r: bool)
        ensures
            r == (self.kind is Text),
    {
        match self.kind {
            NodeKind::Text => true,
            _ => false,
        }
    }

    /// The tag name, for an element.
    pub open spec fn tag_spec(&self) -> Option<Seq<char>> {
        match self.kind {
            NodeKind::Element(t) => Some(t@),
            _ => None,
        }
    }

    pub fn tag_name(&self) -> (r: Option<&String>)
        ensures
            r matches Some(t) ==> self.tag_spec() == Some(t@),
            r is None ==> self.tag_spec() is None,
    {
        match &self.kind {
            NodeKind::Element(t) => Some(t),
            _ => None,
        }
    }
}

} // verus!
