//! A text dump of a layout subtree, for diagnostics.
use vstd::prelude::*;
use crate::layout_box::{BoxData, LayoutBoxPtr, LayoutTree};
use crate::line_box::LineBox;
use crate::style::NodeKind;

verus! {

pub open spec fn digit_char(d: int) -> char {
    if d == 0 { '0' } else if d == 1 { '1' } else if d == 2 { '2' } else if d == 3 { '3' }
    else if d == 4 { '4' } else if d == 5 { '5' } else if d == 6 { '6' } else if d == 7 { '7' }
    else if d == 8 { '8' } else { '9' }
}

/// The decimal digits of `n`, most significant first.
pub open spec fn digits_of(n: nat) -> Seq<char>
    decreases n,
{
    if n < 10 {
        seq![digit_char(n as int)]
    } else {
        digits_of(n / 10).push(digit_char((n % 10) as int))
    }
}

/// `v` written in decimal, with a leading `-` when negative.
pub open spec fn decimal(v: int) -> Seq<char> {
    if v < 0 {
        seq!['-'] + digits_of((-v) as nat)
    } else {
        digits_of(v as nat)
    }
}

fn digit_str(d: u64) -> (r: &'static str)
    requires
        d < 10,
    ensures
        r@ == seq![digit_char(d as int)],
{
    proof {
        reveal_strlit("0");
        reveal_strlit("1");
        reveal_strlit("2");
        reveal_strlit("3");
        reveal_strlit("4");
        reveal_strlit("5");
        reveal_strlit("6");
        reveal_strlit("7");
        reveal_strlit("8");
        reveal_strlit("9");
    }
    if d == 0 { "0" } else if d == 1 { "1" } else if d == 2 { "2" } else if d == 3 { "3" }
    else if d == 4 { "4" } else if d == 5 { "5" } else if d == 6 { "6" } else if d == 7 { "7" }
    else if d == 8 { "8" } else { "9" }
}

fn digits_string(n: u64) -> (r: String)
    ensures
        r@ == digits_of(n as nat),
    decreases n,
{
    if n < 10 {
        String::from_str(digit_str(n))
    } else {
        let mut s = digits_string(n / 10);
        s.append(digit_str(n % 10));
        s
    }
}

/// `v` in decimal.
pub fn decimal_string(v: i64) -> (r: String)
    ensures
        r@ == decimal(v as int),
{
    if v < 0 {
        let magnitude: u64 = (-(v as i128)) as u64;
        let digits = digits_string(magnitude);
        proof {
            reveal_strlit("-");
        }
        String::from_str("-").concat(digits.as_str())
    } else {
        digits_string(v as u64)
    }
}

/// Two spaces per level.
pub open spec fn indent(level: nat) -> Seq<char>
    decreases level,
{
    if level == 0 {
        Seq::empty()
    } else {
        indent((level - 1) as nat) + "  "@
    }
}

fn indent_string(level: usize) -> (r: String)
    ensures
        r@ == indent(level as nat),
{
    let mut s = String::new();
    let mut k: usize = 0;
    while k < level
        invariant
            k <= level,
            s@ == indent(k as nat),
        decreases level - k,
    {
        s.append("  ");
        k = k + 1;
    }
    s
}

impl NodeKind {
    /// A short description: `#text`, `<tag>`, or `#node`.
    pub open spec fn description_spec(&self) -> Seq<char> {
        match self {
            NodeKind::Text => "#text"@,
            NodeKind::Element(t) => "<"@ + t@ + ">"@,
            NodeKind::Other => "#node"@,
        }
    }

    pub fn description(&self) -> (r: String)
        ensures
            r@ == self.description_spec(),
    {
        match self {
            NodeKind::Text => String::from_str("#text"),
            NodeKind::Element(t) => String::from_str("<").concat(t.as_str()).concat(">"),
            NodeKind::Other => String::from_str("#node"),
        }
    }
}

/// The kind of box `i`, marked when anonymous.
pub open spec fn label(tree: LayoutTree, i: int) -> Seq<char> {
    let name = LayoutBoxPtr(i as usize).friendly_name_spec(&tree);
    if tree@[i].node is None {
        "[Anonymous "@ + name + "]"@
    } else {
        "["@ + name + "]"@
    }
}

/// The source node of box `i`, if any.
pub open spec fn node_info(tree: LayoutTree, i: int) -> Seq<char> {
    match tree@[i].node {
        Some(n) => " "@ + n.kind.description_spec(),
        None => Seq::empty(),
    }
}

/// The absolute geometry of box `i`.
pub open spec fn dimensions(tree: LayoutTree, i: int) -> Seq<char> {
    let b = tree@[i];
    if tree.chain_resolves(i) {
        " (x: "@ + decimal(tree.abs_x(i)) + " | y: "@ + decimal(tree.abs_y(i)) + " | w: "@
            + decimal(b.content_size.width as int) + " | h: "@ + decimal(
            b.content_size.height as int,
        ) + ")"@
    } else {
        " (no containing block)"@
    }
}

/// The first line of a box's dump: indentation, kind, source node and
/// absolute geometry.
pub open spec fn header(tree: LayoutTree, i: int, level: nat) -> Seq<char> {
    indent(level) + label(tree, i) + node_info(tree, i) + dimensions(tree, i) + "\n"@
}

/// One line box of the dump.
pub open spec fn line_text(l: LineBox, level: nat) -> Seq<char> {
    indent(level) + "[Line] (w: "@ + decimal(l.width as int) + " | h: "@ + decimal(
        l.height as int,
    ) + ")\n"@
}

pub open spec fn lines_text(ls: Seq<LineBox>, level: nat) -> Seq<char>
    decreases ls.len(),
{
    if ls.len() == 0 {
        Seq::empty()
    } else {
        lines_text(ls.drop_last(), level) + line_text(ls.last(), level)
    }
}

/// Whether the dump lists the box's line boxes rather than its children.
pub open spec fn dumps_lines(tree: LayoutTree, i: int) -> bool {
    tree@[i].data is BlockBox && tree.children_are_inline_spec(i)
}

/// The dump of box `i`: its header, then its lines or the dumps of its
/// children, one level deeper.
pub open spec fn dump_spec(tree: LayoutTree, i: int, level: nat) -> Seq<char>
    decreases tree.len_spec() - i, 1int, 0int,
{
    if 0 <= i < tree.len_spec() {
        header(tree, i, level) + if dumps_lines(tree, i) {
            lines_text(tree@[i].data.lines_spec(), level + 1)
        } else {
            children_text(tree, i, tree.children_of(i).len() as int, level + 1)
        }
    } else {
        Seq::empty()
    }
}

/// The dumps of the first `k` children of box `i`.
pub open spec fn children_text(tree: LayoutTree, i: int, k: int, level: nat) -> Seq<char>
    decreases tree.len_spec() - i, 0int, k,
{
    if 0 <= i < tree.len_spec() && 0 < k <= tree.children_of(i).len() {
        let c = tree.children_of(i)[k - 1] as int;
        children_text(tree, i, k - 1, level) + if i < c < tree.len_spec() {
            dump_spec(tree, c, level)
        } else {
            Seq::empty()
        }
    } else {
        Seq::empty()
    }
}

fn label_string(tree: &LayoutTree, b: LayoutBoxPtr) -> (r: String)
    requires
        b.valid(tree),
    ensures
        r@ == label(*tree, b.idx()),
{
    let name = b.friendly_name(tree);
    let open = if b.is_anonymous(tree) {
        String::from_str("[Anonymous ")
    } else {
        String::from_str("[")
    };
    open.concat(name.as_str()).concat("]")
}

fn node_info_string(tree: &LayoutTree, b: LayoutBoxPtr) -> (r: String)
    requires
        b.valid(tree),
    ensures
        r@ == node_info(*tree, b.idx()),
{
    match b.render_node(tree) {
        Some(n) => {
            let d = n.kind.description();
            String::from_str(" ").concat(d.as_str())
        },
        None => String::new(),
    }
}

fn dimensions_string(tree: &LayoutTree, b: LayoutBoxPtr) -> (r: String)
    requires
        b.valid(tree),
    ensures
        r@ == dimensions(*tree, b.idx()),
{
    proof {
        tree.lemma_abs_bounded(b.idx());
    }
    match b.absolute_rect(tree) {
        Ok(rect) => {
            let s = String::from_str(" (x: ").concat(decimal_string(rect.x).as_str());
            let s = s.concat(" | y: ").concat(decimal_string(rect.y).as_str());
            let s = s.concat(" | w: ").concat(decimal_string(rect.width).as_str());
            let s = s.concat(" | h: ").concat(decimal_string(rect.height).as_str());
            s.concat(")")
        },
        Err(_) => String::from_str(" (no containing block)"),
    }
}

fn header_string(tree: &LayoutTree, b: LayoutBoxPtr, level: usize) -> (r: String)
    requires
        b.valid(tree),
    ensures
        r@ == header(*tree, b.idx(), level as nat),
{
    let s = indent_string(level);
    let s = s.concat(label_string(tree, b).as_str());
    let s = s.concat(node_info_string(tree, b).as_str());
    let s = s.concat(dimensions_string(tree, b).as_str());
    s.concat("\n")
}

/// A text dump of the subtree of `b`, one box per line, each indented by
/// its level; a block that lays out inline children lists its line boxes
/// instead of its children.
pub fn dump(tree: &LayoutTree, b: LayoutBoxPtr, level: usize) -> (r: String)
    requires
        b.valid(tree),
        level + tree@.len() - b.0 <= usize::MAX,
    ensures
        r@ == dump_spec(*tree, b.idx(), level as nat),
    decreases tree@.len() - b.0,
{
    let mut s = header_string(tree, b, level);
    let ghost head = s@;
    if b.is_block(tree) && b.children_are_inline(tree) {
        let lines = b.lines(tree);
        let mut k: usize = 0;
        while k < lines.len()
            invariant
                b.valid(tree),
                lines@ == tree@[b.idx()].data.lines_spec(),
                k <= lines@.len(),
                level + tree@.len() - b.0 <= usize::MAX,
                s@ == head + lines_text(lines@.take(k as int), (level + 1) as nat),
            decreases lines@.len() - k,
        {
            let l = &lines[k];
            s.append(indent_string(level + 1).as_str());
            s.append("[Line] (w: ");
            s.append(decimal_string(l.width).as_str());
            s.append(" | h: ");
            s.append(decimal_string(l.height).as_str());
            s.append(")\n");
            proof {
                assert(lines@.take(k as int + 1).drop_last() =~= lines@.take(k as int));
                assert(s@ =~= head + lines_text(lines@.take(k as int + 1), (level + 1) as nat));
            }
            k = k + 1;
        }
        proof {
            assert(lines@.take(k as int) =~= lines@);
        }
    } else {
        let children = &tree.get(b).children;
        let mut k: usize = 0;
        while k < children.len()
            invariant
                b.valid(tree),
                children@ == tree.children_of(b.idx()),
                k <= children@.len(),
                level + tree@.len() - b.0 <= usize::MAX,
                s@ == head + children_text(*tree, b.idx(), k as int, (level + 1) as nat),
            decreases children@.len() - k,
        {
            let c = children[k];
            proof {
                assert(b.idx() < c < tree.len_spec());
            }
            let sub = dump(tree, LayoutBoxPtr(c), level + 1);
            s.append(sub.as_str());
            proof {
                assert(s@ =~= head + children_text(*tree, b.idx(), k as int + 1, (level + 1) as nat));
            }
            k = k + 1;
        }
    }
    s
}

} // verus!
