//! Box-tree layout: geometry primitives, the CSS box model, a layout box
//! arena with containing-block resolution and absolute geometry, block and
//! inline formatting with greedy line breaking, hit testing, a text dump of
//! the tree, and the
//! command-line size argument.
pub mod geometry;
pub mod box_model;
pub mod style;
pub mod line_box;
pub mod layout_box;
pub mod formatting_context;
pub mod laws;
pub mod cli;
pub mod hit_test;
pub mod dump;
