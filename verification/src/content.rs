//! The contents of documents, which ropey keeps, and places in them.

use crate::lsp::{Position, Range};
use crate::syntax::{Point, SyntaxNode};
use crate::text::{
    lines_of, node_fits, node_range, node_text, node_text_of, point_range, point_range_on,
    range_on, split_lines, PositionError,
};
use ropey::Rope;
use vstd::prelude::*;

verus! {

/// A text that ropey keeps in pieces.
#[verifier::external_type_specification]
#[verifier::external_body]
pub struct ExRope(Rope);

/// The characters that a rope holds.
pub uninterp spec fn rope_text(rope: Rope) -> Seq<char>;

/// Calls `to_string` of `Rope`, which writes out the pieces of the rope one after the other,
/// and claims that the text is what the rope holds.
#[verifier::external_body]
pub(crate) fn rope_to_string(rope: &Rope) -> (text: String)
    ensures
        text@ == rope_text(*rope),
{
    rope.to_string()
}

/// The points of a position widened by one UTF-16 code unit to the left.
pub fn lsp_position_to_tree_sitter_point_range(content: &Rope, position: Position) -> (points:
    Result<(Point, Point), PositionError>)
    ensures
        points == point_range_on(lines_of(rope_text(*content)), position),
{
    point_range(&split_lines(&rope_to_string(content)), position)
}

/// The text of a syntax node, unless the node does not fit the content.
pub fn text_for_tree_sitter_node(content: &Rope, node: &SyntaxNode) -> (found: Option<String>)
    ensures
        found is Some <==> node_fits(rope_text(*content), node.deep_view()),
        found matches Some(part) ==> part@ == node_text_of(rope_text(*content), node.deep_view()),
{
    node_text(&rope_to_string(content), node)
}

/// The range that a syntax node covers.
pub fn tree_sitter_node_to_lsp_range(content: &Rope, node: &SyntaxNode) -> (range: Range)
    ensures
        range == range_on(lines_of(rope_text(*content)), node.deep_view()),
{
    node_range(&split_lines(&rope_to_string(content)), node)
}

} // verus!
