//! Syntax trees of beancount sources, as tree-sitter builds and searches them.

use tree_sitter_beancount::tree_sitter;
use tree_sitter_beancount::tree_sitter::{Query, QueryCursor, QueryError, StreamingIterator, Tree};
use tree_sitter_beancount::NodeKind;
use vstd::prelude::*;

verus! {

/// A syntax tree that tree-sitter built.
#[verifier::external_type_specification]
#[verifier::external_body]
pub struct ExTree(Tree);

/// A compiled tree-sitter query.
#[verifier::external_type_specification]
#[verifier::external_body]
pub struct ExQuery(Query);

/// The reason for which tree-sitter rejects a query.
#[verifier::external_type_specification]
#[verifier::external_body]
pub struct ExQueryError(QueryError);

/// A place in a source: a zero-based row, and a zero-based column counted in bytes.
#[derive(Debug, Clone, Copy, PartialEq, Eq, Structural)]
pub struct Point {
    pub row: u32,
    pub column: u32,
}

/// What is read of a syntax node: its kind, and the stretch of the source that it covers.
#[derive(Debug, PartialEq, Eq)]
pub struct SyntaxNode {
    pub kind: String,
    pub start_byte: usize,
    pub end_byte: usize,
    pub start: Point,
    pub end: Point,
}

/// What a syntax node is, as a mathematical value.
pub ghost struct NodeView {
    pub kind: Seq<char>,
    pub start_byte: nat,
    pub end_byte: nat,
    pub start: Point,
    pub end: Point,
}

impl DeepView for SyntaxNode {
    type V = NodeView;

    open spec fn deep_view(&self) -> NodeView {
        NodeView {
            kind: self.kind@,
            start_byte: self.start_byte as nat,
            end_byte: self.end_byte as nat,
            start: self.start,
            end: self.end,
        }
    }
}

/// The smallest named node that a tree holds over the points `start` to `end`.
pub uninterp spec fn named_node_over(tree: Tree, start: Point, end: Point) -> Option<NodeView>;

/// Calls `Node::named_descendant_for_point_range` on the root of `tree`, and claims that the
/// node, and whether there is one, depends on the tree and the two points alone. Of the node
/// come back its kind, its byte range and its points; the points are the 32-bit numbers that
/// tree-sitter keeps.
#[verifier::external_body]
pub(crate) fn named_descendant_for_point_range(tree: &Tree, start: Point, end: Point) -> (node:
    Option<SyntaxNode>)
    ensures
        node.deep_view() == named_node_over(*tree, start, end),
{
    tree.root_node().named_descendant_for_point_range(
        tree_sitter::Point { row: start.row as usize, column: start.column as usize },
        tree_sitter::Point { row: end.row as usize, column: end.column as usize },
    ).map(|n| SyntaxNode {
        kind: n.kind().to_string(),
        start_byte: n.start_byte(),
        end_byte: n.end_byte(),
        start: Point { row: n.start_position().row as u32, column: n.start_position().column as u32 },
        end: Point { row: n.end_position().row as u32, column: n.end_position().column as u32 },
    })
}

/// Whether a kind of node is that of account names.
pub open spec fn account_kind(kind: Seq<char>) -> bool {
    kind == "account"@
}

/// Calls `NodeKind::from` on the name of a kind, and claims that of all names only `account`
/// gives `NodeKind::Account`.
#[verifier::external_body]
pub(crate) fn is_account_kind(kind: &str) -> (account: bool)
    ensures
        account == account_kind(kind@),
{
    NodeKind::Account == kind.into()
}

/// The pattern that captures every account of a tree.
pub const ACCOUNT_PATTERN: &'static str = "(account) @account";

/// The name of the capture in that pattern.
pub const ACCOUNT_CAPTURE: &'static str = "account";

/// The pattern that a query was compiled from.
pub uninterp spec fn query_pattern(query: Query) -> Seq<char>;

/// Whether a pattern is a query over beancount trees.
pub uninterp spec fn query_compiles(pattern: Seq<char>) -> bool;

/// The index of a capture name among those of a pattern.
pub uninterp spec fn capture_index(pattern: Seq<char>, name: Seq<char>) -> Option<u32>;

/// The nodes that a tree over `source` holds for the capture `capture` of a pattern: one
/// sequence for each match, in the order in which the matches are found.
pub uninterp spec fn captured_nodes(
    pattern: Seq<char>,
    capture: u32,
    tree: Tree,
    source: Seq<char>,
) -> Seq<Seq<NodeView>>;

/// Calls `Query::new` for the beancount language on the pattern for accounts, and claims that
/// whether it compiles depends on the pattern alone. Nothing is claimed of other patterns: of
/// those with other characters than ASCII, tree-sitter lets the locale decide what is a space and
/// what a letter; and of a pattern with tens of thousands of steps or nested brackets it is not
/// shown that the call returns.
#[verifier::external_body]
fn compile_query(pattern: &str) -> (query: Result<Query, QueryError>)
    requires
        pattern@ == ACCOUNT_PATTERN@,
    ensures
        query is Ok <==> query_compiles(pattern@),
        query matches Ok(q) ==> query_pattern(q) == pattern@,
{
    Query::new(&tree_sitter_beancount::language(), pattern)
}

/// Calls `Query::capture_index_for_name`, and claims that the index depends on the pattern of
/// the query and the name alone, for a query of the pattern for accounts.
#[verifier::external_body]
fn capture_index_for_name(query: &Query, name: &str) -> (index: Option<u32>)
    requires
        query_pattern(*query) == ACCOUNT_PATTERN@,
    ensures
        index == capture_index(query_pattern(*query), name@),
{
    query.capture_index_for_name(name)
}

/// Calls `QueryCursor::matches` on the root of `tree`, and claims that the captured nodes
/// depend on the pattern, the capture, the tree and the source alone, for a query of the pattern
/// for accounts. That pattern has no predicate, which would start with `#` or `.`: with one,
/// tree-sitter would cut the text of nodes out of `source`, which may be too short for that.
#[verifier::external_body]
fn query_matches(query: &Query, capture: u32, tree: &Tree, source: &str) -> (found: Vec<
    Vec<SyntaxNode>,
>)
    requires
        query_pattern(*query) == ACCOUNT_PATTERN@,
    ensures
        found.deep_view() == captured_nodes(query_pattern(*query), capture, *tree, source@),
{
    let mut cursor = QueryCursor::new();
    let mut matches = cursor.matches(query, tree.root_node(), source.as_bytes());
    let mut found = Vec::new();
    while let Some(m) = matches.next() {
        found.push(m.nodes_for_capture_index(capture).map(|n| SyntaxNode {
            kind: n.kind().to_string(),
            start_byte: n.start_byte(),
            end_byte: n.end_byte(),
            start: Point { row: n.start_position().row as u32, column: n.start_position().column as u32 },
            end: Point { row: n.end_position().row as u32, column: n.end_position().column as u32 },
        }).collect());
    }
    found
}

/// The accounts that a tree over `source` holds: one sequence for each match of the pattern.
pub open spec fn account_captures(tree: Tree, source: Seq<char>) -> Seq<Seq<NodeView>> {
    captured_nodes(
        ACCOUNT_PATTERN@,
        capture_index(ACCOUNT_PATTERN@, ACCOUNT_CAPTURE@)->0,
        tree,
        source,
    )
}

/// Why there is no query for accounts.
#[derive(Debug, Clone, Copy, PartialEq, Eq, Structural)]
pub enum AccountQueryError {
    /// The grammar does not take the pattern.
    Pattern,
    /// The pattern does not have the capture.
    Capture,
}

/// The compiled query for accounts, to be made once and shared by all requests.
pub struct AccountQuery {
    query: Query,
    capture: u32,
}

impl AccountQuery {
    #[verifier::type_invariant]
    spec fn wf(self) -> bool {
        &&& query_pattern(self.query) == ACCOUNT_PATTERN@
        &&& capture_index(ACCOUNT_PATTERN@, ACCOUNT_CAPTURE@) == Some(self.capture)
    }

    /// Compiles the query.
    pub fn new() -> (result: Result<AccountQuery, AccountQueryError>)
        ensures
            result matches Err(AccountQueryError::Pattern) <==> !query_compiles(ACCOUNT_PATTERN@),
            result matches Err(AccountQueryError::Capture) <==> query_compiles(ACCOUNT_PATTERN@)
                && capture_index(ACCOUNT_PATTERN@, ACCOUNT_CAPTURE@) is None,
    {
        let query: Query = match compile_query(ACCOUNT_PATTERN) {
            Ok(query) => query,
            Err(_) => {
                return Err(AccountQueryError::Pattern);
            },
        };
        match capture_index_for_name(&query, ACCOUNT_CAPTURE) {
            Some(capture) => Ok(AccountQuery { query, capture }),
            None => Err(AccountQueryError::Capture),
        }
    }

    /// The accounts that `tree` holds, over the source that it was built from.
    pub fn captures(&self, tree: &Tree, source: &str) -> (found: Vec<Vec<SyntaxNode>>)
        ensures
            found.deep_view() == account_captures(*tree, source@),
    {
        proof {
            use_type_invariant(self);
        }
        query_matches(&self.query, self.capture, tree, source)
    }
}

/// A node is seen by all that is read of it.
pub proof fn law_node_is_seen_whole(node: SyntaxNode)
    ensures
        node.deep_view().kind == node.kind@,
        node.deep_view().start_byte == node.start_byte,
        node.deep_view().end_byte == node.end_byte,
        node.deep_view().start == node.start,
        node.deep_view().end == node.end,
{
}

/// The accounts of a tree are all of the matches of the pattern for accounts: as many, and the
/// same one at each index.
pub proof fn law_every_match_is_an_account(tree: Tree, source: Seq<char>)
    ensures
        ({
            let pattern = "(account) @account"@;
            let all = captured_nodes(pattern, capture_index(pattern, "account"@)->0, tree, source);
            &&& account_captures(tree, source).len() == all.len()
            &&& forall|m: int|
                0 <= m < all.len() ==> #[trigger] account_captures(tree, source)[m] == all[m]
        }),
{
}

/// A kind is that of account names if it is spelled `account`, and not otherwise.
pub proof fn law_one_kind_is_account(kind: Seq<char>)
    ensures
        kind == "account"@ ==> account_kind(kind),
        kind != "account"@ ==> !account_kind(kind),
{
}

} // verus!
