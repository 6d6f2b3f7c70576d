//! The requests: references to an account, and its rename.

use crate::account::{law_prefix_sibling_not_selected, lemma_selected_starts_with};
use crate::changes::{rename_at, renaming, Changes};
use crate::content::{
    lsp_position_to_tree_sitter_point_range, rope_text, text_for_tree_sitter_node,
    tree_sitter_node_to_lsp_range,
};
use crate::files::{Document, Snapshot};
use crate::lsp::{
    Location, LocationView, PlaceholderView, Position, PrepareRenamePlaceholder, Range,
    RenameParams, TextDocumentPositionParams, TextEditView,
};
use crate::matches::{
    find_account_matches, find_references, forest_fits, law_only_selected_names, locations_of,
    project_hits, StaleTree,
};
use crate::syntax::{
    account_kind, is_account_kind, named_descendant_for_point_range, named_node_over,
    AccountQuery, NodeView, Point, SyntaxNode,
};
use crate::text::{
    law_range_covers_text, lines_of, node_fits, node_on_line, node_text_of, point_range_on,
    range_on, utf16_len, PositionError,
};
use ropey::Rope;
use tree_sitter_beancount::tree_sitter::Tree;
use vstd::prelude::*;
use vstd::string::*;

verus! {

/// Why a node has no text.
#[derive(Debug, Clone, Copy, PartialEq, Eq, Structural)]
pub enum NodeError {
    /// The position has no place in the content.
    Position(PositionError),
    /// The tree does not belong to the content.
    StaleTree,
}

/// Why a request fails.
#[derive(Debug, PartialEq, Eq)]
pub enum RequestError {
    /// The position has no place in the document.
    Position {
        /// What was being done.
        context: String,
        cause: PositionError,
    },
    /// A tree of the project does not belong to the content of its file.
    StaleTree,
}

/// What a failure is, as a mathematical value.
pub ghost enum RequestErrorView {
    Position { context: Seq<char>, cause: PositionError },
    StaleTree,
}

impl DeepView for RequestError {
    type V = RequestErrorView;

    open spec fn deep_view(&self) -> RequestErrorView {
        match self {
            RequestError::Position { context, cause } => RequestErrorView::Position {
                context: context@,
                cause: *cause,
            },
            RequestError::StaleTree => RequestErrorView::StaleTree,
        }
    }
}

/// What a request answers, by the views of its parts.
pub open spec fn answer<T: DeepView>(result: Result<Option<T>, RequestError>) -> Result<
    Option<T::V>,
    RequestErrorView,
> {
    match result {
        Ok(value) => Ok(value.deep_view()),
        Err(error) => Err(error.deep_view()),
    }
}

/// The edits that a rename asks the client to make.
#[derive(Debug, PartialEq, Eq)]
pub struct WorkspaceEdit {
    pub changes: Option<Changes>,
}

impl DeepView for WorkspaceEdit {
    type V = Option<Map<Seq<char>, Seq<TextEditView>>>;

    open spec fn deep_view(&self) -> Option<Map<Seq<char>, Seq<TextEditView>>> {
        match self.changes {
            Some(changes) => Some(changes@),
            None => None,
        }
    }
}

/// The text of the named node at a position.
pub open spec fn node_text_at(tree: Tree, text: Seq<char>, position: Position) -> Result<
    Option<Seq<char>>,
    NodeError,
> {
    match point_range_on(lines_of(text), position) {
        Err(cause) => Err(NodeError::Position(cause)),
        Ok((start, end)) => match named_node_over(tree, start, end) {
            None => Ok(None),
            Some(node) => if node_fits(text, node) {
                Ok(Some(node_text_of(text, node)))
            } else {
                Err(NodeError::StaleTree)
            },
        },
    }
}

/// The node, if it is an account.
pub open spec fn if_account(node: Option<NodeView>) -> Option<NodeView> {
    match node {
        Some(n) => if account_kind(n.kind) {
            Some(n)
        } else {
            None
        },
        None => None,
    }
}

/// The account at a position: the node over the widened range of the position if that is an
/// account, or else the node over the position itself if that is one.
pub open spec fn account_node_at(tree: Tree, text: Seq<char>, position: Position) -> Result<
    Option<NodeView>,
    PositionError,
> {
    match point_range_on(lines_of(text), position) {
        Err(cause) => Err(cause),
        Ok((wide_start, point)) => match if_account(named_node_over(tree, wide_start, point)) {
            Some(node) => Ok(Some(node)),
            None => Ok(if_account(named_node_over(tree, point, point))),
        },
    }
}

/// The text of the named node at a position of the content of `tree`.
pub fn node_text_at_position(tree: &Tree, content: &Rope, position: Position) -> (result: Result<
    Option<String>,
    NodeError,
>)
    ensures
        (match result {
            Ok(text) => Ok(text.deep_view()),
            Err(error) => Err(error),
        }) == node_text_at(*tree, rope_text(*content), position),
{
    let (start, end) = match lsp_position_to_tree_sitter_point_range(content, position) {
        Ok(points) => points,
        Err(cause) => {
            return Err(NodeError::Position(cause));
        },
    };
    match named_descendant_for_point_range(tree, start, end) {
        None => Ok(None),
        Some(node) => match text_for_tree_sitter_node(content, &node) {
            Some(text) => Ok(Some(text)),
            None => Err(NodeError::StaleTree),
        },
    }
}

/// The node, if it is an account.
pub fn account_of(node: Option<SyntaxNode>) -> (account: Option<SyntaxNode>)
    ensures
        account.deep_view() == if_account(node.deep_view()),
{
    match node {
        Some(n) => if is_account_kind(&n.kind) {
            Some(n)
        } else {
            None
        },
        None => None,
    }
}

/// The account at a position of the content of `tree`, if the position is on one.
///
/// No single range of points covers both ends of a name. The range widened to the left finds
/// the account for a cursor just past its end; on the first character of the account it reaches
/// back into the space before it, and finds the node around both. There the exact point finds
/// the account.
pub fn account_node_at_position(tree: &Tree, content: &Rope, position: Position) -> (result: Result<
    Option<SyntaxNode>,
    PositionError,
>)
    ensures
        (match result {
            Ok(node) => Ok(node.deep_view()),
            Err(cause) => Err(cause),
        }) == account_node_at(*tree, rope_text(*content), position),
{
    let (wide_start, point) = match lsp_position_to_tree_sitter_point_range(content, position) {
        Ok(points) => points,
        Err(cause) => {
            return Err(cause);
        },
    };
    if let Some(node) = account_of(named_descendant_for_point_range(tree, wide_start, point)) {
        return Ok(Some(node));
    }
    Ok(account_of(named_descendant_for_point_range(tree, point, point)))
}

/// What is offered for the rename of an account.
pub open spec fn placeholder_of(text: Seq<char>, node: NodeView) -> PlaceholderView {
    PlaceholderView {
        range: range_on(lines_of(text), node),
        placeholder: node_text_of(text, node),
    }
}

/// What is offered for the rename of the account at `node`: all of its name, not the segment
/// at the cursor.
pub fn placeholder_for(content: &Rope, node: &SyntaxNode) -> (result: Result<
    PrepareRenamePlaceholder,
    StaleTree,
>)
    ensures
        result is Ok <==> node_fits(rope_text(*content), node.deep_view()),
        result matches Ok(p) ==> p.deep_view() == placeholder_of(
            rope_text(*content),
            node.deep_view(),
        ),
{
    match text_for_tree_sitter_node(content, node) {
        Some(placeholder) => {
            let range = tree_sitter_node_to_lsp_range(content, node);
            Ok(PrepareRenamePlaceholder { range, placeholder })
        },
        None => Err(StaleTree),
    }
}

/// What a failed search for an account at a position reports.
pub open spec fn account_context(uri: Seq<char>) -> Seq<char> {
    "failed to get account node at position for uri: "@ + uri
}

/// What a failed search for a node at a position reports.
pub open spec fn text_context(uri: Seq<char>) -> Seq<char> {
    "failed to get node text at position for uri: "@ + uri
}

/// What a request to prepare a rename answers.
pub open spec fn prepared_rename(snapshot: Snapshot, uri: Seq<char>, position: Position) -> Result<
    Option<PlaceholderView>,
    RequestErrorView,
> {
    match snapshot.opened_at(uri) {
        None => Ok(None),
        Some((tree, document)) => {
            let text = rope_text(document.content);
            match account_node_at(tree, text, position) {
                Err(cause) => Err(
                    RequestErrorView::Position { context: account_context(uri), cause },
                ),
                Ok(None) => Ok(None),
                Ok(Some(node)) => if node_fits(text, node) {
                    Ok(Some(placeholder_of(text, node)))
                } else {
                    Err(RequestErrorView::StaleTree)
                },
            }
        },
    }
}

/// Answers `textDocument/prepareRename`: what to offer for the rename of the account at a
/// position, or nothing where there is none.
pub fn prepare_rename(snapshot: &Snapshot, params: &TextDocumentPositionParams) -> (result: Result<
    Option<PrepareRenamePlaceholder>,
    RequestError,
>)
    ensures
        answer(result) == prepared_rename(*snapshot, params.uri@, params.position),
{
    let (tree, document) = match snapshot.tree_and_document_for_uri(&params.uri) {
        Some(found) => found,
        None => {
            return Ok(None);
        },
    };
    match account_node_at_position(tree, &document.content, params.position) {
        Err(cause) => {
            let mut context: String = "failed to get account node at position for uri: ".to_owned();
            context.append(&params.uri);
            Err(RequestError::Position { context, cause })
        },
        Ok(None) => Ok(None),
        Ok(Some(node)) => match placeholder_for(&document.content, &node) {
            Ok(placeholder) => Ok(Some(placeholder)),
            Err(_) => Err(RequestError::StaleTree),
        },
    }
}

/// The places of a project at which `account` is named.
pub open spec fn hits_of(snapshot: Snapshot, account: Seq<char>, subaccounts: bool) -> Seq<
    (LocationView, Seq<char>),
> {
    project_hits(
        snapshot.forest.entries(),
        snapshot.open_docs.entries(),
        snapshot.forest_content.entries(),
        account,
        subaccounts,
    )
}

/// Whether the tree of each file of a project belongs to the content of the file.
pub open spec fn trees_fit(snapshot: Snapshot) -> bool {
    forest_fits(
        snapshot.forest.entries(),
        snapshot.open_docs.entries(),
        snapshot.forest_content.entries(),
    )
}

/// What a request for references answers.
pub open spec fn found_references(snapshot: Snapshot, uri: Seq<char>, position: Position) -> Result<
    Option<Seq<LocationView>>,
    RequestErrorView,
> {
    match snapshot.opened_at(uri) {
        None => Ok(None),
        Some((tree, document)) => match node_text_at(tree, rope_text(document.content), position) {
            Err(NodeError::Position(cause)) => Err(
                RequestErrorView::Position { context: text_context(uri), cause },
            ),
            Err(NodeError::StaleTree) => Err(RequestErrorView::StaleTree),
            Ok(None) => Ok(None),
            Ok(Some(name)) => if trees_fit(snapshot) {
                Ok(Some(locations_of(hits_of(snapshot, name, false))))
            } else {
                Err(RequestErrorView::StaleTree)
            },
        },
    }
}

/// Answers `textDocument/references`: the accounts of the project that have the text of the
/// node at a position of an open document.
pub fn references(
    snapshot: &Snapshot,
    query: &AccountQuery,
    params: &TextDocumentPositionParams,
) -> (result: Result<Option<Vec<Location>>, RequestError>)
    ensures
        answer(result) == found_references(*snapshot, params.uri@, params.position),
{
    let (tree, document) = match snapshot.tree_and_document_for_uri(&params.uri) {
        Some(found) => found,
        None => {
            return Ok(None);
        },
    };
    let node_text: String = match node_text_at_position(tree, &document.content, params.position) {
        Err(NodeError::Position(cause)) => {
            let mut context: String = "failed to get node text at position for uri: ".to_owned();
            context.append(&params.uri);
            return Err(RequestError::Position { context, cause });
        },
        Err(NodeError::StaleTree) => {
            return Err(RequestError::StaleTree);
        },
        Ok(None) => {
            return Ok(None);
        },
        Ok(Some(text)) => text,
    };
    match find_references(
        query,
        &snapshot.forest,
        &snapshot.open_docs,
        &snapshot.forest_content,
        &node_text,
    ) {
        Ok(locations) => Ok(Some(locations)),
        Err(_) => Err(RequestError::StaleTree),
    }
}

/// Renames `account`, and every account below it, to `new_name` in all files of a project.
pub fn rename_everywhere(
    snapshot: &Snapshot,
    query: &AccountQuery,
    account: &str,
    new_name: &str,
) -> (result: Result<WorkspaceEdit, StaleTree>)
    ensures
        result is Ok <==> trees_fit(*snapshot),
        result matches Ok(edit) ==> edit.deep_view() == Some(
            renaming(hits_of(*snapshot, account@, true), account@, new_name@),
        ),
{
    match find_account_matches(
        query,
        &snapshot.forest,
        &snapshot.open_docs,
        &snapshot.forest_content,
        account,
        true,
    ) {
        Err(stale) => Err(stale),
        Ok(hits) => {
            proof {
                law_only_selected_names(
                    snapshot.forest.entries(),
                    snapshot.open_docs.entries(),
                    snapshot.forest_content.entries(),
                    account@,
                    true,
                );
                assert forall|i: int| 0 <= i < hits.deep_view().len() implies account@.is_prefix_of(
                    (#[trigger] hits.deep_view()[i]).1,
                ) by {
                    lemma_selected_starts_with(account@, true, hits.deep_view()[i].1);
                }
            }
            Ok(WorkspaceEdit { changes: Some(rename_at(&hits, account, new_name)) })
        },
    }
}

/// What a request to rename answers.
pub open spec fn rename_answer(
    snapshot: Snapshot,
    uri: Seq<char>,
    position: Position,
    new_name: Seq<char>,
) -> Result<Option<Option<Map<Seq<char>, Seq<TextEditView>>>>, RequestErrorView> {
    match snapshot.opened_at(uri) {
        None => Ok(None),
        Some((tree, document)) => {
            let text = rope_text(document.content);
            match account_node_at(tree, text, position) {
                Err(cause) => Err(
                    RequestErrorView::Position { context: account_context(uri), cause },
                ),
                Ok(None) => Ok(None),
                Ok(Some(node)) => if node_fits(text, node) && trees_fit(snapshot) {
                    let account = node_text_of(text, node);
                    Ok(Some(Some(renaming(hits_of(snapshot, account, true), account, new_name))))
                } else {
                    Err(RequestErrorView::StaleTree)
                },
            }
        },
    }
}

/// Answers `textDocument/rename`: the edits that rename the account at a position and, because
/// the names of accounts are hierarchical, every account below it. Where there is no account
/// there is no answer, so that a client that skips `prepareRename` renames nothing else.
pub fn rename(snapshot: &Snapshot, query: &AccountQuery, params: &RenameParams) -> (result: Result<
    Option<WorkspaceEdit>,
    RequestError,
>)
    ensures
        answer(result) == rename_answer(
            *snapshot,
            params.text_document_position_params.uri@,
            params.text_document_position_params.position,
            params.new_name@,
        ),
{
    let at = &params.text_document_position_params;
    let (tree, document) = match snapshot.tree_and_document_for_uri(&at.uri) {
        Some(found) => found,
        None => {
            return Ok(None);
        },
    };
    let node: SyntaxNode = match account_node_at_position(tree, &document.content, at.position) {
        Err(cause) => {
            let mut context: String = "failed to get account node at position for uri: ".to_owned();
            context.append(&at.uri);
            return Err(RequestError::Position { context, cause });
        },
        Ok(None) => {
            return Ok(None);
        },
        Ok(Some(node)) => node,
    };
    let account: String = match text_for_tree_sitter_node(&document.content, &node) {
        Some(text) => text,
        None => {
            return Err(RequestError::StaleTree);
        },
    };
    match rename_everywhere(snapshot, query, &account, &params.new_name) {
        Ok(edit) => Ok(Some(edit)),
        Err(_) => Err(RequestError::StaleTree),
    }
}

/// Requests work on open documents only: where a URI names none, none of them answers.
pub proof fn law_only_open_documents(
    snapshot: Snapshot,
    uri: Seq<char>,
    position: Position,
    new_name: Seq<char>,
)
    requires
        snapshot.opened_at(uri) is None,
    ensures
        prepared_rename(snapshot, uri, position) == Ok::<Option<PlaceholderView>, RequestErrorView>(
            None,
        ),
        found_references(snapshot, uri, position) == Ok::<
            Option<Seq<LocationView>>,
            RequestErrorView,
        >(None),
        rename_answer(snapshot, uri, position, new_name) == Ok::<
            Option<Option<Map<Seq<char>, Seq<TextEditView>>>>,
            RequestErrorView,
        >(None),
{
}

/// The node that a rename starts from is an account.
pub proof fn law_only_accounts_are_renamed(tree: Tree, text: Seq<char>, position: Position)
    ensures
        account_node_at(tree, text, position) matches Ok(Some(node)) ==> account_kind(node.kind),
{
}

/// What is offered for the rename of an account that stands on one line is all of its name, with
/// the range that the name covers.
pub proof fn law_offer_covers_the_name(
    text: Seq<char>,
    node: NodeView,
    row: int,
    from: int,
    to: int,
)
    requires
        node_on_line(text, node, row, from, to),
    ensures
        node_fits(text, node),
        placeholder_of(text, node).placeholder == lines_of(text)[row].subrange(from, to),
        placeholder_of(text, node).range == (Range {
            start: Position {
                line: row as u32,
                character: utf16_len(lines_of(text)[row].take(from)) as u32,
            },
            end: Position {
                line: row as u32,
                character: utf16_len(lines_of(text)[row].take(to)) as u32,
            },
        }),
{
    law_range_covers_text(text, node, row, from, to);
}

/// A rename does what its preparation offered. One answers nothing where the other does, and fails
/// where the other does, unless a tree elsewhere does not belong to its file; and an offered name
/// is the name that the rename replaces, with all accounts below it.
pub proof fn law_rename_does_what_was_prepared(
    snapshot: Snapshot,
    uri: Seq<char>,
    position: Position,
    new_name: Seq<char>,
)
    ensures
        match prepared_rename(snapshot, uri, position) {
            Ok(None) => rename_answer(snapshot, uri, position, new_name) == Ok::<
                Option<Option<Map<Seq<char>, Seq<TextEditView>>>>,
                RequestErrorView,
            >(None),
            Ok(Some(offer)) => rename_answer(snapshot, uri, position, new_name) == if trees_fit(
                snapshot,
            ) {
                Ok(
                    Some(
                        Some(
                            renaming(
                                hits_of(snapshot, offer.placeholder, true),
                                offer.placeholder,
                                new_name,
                            ),
                        ),
                    ),
                )
            } else {
                Err(RequestErrorView::StaleTree)
            },
            Err(error) => rename_answer(snapshot, uri, position, new_name) == Err::<
                Option<Option<Map<Seq<char>, Seq<TextEditView>>>>,
                RequestErrorView,
            >(error),
        },
        prepared_rename(snapshot, uri, position) matches Ok(None) <==> (rename_answer(
            snapshot,
            uri,
            position,
            new_name,
        ) matches Ok(None)),
        trees_fit(snapshot) ==> (prepared_rename(snapshot, uri, position) is Err <==> rename_answer(
            snapshot,
            uri,
            position,
            new_name,
        ) is Err),
{
}

/// A rename leaves alone an account whose name merely begins with the letters of the renamed
/// one.
pub proof fn law_rename_spares_prefix_siblings(snapshot: Snapshot, account: Seq<char>, i: int)
    requires
        0 <= i < hits_of(snapshot, account, true).len(),
    ensures
        ({
            let name = hits_of(snapshot, account, true)[i].1;
            name.len() > account.len() ==> name[account.len() as int] == ':'
        }),
{
    law_only_selected_names(
        snapshot.forest.entries(),
        snapshot.open_docs.entries(),
        snapshot.forest_content.entries(),
        account,
        true,
    );
    let name = hits_of(snapshot, account, true)[i].1;
    lemma_selected_starts_with(account, true, name);
    if name.len() > account.len() && name[account.len() as int] != ':' {
        law_prefix_sibling_not_selected(account, true, name);
    }
}

/// An answer is seen by all that it holds: what was found, or the failure with what it reports.
pub proof fn law_answers_are_seen_whole<T: DeepView>(
    value: Option<T>,
    error: RequestError,
    edit: WorkspaceEdit,
)
    ensures
        answer(Ok::<Option<T>, RequestError>(value)) == Ok::<Option<T::V>, RequestErrorView>(
            value.deep_view(),
        ),
        answer(Err::<Option<T>, RequestError>(error)) == Err::<Option<T::V>, RequestErrorView>(
            error.deep_view(),
        ),
        error matches RequestError::Position { context, cause } ==> error.deep_view() == (
        RequestErrorView::Position { context: context@, cause }),
        error is StaleTree ==> error.deep_view() is StaleTree,
        edit.changes matches Some(changes) ==> edit.deep_view() == Some(changes@),
        edit.changes is None ==> edit.deep_view() is None,
{
}

/// A node is taken for an account if its kind is `account`, and only then.
pub proof fn law_accounts_by_kind(node: NodeView)
    ensures
        node.kind == "account"@ ==> if_account(Some(node)) == Some(node),
        node.kind != "account"@ ==> if_account(Some(node)) is None,
        if_account(None) is None,
{
}

/// Where the document has no place for a position, each request fails, and says for which URI and
/// why.
pub proof fn law_position_without_place_fails(
    snapshot: Snapshot,
    uri: Seq<char>,
    position: Position,
    new_name: Seq<char>,
    tree: Tree,
    document: Document,
    cause: PositionError,
)
    requires
        snapshot.opened_at(uri) == Some((tree, document)),
        point_range_on(lines_of(rope_text(document.content)), position) == Err::<
            (Point, Point),
            PositionError,
        >(cause),
    ensures
        ({
            let at_account = RequestErrorView::Position {
                context: "failed to get account node at position for uri: "@ + uri,
                cause,
            };
            let at_text = RequestErrorView::Position {
                context: "failed to get node text at position for uri: "@ + uri,
                cause,
            };
            &&& prepared_rename(snapshot, uri, position) matches Err(error) && error == at_account
            &&& rename_answer(snapshot, uri, position, new_name) matches Err(error) && error
                == at_account
            &&& found_references(snapshot, uri, position) matches Err(error) && error == at_text
        }),
        node_text_at(tree, rope_text(document.content), position) matches Err(error) && error
            == NodeError::Position(cause),
        account_node_at(tree, rope_text(document.content), position) matches Err(error) && error
            == cause,
{
}

/// A rename is offered and done at an account under the cursor and nowhere else: where lookups give
/// no account over the position, neither widened to the left nor as it is, there is no answer.
pub proof fn law_no_account_no_rename(
    snapshot: Snapshot,
    uri: Seq<char>,
    position: Position,
    new_name: Seq<char>,
    tree: Tree,
    document: Document,
    start: Point,
    end: Point,
)
    requires
        snapshot.opened_at(uri) == Some((tree, document)),
        point_range_on(lines_of(rope_text(document.content)), position) == Ok::<
            (Point, Point),
            PositionError,
        >((start, end)),
        named_node_over(tree, start, end) is None || named_node_over(tree, start, end)->0.kind
            != "account"@,
        named_node_over(tree, end, end) is None || named_node_over(tree, end, end)->0.kind
            != "account"@,
    ensures
        account_node_at(tree, rope_text(document.content), position) matches Ok(None),
        prepared_rename(snapshot, uri, position) matches Ok(None),
        rename_answer(snapshot, uri, position, new_name) matches Ok(None),
{
}

/// The account under the cursor is what is offered, by its range and its name, and what is renamed
/// in the whole project. The lookup over the position widened to the left goes first; where it
/// gives no account, that over the position as it is decides. An account that does not fit the
/// document makes both requests fail, and so does, for the rename, a tree that does not fit its
/// file.
pub proof fn law_account_under_cursor(
    snapshot: Snapshot,
    uri: Seq<char>,
    position: Position,
    new_name: Seq<char>,
    tree: Tree,
    document: Document,
    start: Point,
    end: Point,
    node: NodeView,
)
    requires
        snapshot.opened_at(uri) == Some((tree, document)),
        point_range_on(lines_of(rope_text(document.content)), position) == Ok::<
            (Point, Point),
            PositionError,
        >((start, end)),
        node.kind == "account"@,
        named_node_over(tree, start, end) == Some(node) || {
            &&& named_node_over(tree, start, end) is None || named_node_over(tree, start, end)->0.kind
                != "account"@
            &&& named_node_over(tree, end, end) == Some(node)
        },
    ensures
        ({
            let text = rope_text(document.content);
            let forest = snapshot.forest.entries();
            let open_docs = snapshot.open_docs.entries();
            let forest_content = snapshot.forest_content.entries();
            let account = node_text_of(text, node);
            let prepared = prepared_rename(snapshot, uri, position);
            let answered = rename_answer(snapshot, uri, position, new_name);
            &&& account_node_at(tree, text, position) matches Ok(Some(found)) && found == node
            &&& node_fits(text, node) ==> (prepared matches Ok(Some(offer)) && offer.range
                == range_on(lines_of(text), node) && offer.placeholder == account)
            &&& !node_fits(text, node) ==> (prepared matches Err(error) && error is StaleTree)
            &&& node_fits(text, node) && forest_fits(forest, open_docs, forest_content) ==> (
            answered matches Ok(Some(Some(changes))) && changes == renaming(
                project_hits(forest, open_docs, forest_content, account, true),
                account,
                new_name,
            ))
            &&& !node_fits(text, node) || !forest_fits(forest, open_docs, forest_content) ==> (
            answered matches Err(error) && error is StaleTree)
        }),
{
}

/// References are asked for by the text of the node over the position widened to the left. Where
/// there is no node there is no answer; where it does not fit the document, or a tree does not fit
/// its file, the request fails; otherwise there is one location for each place of the project with
/// that name, open or not, in the same order.
pub proof fn law_references_of_the_node_under_cursor(
    snapshot: Snapshot,
    uri: Seq<char>,
    position: Position,
    tree: Tree,
    document: Document,
    start: Point,
    end: Point,
)
    requires
        snapshot.opened_at(uri) == Some((tree, document)),
        point_range_on(lines_of(rope_text(document.content)), position) == Ok::<
            (Point, Point),
            PositionError,
        >((start, end)),
    ensures
        ({
            let text = rope_text(document.content);
            let forest = snapshot.forest.entries();
            let open_docs = snapshot.open_docs.entries();
            let forest_content = snapshot.forest_content.entries();
            let answered = found_references(snapshot, uri, position);
            match named_node_over(tree, start, end) {
                None => answered matches Ok(None),
                Some(node) => {
                    let hits = project_hits(
                        forest,
                        open_docs,
                        forest_content,
                        node_text_of(text, node),
                        false,
                    );
                    let fits = node_fits(text, node) && forest_fits(
                        forest,
                        open_docs,
                        forest_content,
                    );
                    &&& fits ==> (answered matches Ok(Some(found)) && found.len() == hits.len() && (
                    forall|i: int| 0 <= i < hits.len() ==> #[trigger] found[i] == hits[i].0))
                    &&& !fits ==> (answered matches Err(error) && error is StaleTree)
                },
            }
        }),
        ({
            let text = rope_text(document.content);
            let at = node_text_at(tree, text, position);
            match named_node_over(tree, start, end) {
                None => at matches Ok(None),
                Some(node) => {
                    &&& node_fits(text, node) ==> (at matches Ok(Some(name)) && name
                        == node_text_of(text, node))
                    &&& !node_fits(text, node) ==> (at matches Err(error) && error
                        == NodeError::StaleTree)
                },
            }
        }),
{
}

/// A project is searched in all of its files, and over all of its contents.
pub proof fn law_whole_project_is_searched(
    snapshot: Snapshot,
    account: Seq<char>,
    subaccounts: bool,
)
    ensures
        hits_of(snapshot, account, subaccounts) == project_hits(
            snapshot.forest.entries(),
            snapshot.open_docs.entries(),
            snapshot.forest_content.entries(),
            account,
            subaccounts,
        ),
        trees_fit(snapshot) <==> forest_fits(
            snapshot.forest.entries(),
            snapshot.open_docs.entries(),
            snapshot.forest_content.entries(),
        ),
{
}

/// What is offered for the rename of an account is its range and its name.
pub proof fn law_offer_of_a_node(text: Seq<char>, node: NodeView)
    ensures
        placeholder_of(text, node).range == range_on(lines_of(text), node),
        placeholder_of(text, node).placeholder == node_text_of(text, node),
{
}

} // verus!
