//! What a cursor on an account finds, wherever in the account and at whichever of its places it
//! stands.

use crate::account::law_account_gets_new_name;
use crate::apply::{
    has_own_key, lemma_offset, lemma_offsets_of_node, lemma_only_file_of_key, on_some_line,
    only_uri_of,
};
use crate::changes::{edits_in, law_edits_of_a_document, lemma_place_has_edit, renaming};
use crate::content::rope_text;
use crate::edits::{back_to_front, law_edits_sent_back_to_front};
use crate::files::{law_each_path_has_its_value, value_at, Document, Snapshot};
use crate::lsp::{LocationView, Position, Range, TextEditView};
use crate::matches::{
    account_in, content_at, has_account, hit, law_every_selected_account_found,
    law_place_has_account, locations_of, project_hits,
};
use crate::references::{
    account_node_at, found_references, hits_of, if_account, node_text_at, placeholder_of,
    prepared_rename, rename_answer, trees_fit,
};
use crate::syntax::{account_kind, named_node_over, NodeView, Point};
use crate::text::{
    law_columns_round_trip, law_range_covers_text, lemma_byte_column_monotone,
    lemma_chars_between, lemma_lens_monotone, lemma_utf16_len_at_most_utf8_len, lines_of,
    node_fits, node_on_line, node_text_of, point_range_on, range_on, utf16_len,
};
use crate::uri::{file_uri, uri_file_path};
use ropey::Rope;
use std::sync::Arc;
use tree_sitter_beancount::tree_sitter::Tree;
use vstd::prelude::*;

verus! {

/// Whether two points lie in a node that stands on one line, the first of them before its end.
pub open spec fn points_inside(node: NodeView, start: Point, end: Point) -> bool {
    &&& start.row == node.start.row
    &&& end.row == node.start.row
    &&& node.start.column <= start.column <= end.column <= node.end.column
    &&& start.column < node.end.column
}

/// Whether a lookup in a tree gives a node over all points that lie in it.
pub open spec fn found_inside(tree: Tree, node: NodeView) -> bool {
    forall|start: Point, end: Point|
        points_inside(node, start, end) ==> #[trigger] named_node_over(tree, start, end) == Some(
            node,
        )
}

/// Whether no account reaches from before a node up to its first character.
pub open spec fn none_reaches_into(tree: Tree, node: NodeView) -> bool {
    forall|start: Point|
        start.row == node.start.row && start.column < node.start.column ==> if_account(
            #[trigger] named_node_over(tree, start, node.start),
        ) is None
}

/// Whether a cursor is in a range: from its first character to just past its end.
pub open spec fn touches(position: Position, range: Range) -> bool {
    !position.before(range.start) && !range.end.before(position)
}

proof fn lemma_points_of_cursor(text: Seq<char>, node: NodeView, position: Position)
    requires
        on_some_line(text, node),
        touches(position, range_on(lines_of(text), node)),
    ensures
        point_range_on(lines_of(text), position) matches Ok((start, end)) && {
            ||| points_inside(node, start, end)
            ||| {
                &&& position == range_on(lines_of(text), node).start
                &&& points_inside(node, end, end)
                &&& end == node.start
                &&& start.row == node.start.row
                &&& start.column < node.start.column
            }
        },
{
    let (row, from, to) = choose|row: int, from: int, to: int|
        #[trigger] node_on_line(text, node, row, from, to) && from < to;
    let lines = lines_of(text);
    let line = lines[row];
    let units = position.character as nat;
    law_range_covers_text(text, node, row, from, to);
    lemma_utf16_len_at_most_utf8_len(line, from);
    lemma_utf16_len_at_most_utf8_len(line, to);
    lemma_lens_monotone(line, from, to);
    lemma_chars_between(line, from, to, units);
    if units > utf16_len(line.take(from)) {
        lemma_chars_between(line, from, to, (units - 1) as nat);
        lemma_byte_column_monotone(line, (units - 1) as nat, units);
    } else {
        law_columns_round_trip(line, from);
        if from > 0 {
            lemma_lens_monotone(line, 0, from);
            assert(line.take(0) =~= Seq::<char>::empty());
            lemma_chars_between(line, 0, from, (units - 1) as nat);
        } else {
            assert(line.take(0) =~= Seq::<char>::empty());
        }
    }
}

proof fn lemma_fits(text: Seq<char>, node: NodeView)
    requires
        on_some_line(text, node),
    ensures
        node_fits(text, node),
{
    let (row, from, to) = choose|row: int, from: int, to: int|
        #[trigger] node_on_line(text, node, row, from, to) && from < to;
    law_range_covers_text(text, node, row, from, to);
}

/// A rename is offered alike for every cursor in an account, from its first character to just past
/// its end: all of the name, with its range. Lookups in the tree have to give the account over
/// the points in it, and no account may touch it from before.
pub proof fn law_offer_is_the_same_for_every_cursor(
    snapshot: Snapshot,
    uri: Seq<char>,
    tree: Tree,
    document: Document,
    node: NodeView,
    one: Position,
    other: Position,
)
    requires
        snapshot.opened_at(uri) == Some((tree, document)),
        account_kind(node.kind),
        on_some_line(rope_text(document.content), node),
        found_inside(tree, node),
        none_reaches_into(tree, node),
        touches(one, range_on(lines_of(rope_text(document.content)), node)),
        touches(other, range_on(lines_of(rope_text(document.content)), node)),
    ensures
        prepared_rename(snapshot, uri, one) matches Ok(Some(offer)) && offer == placeholder_of(
            rope_text(document.content),
            node,
        ),
        prepared_rename(snapshot, uri, other) == prepared_rename(snapshot, uri, one),
{
    let text = rope_text(document.content);
    lemma_points_of_cursor(text, node, one);
    lemma_points_of_cursor(text, node, other);
    lemma_fits(text, node);
}

/// A cursor behind the first character of an account, up to just past its end, is at the text of
/// the account. Lookups in the tree have to give the account over the points in it.
pub proof fn law_text_at_cursor_is_the_name(
    tree: Tree,
    text: Seq<char>,
    node: NodeView,
    position: Position,
)
    requires
        on_some_line(text, node),
        found_inside(tree, node),
        range_on(lines_of(text), node).start.before(position),
        touches(position, range_on(lines_of(text), node)),
    ensures
        node_text_at(tree, text, position) matches Ok(Some(name)) && name == node_text_of(
            text,
            node,
        ),
{
    lemma_points_of_cursor(text, node, position);
    lemma_fits(text, node);
}

/// Whether no two files have the same URI.
pub open spec fn uris_tell_files_apart(forest: Seq<(Seq<u8>, Arc<Tree>)>) -> bool {
    forall|f: int, g: int|
        0 <= f < g < forest.len() && file_uri((#[trigger] forest[f]).0) is Some ==> file_uri(
            forest[f].0,
        ) != file_uri((#[trigger] forest[g]).0)
}

/// Whether every account of a project stands on a line of its file.
pub open spec fn accounts_stand_on_lines(
    forest: Seq<(Seq<u8>, Arc<Tree>)>,
    open_docs: Seq<(Seq<u8>, Document)>,
    forest_content: Seq<(Seq<u8>, Arc<Rope>)>,
) -> bool {
    forall|f: int, m: int|
        #[trigger] has_account(forest, open_docs, forest_content, f, m) ==> on_some_line(
            content_at(open_docs, forest_content, forest[f].0)->0,
            account_in(forest, open_docs, forest_content, f, m),
        )
}

proof fn lemma_same_range_same_text(text: Seq<char>, one: NodeView, other: NodeView)
    requires
        on_some_line(text, one),
        on_some_line(text, other),
        range_on(lines_of(text), one) == range_on(lines_of(text), other),
    ensures
        node_text_of(text, one) == node_text_of(text, other),
{
    let range = range_on(lines_of(text), one);
    let (i, j) = lemma_offsets_of_node(text, one);
    let (k, l) = lemma_offsets_of_node(text, other);
    lemma_offset(text, i, range.start);
    lemma_offset(text, k, range.start);
    lemma_offset(text, j, range.end);
    lemma_offset(text, l, range.end);
}

/// References to two different names have no place in common, even where one of the names lies
/// below the other. The accounts have to stand on lines, and no two files may have the same URI.
pub proof fn law_references_to_two_names_are_apart(
    forest: Seq<(Seq<u8>, Arc<Tree>)>,
    open_docs: Seq<(Seq<u8>, Document)>,
    forest_content: Seq<(Seq<u8>, Arc<Rope>)>,
    one: Seq<char>,
    other: Seq<char>,
    location: LocationView,
)
    requires
        one != other,
        accounts_stand_on_lines(forest, open_docs, forest_content),
        uris_tell_files_apart(forest),
        locations_of(project_hits(forest, open_docs, forest_content, one, false)).contains(
            location,
        ),
    ensures
        !locations_of(project_hits(forest, open_docs, forest_content, other, false)).contains(
            location,
        ),
{
    let some = project_hits(forest, open_docs, forest_content, one, false);
    let others = project_hits(forest, open_docs, forest_content, other, false);
    if locations_of(others).contains(location) {
        let i = choose|i: int| 0 <= i < some.len() && locations_of(some)[i] == location;
        let j = choose|j: int| 0 <= j < others.len() && locations_of(others)[j] == location;
        let (f, m) = law_place_has_account(forest, open_docs, forest_content, one, false, i);
        let (g, n) = law_place_has_account(forest, open_docs, forest_content, other, false, j);
        assert(file_uri(forest[f].0) == file_uri(forest[g].0));
        assert(f == g);
        lemma_same_range_same_text(
            content_at(open_docs, forest_content, forest[f].0)->0,
            account_in(forest, open_docs, forest_content, f, m),
            account_in(forest, open_docs, forest_content, g, n),
        );
    }
}

/// Whether the accounts of the file `f` stand on lines, and lookups in its tree give each of
/// them over the points in it.
pub open spec fn accounts_are_found(snapshot: Snapshot, f: int) -> bool {
    let forest = snapshot.forest.entries();
    let open_docs = snapshot.open_docs.entries();
    let forest_content = snapshot.forest_content.entries();
    forall|m: int|
        #[trigger] has_account(forest, open_docs, forest_content, f, m) ==> {
            &&& on_some_line(
                content_at(open_docs, forest_content, forest[f].0)->0,
                account_in(forest, open_docs, forest_content, f, m),
            )
            &&& found_inside(*forest[f].1, account_in(forest, open_docs, forest_content, f, m))
        }
}

/// Whether `uri` names the file `f`, and it alone, and the document of the file is open.
pub open spec fn names_open_file(snapshot: Snapshot, uri: Seq<char>, f: int) -> bool {
    let forest = snapshot.forest.entries();
    &&& 0 <= f < forest.len()
    &&& only_uri_of(forest, f, uri)
    &&& uri_file_path(uri) == Some(forest[f].0)
    &&& value_at(snapshot.open_docs.entries(), forest[f].0) is Some
}

proof fn lemma_opened_file(snapshot: Snapshot, uri: Seq<char>, f: int)
    requires
        snapshot.wf(),
        names_open_file(snapshot, uri, f),
    ensures
        ({
            let forest = snapshot.forest.entries();
            let open_docs = snapshot.open_docs.entries();
            let forest_content = snapshot.forest_content.entries();
            &&& snapshot.opened_at(uri) matches Some((tree, document)) && tree == *forest[f].1
                && content_at(open_docs, forest_content, forest[f].0) == Some(
                rope_text(document.content),
            )
            &&& file_uri(forest[f].0) == Some(uri)
        }),
{
    law_each_path_has_its_value(snapshot.forest.entries(), f);
    assert(file_uri(snapshot.forest.entries()[f].0) == Some(uri));
}

/// Every occurrence of an account in an open file finds the same references: those that led to
/// it. The cursor is behind the first character of the occurrence, up to just past its end.
pub proof fn law_every_occurrence_finds_the_same(
    snapshot: Snapshot,
    uri: Seq<char>,
    position: Position,
    found: Seq<LocationView>,
    i: int,
    f: int,
    cursor: Position,
)
    requires
        snapshot.wf(),
        found_references(snapshot, uri, position) matches Ok(Some(locations)) && locations == found,
        0 <= i < found.len(),
        names_open_file(snapshot, found[i].uri, f),
        accounts_are_found(snapshot, f),
        found[i].range.start.before(cursor),
        touches(cursor, found[i].range),
    ensures
        found_references(snapshot, found[i].uri, cursor) == found_references(
            snapshot,
            uri,
            position,
        ),
{
    let forest = snapshot.forest.entries();
    let open_docs = snapshot.open_docs.entries();
    let forest_content = snapshot.forest_content.entries();
    let (tree, document) = snapshot.opened_at(uri)->0;
    let name = node_text_at(tree, rope_text(document.content), position)->Ok_0->0;
    assert(found == locations_of(hits_of(snapshot, name, false)));
    let (g, m) = law_place_has_account(forest, open_docs, forest_content, name, false, i);
    assert(file_uri(forest[g].0) == Some(found[i].uri));
    assert(g == f);
    lemma_opened_file(snapshot, found[i].uri, f);
    let (own_tree, _) = snapshot.opened_at(found[i].uri)->0;
    law_text_at_cursor_is_the_name(
        own_tree,
        content_at(open_docs, forest_content, forest[f].0)->0,
        account_in(forest, open_docs, forest_content, f, m),
        cursor,
    );
}

/// The place of the account `m` of the file `f`.
pub open spec fn place_in(snapshot: Snapshot, f: int, m: int) -> LocationView {
    let forest = snapshot.forest.entries();
    let open_docs = snapshot.open_docs.entries();
    let forest_content = snapshot.forest_content.entries();
    hit(
        content_at(open_docs, forest_content, forest[f].0)->0,
        file_uri(forest[f].0)->0,
        account_in(forest, open_docs, forest_content, f, m),
    ).0
}

/// An account is among its own references: a cursor behind the first character of the account `m`
/// of an open file, up to just past its end, finds the place of that account.
pub proof fn law_account_is_among_its_references(
    snapshot: Snapshot,
    uri: Seq<char>,
    position: Position,
    f: int,
    m: int,
)
    requires
        snapshot.wf(),
        trees_fit(snapshot),
        names_open_file(snapshot, uri, f),
        accounts_are_found(snapshot, f),
        has_account(
            snapshot.forest.entries(),
            snapshot.open_docs.entries(),
            snapshot.forest_content.entries(),
            f,
            m,
        ),
        place_in(snapshot, f, m).range.start.before(position),
        touches(position, place_in(snapshot, f, m).range),
    ensures
        found_references(snapshot, uri, position) matches Ok(Some(found)) && found.contains(
            place_in(snapshot, f, m),
        ),
        place_in(snapshot, f, m).uri == uri,
{
    let forest = snapshot.forest.entries();
    let open_docs = snapshot.open_docs.entries();
    let forest_content = snapshot.forest_content.entries();
    let text = content_at(open_docs, forest_content, forest[f].0)->0;
    let node = account_in(forest, open_docs, forest_content, f, m);
    let name = node_text_of(text, node);
    lemma_opened_file(snapshot, uri, f);
    let (tree, _) = snapshot.opened_at(uri)->0;
    law_text_at_cursor_is_the_name(tree, text, node, position);
    law_every_selected_account_found(forest, open_docs, forest_content, name, false, f, m);
    let hits = hits_of(snapshot, name, false);
    let k = choose|k: int| 0 <= k < hits.len() && hits[k] == hit(text, uri, node);
    assert(locations_of(hits)[k] == place_in(snapshot, f, m));
}

/// What a client was offered is what a rename replaces: where the account at the cursor is among
/// those of its file, the edits of the document hold one of the offered range, which puts in the
/// new name.
pub proof fn law_offer_is_what_gets_replaced(
    snapshot: Snapshot,
    uri: Seq<char>,
    position: Position,
    new_name: Seq<char>,
    f: int,
    m: int,
    key: Seq<char>,
)
    requires
        snapshot.wf(),
        trees_fit(snapshot),
        names_open_file(snapshot, uri, f),
        has_own_key(snapshot.forest.entries(), f, uri, key),
        has_account(
            snapshot.forest.entries(),
            snapshot.open_docs.entries(),
            snapshot.forest_content.entries(),
            f,
            m,
        ),
        account_node_at(
            *snapshot.forest.entries()[f].1,
            content_at(
                snapshot.open_docs.entries(),
                snapshot.forest_content.entries(),
                snapshot.forest.entries()[f].0,
            )->0,
            position,
        ) matches Ok(Some(node)) && node == account_in(
            snapshot.forest.entries(),
            snapshot.open_docs.entries(),
            snapshot.forest_content.entries(),
            f,
            m,
        ),
    ensures
        prepared_rename(snapshot, uri, position) matches Ok(Some(offer)) && (rename_answer(
            snapshot,
            uri,
            position,
            new_name,
        ) matches Ok(Some(Some(changes))) && changes.dom().contains(key) && changes[key].contains(
            TextEditView { range: offer.range, new_text: new_name },
        )),
{
    let forest = snapshot.forest.entries();
    let open_docs = snapshot.open_docs.entries();
    let forest_content = snapshot.forest_content.entries();
    let text = content_at(open_docs, forest_content, forest[f].0)->0;
    let node = account_in(forest, open_docs, forest_content, f, m);
    let account = node_text_of(text, node);
    let hits = hits_of(snapshot, account, true);
    let edit = TextEditView { range: range_on(lines_of(text), node), new_text: new_name };
    lemma_opened_file(snapshot, uri, f);
    law_every_selected_account_found(forest, open_docs, forest_content, account, true, f, m);
    let k = choose|k: int| 0 <= k < hits.len() && hits[k] == hit(text, uri, node);
    law_account_gets_new_name(account, new_name);
    lemma_place_has_edit(hits, uri, account, new_name, k);
    lemma_only_file_of_key(forest, open_docs, forest_content, account, f, uri, key);
    law_edits_of_a_document(hits, account, new_name, uri, key);
    let edits = edits_in(hits, uri, account, new_name);
    law_edits_sent_back_to_front(edits);
    edits.to_multiset_ensures();
    back_to_front(edits).to_multiset_ensures();
    assert(edits.to_multiset().contains(edit));
    assert(renaming(hits, account, new_name)[key].contains(edit));
}

} // verus!
