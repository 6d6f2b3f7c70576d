//! What the requests come to, account by account: which places are found and which edits are made,
//! said of the trees and contents of the files.

use crate::account::{law_every_depth_is_selected, law_rest_of_name_stays, law_selected_names};
use crate::apply::{has_own_key, lemma_only_file_of_key};
use crate::changes::{
    edit_at, edits_in, law_edits_are_those_of_places, law_edits_of_a_document,
    lemma_place_has_edit, renaming, uris_of,
};
use crate::content::rope_text;
use crate::edits::{back_to_front, law_each_edit_is_sent_once, law_edits_sent_back_to_front};
use crate::files::{Document, Snapshot};
use crate::lsp::{LocationView, Position, TextEditView};
use crate::matches::{
    account_in, content_at, hit, law_every_selected_account_found,
    law_place_has_account, project_hits,
};
use crate::references::{found_references, law_references_of_the_node_under_cursor};
use crate::syntax::{account_captures, named_node_over, NodeView, Point};
use crate::text::{lines_of, node_text_of, point_range_on, range_on, PositionError};
use crate::uri::{file_uri, parsed_uri};
use tree_sitter_beancount::tree_sitter::Tree;
use vstd::prelude::*;

verus! {

/// No occurrence is missed: of every file with content and a URI, whether it is open or not, each
/// account of its tree that has the text of the node under the cursor is among the references.
pub proof fn law_references_miss_no_account(
    snapshot: Snapshot,
    uri: Seq<char>,
    position: Position,
    tree: Tree,
    document: Document,
    start: Point,
    end: Point,
    node: NodeView,
    f: int,
    text: Seq<char>,
    file: Seq<char>,
    m: int,
)
    requires
        snapshot.opened_at(uri) == Some((tree, document)),
        point_range_on(lines_of(rope_text(document.content)), position) == Ok::<
            (Point, Point),
            PositionError,
        >((start, end)),
        named_node_over(tree, start, end) == Some(node),
        found_references(snapshot, uri, position) matches Ok(Some(_)),
        0 <= f < snapshot.forest.entries().len(),
        content_at(
            snapshot.open_docs.entries(),
            snapshot.forest_content.entries(),
            snapshot.forest.entries()[f].0,
        ) == Some(text),
        file_uri(snapshot.forest.entries()[f].0) == Some(file),
        0 <= m < account_captures(*snapshot.forest.entries()[f].1, text).len(),
        account_captures(*snapshot.forest.entries()[f].1, text)[m].len() > 0,
        node_text_of(text, account_captures(*snapshot.forest.entries()[f].1, text)[m][0])
            == node_text_of(rope_text(document.content), node),
    ensures
        found_references(snapshot, uri, position) matches Ok(Some(found)) && found.contains(
            LocationView {
                uri: file,
                range: range_on(
                    lines_of(text),
                    account_captures(*snapshot.forest.entries()[f].1, text)[m][0],
                ),
            },
        ),
{
    let forest = snapshot.forest.entries();
    let open_docs = snapshot.open_docs.entries();
    let forest_content = snapshot.forest_content.entries();
    let name = node_text_of(rope_text(document.content), node);
    let account = account_in(forest, open_docs, forest_content, f, m);
    let hits = project_hits(forest, open_docs, forest_content, name, false);
    let found = found_references(snapshot, uri, position)->Ok_0->0;
    law_references_of_the_node_under_cursor(
        snapshot,
        uri,
        position,
        tree,
        document,
        start,
        end,
    );
    law_selected_names(name, false, name);
    law_every_selected_account_found(forest, open_docs, forest_content, name, false, f, m);
    let k = choose|k: int| 0 <= k < hits.len() && hits[k] == hit(text, file, account);
    assert(found[k] == hits[k].0);
}

/// Nothing but occurrences is found: every reference is the place of an account, in the tree of a
/// file over its own content, that has the text of the node under the cursor.
pub proof fn law_references_are_accounts(
    snapshot: Snapshot,
    uri: Seq<char>,
    position: Position,
    tree: Tree,
    document: Document,
    start: Point,
    end: Point,
    node: NodeView,
    i: int,
) -> (at: (int, int))
    requires
        snapshot.opened_at(uri) == Some((tree, document)),
        point_range_on(lines_of(rope_text(document.content)), position) == Ok::<
            (Point, Point),
            PositionError,
        >((start, end)),
        named_node_over(tree, start, end) == Some(node),
        found_references(snapshot, uri, position) matches Ok(Some(found)) && 0 <= i < found.len(),
    ensures
        ({
            let forest = snapshot.forest.entries();
            let place = found_references(snapshot, uri, position)->Ok_0->0[i];
            let content = content_at(
                snapshot.open_docs.entries(),
                snapshot.forest_content.entries(),
                forest[at.0].0,
            );
            &&& 0 <= at.0 < forest.len()
            &&& content is Some
            &&& file_uri(forest[at.0].0) == Some(place.uri)
            &&& 0 <= at.1 < account_captures(*forest[at.0].1, content->0).len()
            &&& account_captures(*forest[at.0].1, content->0)[at.1].len() > 0
            &&& place.range == range_on(
                lines_of(content->0),
                account_captures(*forest[at.0].1, content->0)[at.1][0],
            )
            &&& node_text_of(content->0, account_captures(*forest[at.0].1, content->0)[at.1][0])
                == node_text_of(rope_text(document.content), node)
        }),
{
    let name = node_text_of(rope_text(document.content), node);
    law_references_of_the_node_under_cursor(
        snapshot,
        uri,
        position,
        tree,
        document,
        start,
        end,
    );
    let hits = project_hits(
        snapshot.forest.entries(),
        snapshot.open_docs.entries(),
        snapshot.forest_content.entries(),
        name,
        false,
    );
    let at = law_place_has_account(
        snapshot.forest.entries(),
        snapshot.open_docs.entries(),
        snapshot.forest_content.entries(),
        name,
        false,
        i,
    );
    law_selected_names(name, false, hits[i].1);
    at
}

/// A rename reaches every account below the renamed one, at any depth, in every file: where the
/// URI of a file has a normal form that no other file's URI has, and an account of its tree is
/// named as the account under the cursor, or goes on after that with a `:`, the edits of the file
/// hold one that puts the new name in place of the old and keeps what follows.
pub proof fn law_rename_misses_no_account(
    snapshot: Snapshot,
    account: Seq<char>,
    rest: Seq<char>,
    new_name: Seq<char>,
    f: int,
    text: Seq<char>,
    file: Seq<char>,
    key: Seq<char>,
    m: int,
)
    requires
        0 <= f < snapshot.forest.entries().len(),
        content_at(
            snapshot.open_docs.entries(),
            snapshot.forest_content.entries(),
            snapshot.forest.entries()[f].0,
        ) == Some(text),
        file_uri(snapshot.forest.entries()[f].0) == Some(file),
        parsed_uri(file) == Some(key),
        forall|g: int|
            0 <= g < snapshot.forest.entries().len() && g != f && file_uri(
                (#[trigger] snapshot.forest.entries()[g]).0,
            ) is Some ==> parsed_uri(file_uri(snapshot.forest.entries()[g].0)->0) != Some(key),
        0 <= m < account_captures(*snapshot.forest.entries()[f].1, text).len(),
        account_captures(*snapshot.forest.entries()[f].1, text)[m].len() > 0,
        node_text_of(text, account_captures(*snapshot.forest.entries()[f].1, text)[m][0])
            == account + rest,
        rest.len() == 0 || rest[0] == ':',
    ensures
        ({
            let changes = renaming(
                project_hits(
                    snapshot.forest.entries(),
                    snapshot.open_docs.entries(),
                    snapshot.forest_content.entries(),
                    account,
                    true,
                ),
                account,
                new_name,
            );
            &&& changes.dom().contains(key)
            &&& changes[key].contains(
                TextEditView {
                    range: range_on(
                        lines_of(text),
                        account_captures(*snapshot.forest.entries()[f].1, text)[m][0],
                    ),
                    new_text: new_name + rest,
                },
            )
        }),
{
    let forest = snapshot.forest.entries();
    let open_docs = snapshot.open_docs.entries();
    let forest_content = snapshot.forest_content.entries();
    let node = account_in(forest, open_docs, forest_content, f, m);
    let name = account + rest;
    let hits = project_hits(forest, open_docs, forest_content, account, true);
    let edit = TextEditView { range: range_on(lines_of(text), node), new_text: new_name + rest };
    law_selected_names(account, true, name);
    if rest.len() == 0 {
        assert(name =~= account);
    } else {
        law_every_depth_is_selected(account, rest.drop_first());
        assert(name =~= account + seq![':'] + rest.drop_first());
    }
    law_every_selected_account_found(forest, open_docs, forest_content, account, true, f, m);
    let k = choose|k: int| 0 <= k < hits.len() && hits[k] == hit(text, file, node);
    law_rest_of_name_stays(account, rest, new_name);
    lemma_place_has_edit(hits, file, account, new_name, k);
    assert(has_own_key(forest, f, file, key));
    lemma_only_file_of_key(forest, open_docs, forest_content, account, f, file, key);
    law_edits_of_a_document(hits, account, new_name, file, key);
    let edits = edits_in(hits, file, account, new_name);
    law_edits_sent_back_to_front(edits);
    edits.to_multiset_ensures();
    back_to_front(edits).to_multiset_ensures();
    assert(edits.to_multiset().contains(edit));
}

proof fn lemma_edit_has_place(
    hits: Seq<(LocationView, Seq<char>)>,
    uri: Seq<char>,
    account: Seq<char>,
    new_name: Seq<char>,
    e: int,
) -> (i: int)
    requires
        0 <= e < edits_in(hits, uri, account, new_name).len(),
    ensures
        0 <= i < hits.len(),
        hits[i].0.uri == uri,
        edits_in(hits, uri, account, new_name)[e] == edit_at(
            hits[i],
            account,
            new_name,
        ),
    decreases hits.len(),
{
    let before = edits_in(hits.drop_last(), uri, account, new_name);
    if e < before.len() {
        lemma_edit_has_place(hits.drop_last(), uri, account, new_name, e)
    } else {
        hits.len() - 1
    }
}

/// A rename edits nothing but accounts: under the key of a file, each edit is of the place of an
/// account of its tree that is named as the renamed one or goes on after it with a `:`, and puts
/// the new name in place of the old and keeps what follows.
pub proof fn law_rename_edits_accounts_only(
    snapshot: Snapshot,
    account: Seq<char>,
    new_name: Seq<char>,
    key: Seq<char>,
    e: int,
) -> (at: (int, int, Seq<char>))
    requires
        ({
            let changes = renaming(
                project_hits(
                    snapshot.forest.entries(),
                    snapshot.open_docs.entries(),
                    snapshot.forest_content.entries(),
                    account,
                    true,
                ),
                account,
                new_name,
            );
            changes.dom().contains(key) && 0 <= e < changes[key].len()
        }),
    ensures
        ({
            let (f, m, rest) = at;
            let forest = snapshot.forest.entries();
            let edit = renaming(
                project_hits(
                    forest,
                    snapshot.open_docs.entries(),
                    snapshot.forest_content.entries(),
                    account,
                    true,
                ),
                account,
                new_name,
            )[key][e];
            let content = content_at(
                snapshot.open_docs.entries(),
                snapshot.forest_content.entries(),
                forest[f].0,
            );
            let matches = account_captures(*forest[f].1, content->0);
            &&& 0 <= f < forest.len()
            &&& content is Some
            &&& file_uri(forest[f].0) is Some
            &&& parsed_uri(file_uri(forest[f].0)->0) == Some(key)
            &&& 0 <= m < matches.len()
            &&& matches[m].len() > 0
            &&& edit.range == range_on(lines_of(content->0), matches[m][0])
            &&& node_text_of(content->0, matches[m][0]) == account + rest
            &&& rest.len() == 0 || rest[0] == ':'
            &&& edit.new_text == new_name + rest
        }),
{
    let forest = snapshot.forest.entries();
    let open_docs = snapshot.open_docs.entries();
    let forest_content = snapshot.forest_content.entries();
    let hits = project_hits(forest, open_docs, forest_content, account, true);
    let changes = renaming(hits, account, new_name);
    law_edits_are_those_of_places(hits, account, new_name, key);
    let uri = choose|uri: Seq<char>|
        uris_of(hits).contains(uri) && parsed_uri(uri) == Some(key) && changes[key]
            == back_to_front(#[trigger] edits_in(hits, uri, account, new_name));
    let edits = edits_in(hits, uri, account, new_name);
    let order = law_each_edit_is_sent_once(edits);
    assert(0 <= order[e] < edits.len());
    let i = lemma_edit_has_place(hits, uri, account, new_name, order[e]);
    let (f, m) = law_place_has_account(forest, open_docs, forest_content, account, true, i);
    let name = hits[i].1;
    let rest = name.skip(account.len() as int);
    law_selected_names(account, true, name);
    assert(name =~= account + rest);
    law_rest_of_name_stays(account, rest, new_name);
    (f, m, rest)
}

} // verus!
