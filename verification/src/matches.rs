//! The places of a project at which an account is named.

use crate::account::{
    below, law_every_depth_is_selected, law_selected_names, selects, starts_with,
};
use crate::content::{rope_text, rope_to_string};
use crate::files::{
    law_each_path_has_its_value, paths_distinct, value_at, Document, FileMap,
};
use crate::lsp::{Location, LocationView};
use crate::syntax::{account_captures, AccountQuery, NodeView, SyntaxNode};
use crate::text::{
    lines_of, node_fits, node_range, node_text, node_text_of, range_on, split_lines,
};
use crate::uri::{file_uri, path_bytes, uri_from_file_path};
use ropey::Rope;
use std::path::PathBuf;
use std::sync::Arc;
use tree_sitter_beancount::tree_sitter::Tree;
use vstd::prelude::*;
use vstd::string::*;

verus! {

/// A tree and a content do not belong together: a node of the tree is not a text of the
/// content.
#[derive(Debug, Clone, Copy, PartialEq, Eq, Structural)]
pub struct StaleTree;

/// The content of a file: that of its open document or else the stored one.
pub open spec fn content_at(
    open_docs: Seq<(Seq<u8>, Document)>,
    forest_content: Seq<(Seq<u8>, Arc<Rope>)>,
    path: Seq<u8>,
) -> Option<Seq<char>> {
    match value_at(open_docs, path) {
        Some(document) => Some(rope_text(document.content)),
        None => match value_at(forest_content, path) {
            Some(stored) => Some(rope_text(*stored)),
            None => None,
        },
    }
}

/// Whether the first node of each match fits `text`.
pub open spec fn captures_fit(captures: Seq<Seq<NodeView>>, text: Seq<char>) -> bool {
    forall|i: int|
        0 <= i < captures.len() && (#[trigger] captures[i]).len() > 0 ==> node_fits(
            text,
            captures[i][0],
        )
}

/// The place and the name of an account node in the document that `uri` names.
pub open spec fn hit(text: Seq<char>, uri: Seq<char>, node: NodeView) -> (LocationView, Seq<char>) {
    (
        LocationView { uri, range: range_on(lines_of(text), node) },
        node_text_of(text, node),
    )
}

/// The places in one file: the first node of each match, if its name is selected. A file
/// without URI has none.
pub open spec fn hits_in(
    captures: Seq<Seq<NodeView>>,
    text: Seq<char>,
    uri: Option<Seq<char>>,
    account: Seq<char>,
    subaccounts: bool,
) -> Seq<(LocationView, Seq<char>)>
    decreases captures.len(),
{
    if captures.len() == 0 {
        seq![]
    } else {
        let before = hits_in(captures.drop_last(), text, uri, account, subaccounts);
        let nodes = captures.last();
        if uri is Some && nodes.len() > 0 && selects(
            account,
            subaccounts,
            node_text_of(text, nodes[0]),
        ) {
            before.push(hit(text, uri->0, nodes[0]))
        } else {
            before
        }
    }
}

/// The accounts that the tree of a file holds over a text.
pub open spec fn file_captures(tree: Arc<Tree>, text: Seq<char>) -> Seq<Seq<NodeView>> {
    account_captures(*tree, text)
}

/// The places in the file at `path`; without content it has none.
pub open spec fn file_hits(
    path: Seq<u8>,
    tree: Arc<Tree>,
    content: Option<Seq<char>>,
    account: Seq<char>,
    subaccounts: bool,
) -> Seq<(LocationView, Seq<char>)> {
    match content {
        Some(text) => hits_in(
            file_captures(tree, text),
            text,
            file_uri(path),
            account,
            subaccounts,
        ),
        None => seq![],
    }
}

/// The places in the files of `forest`, file by file.
pub open spec fn project_hits(
    forest: Seq<(Seq<u8>, Arc<Tree>)>,
    open_docs: Seq<(Seq<u8>, Document)>,
    forest_content: Seq<(Seq<u8>, Arc<Rope>)>,
    account: Seq<char>,
    subaccounts: bool,
) -> Seq<(LocationView, Seq<char>)>
    decreases forest.len(),
{
    if forest.len() == 0 {
        seq![]
    } else {
        let (path, tree) = forest.last();
        project_hits(forest.drop_last(), open_docs, forest_content, account, subaccounts)
            + file_hits(
            path,
            tree,
            content_at(open_docs, forest_content, path),
            account,
            subaccounts,
        )
    }
}

/// Whether the tree of each file of `forest` that has content belongs to it.
pub open spec fn forest_fits(
    forest: Seq<(Seq<u8>, Arc<Tree>)>,
    open_docs: Seq<(Seq<u8>, Document)>,
    forest_content: Seq<(Seq<u8>, Arc<Rope>)>,
) -> bool {
    forall|i: int|
        0 <= i < forest.len() ==> file_fits(
            (#[trigger] forest[i]).1,
            content_at(open_docs, forest_content, forest[i].0),
        )
}

/// Whether a tree belongs to the content of its file, if there is one.
pub open spec fn file_fits(tree: Arc<Tree>, content: Option<Seq<char>>) -> bool {
    content matches Some(text) ==> captures_fit(file_captures(tree, text), text)
}

/// The places in one file at which `account` is named.
pub fn matches_in_file(
    captures: &Vec<Vec<SyntaxNode>>,
    text: &str,
    uri: &Option<String>,
    account: &str,
    include_subaccounts: bool,
) -> (result: Result<Vec<(Location, String)>, StaleTree>)
    ensures
        result is Ok <==> captures_fit(captures.deep_view(), text@),
        result matches Ok(hits) ==> hits.deep_view() == hits_in(
            captures.deep_view(),
            text@,
            uri.deep_view(),
            account@,
            include_subaccounts,
        ),
{
    let account: String = account.to_owned();
    let mut child_prefix: String = account.clone();
    child_prefix.append(":");
    proof {
        reveal_strlit(":");
        assert(child_prefix@ =~= account@.push(':'));
    }
    let lines: Vec<Vec<char>> = split_lines(text);
    let mut hits: Vec<(Location, String)> = Vec::new();
    let ghost all = captures.deep_view();
    let mut i: usize = 0;
    assert(hits.deep_view() =~= hits_in(
        all.take(0),
        text@,
        uri.deep_view(),
        account@,
        include_subaccounts,
    ));
    while i < captures.len()
        invariant
            all == captures.deep_view(),
            i <= captures.len(),
            child_prefix@ == account@.push(':'),
            lines.deep_view() == lines_of(text@),
            captures_fit(all.take(i as int), text@),
            hits.deep_view() == hits_in(
                all.take(i as int),
                text@,
                uri.deep_view(),
                account@,
                include_subaccounts,
            ),
        decreases captures.len() - i,
    {
        assert(all.take(i + 1).drop_last() =~= all.take(i as int));
        assert(all.take(i + 1).last() == captures[i as int].deep_view());
        if captures[i].len() > 0 {
            let node: &SyntaxNode = &captures[i][0];
            assert(all[i as int][0] == node.deep_view());
            match node_text(text, node) {
                None => {
                    return Err(StaleTree);
                },
                Some(name) => {
                    if name == account || (include_subaccounts && starts_with(
                        &name,
                        &child_prefix,
                    )) {
                        if let Some(uri) = uri {
                            let ghost before = hits.deep_view();
                            hits.push(
                                (Location { uri: uri.clone(), range: node_range(&lines, node) }, name),
                            );
                            assert(hits.deep_view() =~= before.push(
                                hit(text@, uri@, node.deep_view()),
                            ));
                        }
                    }
                },
            }
        }
        assert forall|k: int|
            0 <= k < i + 1 && (#[trigger] all.take(i + 1)[k]).len() > 0 implies node_fits(
            text@,
            all.take(i + 1)[k][0],
        ) by {
            if k < i {
                assert(all.take(i as int)[k] == all[k]);
            }
        }
        i = i + 1;
    }
    assert(all.take(all.len() as int) =~= all);
    Ok(hits)
}

/// The content of the file at `path`: that of its open document or else the stored one.
pub fn file_content(
    open_docs: &FileMap<Document>,
    forest_content: &FileMap<Arc<Rope>>,
    path: &PathBuf,
) -> (content: Option<String>)
    ensures
        content.deep_view() == content_at(
            open_docs.entries(),
            forest_content.entries(),
            path_bytes(*path),
        ),
{
    if let Some(document) = open_docs.get(path) {
        Some(rope_to_string(&document.content))
    } else if let Some(stored) = forest_content.get(path) {
        Some(rope_to_string(&**stored))
    } else {
        None
    }
}

/// Finds every account of the project whose name is `node_text` or, with
/// `include_subaccounts`, lies below it. Each place comes with the name that stands there,
/// which a rename needs to keep the part below the renamed account.
pub fn find_account_matches(
    query: &AccountQuery,
    forest: &FileMap<Arc<Tree>>,
    open_docs: &FileMap<Document>,
    forest_content: &FileMap<Arc<Rope>>,
    node_text: &str,
    include_subaccounts: bool,
) -> (result: Result<Vec<(Location, String)>, StaleTree>)
    ensures
        result is Ok <==> forest_fits(
            forest.entries(),
            open_docs.entries(),
            forest_content.entries(),
        ),
        result matches Ok(hits) ==> hits.deep_view() == project_hits(
            forest.entries(),
            open_docs.entries(),
            forest_content.entries(),
            node_text@,
            include_subaccounts,
        ),
{
    let mut hits: Vec<(Location, String)> = Vec::new();
    let ghost files = forest.entries();
    let ghost open = open_docs.entries();
    let ghost stored = forest_content.entries();
    let mut i: usize = 0;
    assert(hits.deep_view() =~= project_hits(
        files.take(0),
        open,
        stored,
        node_text@,
        include_subaccounts,
    ));
    while i < forest.len()
        invariant
            files == forest.entries(),
            open == open_docs.entries(),
            stored == forest_content.entries(),
            i <= files.len(),
            forall|k: int|
                0 <= k < i ==> file_fits(
                    (#[trigger] files[k]).1,
                    content_at(open, stored, files[k].0),
                ),
            hits.deep_view() == project_hits(
                files.take(i as int),
                open,
                stored,
                node_text@,
                include_subaccounts,
            ),
        decreases files.len() - i,
    {
        let (path, tree) = forest.entry(i);
        let ghost before = hits.deep_view();
        let ghost file = files[i as int];
        assert(files.take(i + 1).drop_last() =~= files.take(i as int));
        assert(files.take(i + 1).last() == file);
        let ghost found = file_hits(
            file.0,
            file.1,
            content_at(open, stored, file.0),
            node_text@,
            include_subaccounts,
        );
        match file_content(open_docs, forest_content, path) {
            None => {
                assert(before + found =~= before);
            },
            Some(text) => {
                let captures: Vec<Vec<SyntaxNode>> = query.captures(&**tree, &text);
                let uri: Option<String> = uri_from_file_path(path);
                match matches_in_file(&captures, &text, &uri, node_text, include_subaccounts) {
                    Err(stale) => {
                        assert(!file_fits(file.1, content_at(open, stored, file.0)));
                        return Err(stale);
                    },
                    Ok(mut more) => {
                        hits.append(&mut more);
                        assert(hits.deep_view() =~= before + found);
                    },
                }
            },
        }
        i = i + 1;
    }
    assert(files.take(files.len() as int) =~= files);
    Ok(hits)
}

/// The locations of places.
pub open spec fn locations_of(hits: Seq<(LocationView, Seq<char>)>) -> Seq<LocationView> {
    hits.map_values(|h: (LocationView, Seq<char>)| h.0)
}

/// Finds every account of the project whose name is `node_text`. A sub-account is not a
/// reference to its parent.
pub fn find_references(
    query: &AccountQuery,
    forest: &FileMap<Arc<Tree>>,
    open_docs: &FileMap<Document>,
    forest_content: &FileMap<Arc<Rope>>,
    node_text: &str,
) -> (result: Result<Vec<Location>, StaleTree>)
    ensures
        result is Ok <==> forest_fits(
            forest.entries(),
            open_docs.entries(),
            forest_content.entries(),
        ),
        result matches Ok(locations) ==> locations.deep_view() == locations_of(
            project_hits(
                forest.entries(),
                open_docs.entries(),
                forest_content.entries(),
                node_text@,
                false,
            ),
        ),
{
    match find_account_matches(query, forest, open_docs, forest_content, node_text, false) {
        Err(stale) => Err(stale),
        Ok(hits) => Ok(into_locations(hits)),
    }
}

/// Takes the locations out of places.
fn into_locations(hits: Vec<(Location, String)>) -> (locations: Vec<Location>)
    ensures
        locations.deep_view() == locations_of(hits.deep_view()),
{
    let ghost all = hits@;
    let ghost views = hits.deep_view();
    let mut locations: Vec<Location> = Vec::new();
    for h in it: hits.into_iter()
        invariant
            it.seq() == all,
            locations.len() == it.index(),
            forall|k: int| 0 <= k < locations.len() ==> #[trigger] locations[k] == all[k].0,
    {
        locations.push(h.0);
    }
    assert(locations.deep_view() =~= locations_of(views));
    locations
}

/// Whether the name at each place is `account` or, with `subaccounts`, lies below it.
pub open spec fn all_selected(
    hits: Seq<(LocationView, Seq<char>)>,
    account: Seq<char>,
    subaccounts: bool,
) -> bool {
    forall|i: int| 0 <= i < hits.len() ==> selects(account, subaccounts, (#[trigger] hits[i]).1)
}

proof fn lemma_hits_in_selected(
    captures: Seq<Seq<NodeView>>,
    text: Seq<char>,
    uri: Option<Seq<char>>,
    account: Seq<char>,
    subaccounts: bool,
)
    ensures
        all_selected(hits_in(captures, text, uri, account, subaccounts), account, subaccounts),
    decreases captures.len(),
{
    if captures.len() > 0 {
        lemma_hits_in_selected(captures.drop_last(), text, uri, account, subaccounts);
    }
}

/// Every place that a search finds names the account or, with `subaccounts`, an account below
/// it.
pub proof fn law_only_selected_names(
    forest: Seq<(Seq<u8>, Arc<Tree>)>,
    open_docs: Seq<(Seq<u8>, Document)>,
    forest_content: Seq<(Seq<u8>, Arc<Rope>)>,
    account: Seq<char>,
    subaccounts: bool,
)
    ensures
        all_selected(
            project_hits(forest, open_docs, forest_content, account, subaccounts),
            account,
            subaccounts,
        ),
    decreases forest.len(),
{
    if forest.len() > 0 {
        law_only_selected_names(
            forest.drop_last(),
            open_docs,
            forest_content,
            account,
            subaccounts,
        );
        let (path, tree) = forest.last();
        if let Some(text) = content_at(open_docs, forest_content, path) {
            lemma_hits_in_selected(
                file_captures(tree, text),
                text,
                file_uri(path),
                account,
                subaccounts,
            );
        }
    }
}

/// A reference is a place that names the account itself: a sub-account is not a reference to
/// its parent.
pub proof fn law_references_are_exact(
    forest: Seq<(Seq<u8>, Arc<Tree>)>,
    open_docs: Seq<(Seq<u8>, Document)>,
    forest_content: Seq<(Seq<u8>, Arc<Rope>)>,
    account: Seq<char>,
)
    ensures
        forall|i: int|
            0 <= i < project_hits(forest, open_docs, forest_content, account, false).len() ==> (
            #[trigger] project_hits(forest, open_docs, forest_content, account, false)[i]).1
                == account,
{
    law_only_selected_names(forest, open_docs, forest_content, account, false);
}

/// The places, among others, that name the account itself.
pub open spec fn exact_hits(
    hits: Seq<(LocationView, Seq<char>)>,
    account: Seq<char>,
) -> Seq<(LocationView, Seq<char>)> {
    hits.filter(|h: (LocationView, Seq<char>)| h.1 == account)
}

proof fn lemma_exact_hits_push(
    hits: Seq<(LocationView, Seq<char>)>,
    h: (LocationView, Seq<char>),
    account: Seq<char>,
)
    ensures
        exact_hits(hits.push(h), account) == if h.1 == account {
            exact_hits(hits, account).push(h)
        } else {
            exact_hits(hits, account)
        },
{
    reveal(Seq::filter);
    assert(hits.push(h).drop_last() =~= hits);
}

proof fn lemma_exact_hits_concat(
    one: Seq<(LocationView, Seq<char>)>,
    other: Seq<(LocationView, Seq<char>)>,
    account: Seq<char>,
)
    ensures
        exact_hits(one + other, account) == exact_hits(one, account) + exact_hits(other, account),
    decreases other.len(),
{
    if other.len() == 0 {
        assert(one + other =~= one);
        reveal(Seq::filter);
        assert(exact_hits(one, account) + exact_hits(other, account) =~= exact_hits(one, account));
    } else {
        let shorter = other.drop_last();
        lemma_exact_hits_concat(one, shorter, account);
        lemma_exact_hits_push(one + shorter, other.last(), account);
        lemma_exact_hits_push(shorter, other.last(), account);
        assert(one + other =~= (one + shorter).push(other.last()));
        assert(other =~= shorter.push(other.last()));
        assert(exact_hits(one + other, account) =~= exact_hits(one, account) + exact_hits(
            other,
            account,
        ));
    }
}

proof fn lemma_exact_hits_in(
    captures: Seq<Seq<NodeView>>,
    text: Seq<char>,
    uri: Option<Seq<char>>,
    account: Seq<char>,
)
    ensures
        exact_hits(hits_in(captures, text, uri, account, true), account) == hits_in(
            captures,
            text,
            uri,
            account,
            false,
        ),
    decreases captures.len(),
{
    if captures.len() == 0 {
        reveal(Seq::filter);
        assert(exact_hits(seq![], account) =~= seq![]);
    } else {
        let before = captures.drop_last();
        lemma_exact_hits_in(before, text, uri, account);
        if uri is Some && captures.last().len() > 0 {
            lemma_exact_hits_push(
                hits_in(before, text, uri, account, true),
                hit(text, uri->0, captures.last()[0]),
                account,
            );
        }
    }
}

/// References are the places of a search with sub-accounts that name the account itself, in
/// the same order: the cascade adds places and takes none away.
pub proof fn law_references_within_cascade(
    forest: Seq<(Seq<u8>, Arc<Tree>)>,
    open_docs: Seq<(Seq<u8>, Document)>,
    forest_content: Seq<(Seq<u8>, Arc<Rope>)>,
    account: Seq<char>,
)
    ensures
        exact_hits(project_hits(forest, open_docs, forest_content, account, true), account)
            == project_hits(forest, open_docs, forest_content, account, false),
    decreases forest.len(),
{
    if forest.len() == 0 {
        reveal(Seq::filter);
        assert(exact_hits(seq![], account) =~= seq![]);
    } else {
        let (path, tree) = forest.last();
        let content = content_at(open_docs, forest_content, path);
        law_references_within_cascade(forest.drop_last(), open_docs, forest_content, account);
        lemma_exact_hits_concat(
            project_hits(forest.drop_last(), open_docs, forest_content, account, true),
            file_hits(path, tree, content, account, true),
            account,
        );
        match content {
            Some(text) => {
                lemma_exact_hits_in(file_captures(tree, text), text, file_uri(path), account);
            },
            None => {
                reveal(Seq::filter);
                assert(exact_hits(seq![], account) =~= seq![]);
            },
        }
    }
}

proof fn lemma_hits_in_complete(
    captures: Seq<Seq<NodeView>>,
    text: Seq<char>,
    uri: Seq<char>,
    account: Seq<char>,
    subaccounts: bool,
    m: int,
)
    requires
        0 <= m < captures.len(),
        captures[m].len() > 0,
        selects(account, subaccounts, node_text_of(text, captures[m][0])),
    ensures
        hits_in(captures, text, Some(uri), account, subaccounts).contains(
            hit(text, uri, captures[m][0]),
        ),
    decreases captures.len(),
{
    let all = hits_in(captures, text, Some(uri), account, subaccounts);
    let before = hits_in(captures.drop_last(), text, Some(uri), account, subaccounts);
    let h = hit(text, uri, captures[m][0]);
    if m == captures.len() - 1 {
        assert(all.last() == h);
    } else {
        lemma_hits_in_complete(captures.drop_last(), text, uri, account, subaccounts, m);
        let i = choose|i: int| 0 <= i < before.len() && before[i] == h;
        assert(all[i] == h);
    }
}

/// No selected account is missed: where the file `f` has content and a URI, each account of its
/// tree that is selected is among the places.
pub proof fn law_every_selected_account_found(
    forest: Seq<(Seq<u8>, Arc<Tree>)>,
    open_docs: Seq<(Seq<u8>, Document)>,
    forest_content: Seq<(Seq<u8>, Arc<Rope>)>,
    account: Seq<char>,
    subaccounts: bool,
    f: int,
    m: int,
)
    ensures
        0 <= f < forest.len() ==> match (
            content_at(open_docs, forest_content, forest[f].0),
            file_uri(forest[f].0),
        ) {
            (Some(text), Some(uri)) => {
                let captures = file_captures(forest[f].1, text);
                0 <= m < captures.len() && captures[m].len() > 0 && selects(
                    account,
                    subaccounts,
                    node_text_of(text, captures[m][0]),
                ) ==> project_hits(forest, open_docs, forest_content, account, subaccounts).contains(
                    hit(text, uri, captures[m][0]),
                )
            },
            _ => true,
        },
    decreases forest.len(),
{
    if 0 <= f < forest.len() {
        let content = content_at(open_docs, forest_content, forest[f].0);
        if content is Some && file_uri(forest[f].0) is Some {
            let text = content->0;
            let uri = file_uri(forest[f].0)->0;
            let captures = file_captures(forest[f].1, text);
            if 0 <= m < captures.len() && captures[m].len() > 0 && selects(
                account,
                subaccounts,
                node_text_of(text, captures[m][0]),
            ) {
                let h = hit(text, uri, captures[m][0]);
                let all = project_hits(forest, open_docs, forest_content, account, subaccounts);
                let before = project_hits(
                    forest.drop_last(),
                    open_docs,
                    forest_content,
                    account,
                    subaccounts,
                );
                if f == forest.len() - 1 {
                    lemma_hits_in_complete(captures, text, uri, account, subaccounts, m);
                    let last = hits_in(captures, text, Some(uri), account, subaccounts);
                    let i = choose|i: int| 0 <= i < last.len() && last[i] == h;
                    assert(all[before.len() + i] == h);
                } else {
                    law_every_selected_account_found(
                        forest.drop_last(),
                        open_docs,
                        forest_content,
                        account,
                        subaccounts,
                        f,
                        m,
                    );
                    assert(forest.drop_last()[f] == forest[f]);
                    let i = choose|i: int| 0 <= i < before.len() && before[i] == h;
                    assert(all[i] == h);
                }
            }
        }
    }
}

/// The accounts of a file that are selected: the first node of each match, if its name is.
pub open spec fn selected_nodes(
    captures: Seq<Seq<NodeView>>,
    text: Seq<char>,
    account: Seq<char>,
    subaccounts: bool,
) -> Seq<NodeView>
    decreases captures.len(),
{
    if captures.len() == 0 {
        seq![]
    } else {
        let before = selected_nodes(captures.drop_last(), text, account, subaccounts);
        let nodes = captures.last();
        if nodes.len() > 0 && selects(account, subaccounts, node_text_of(text, nodes[0])) {
            before.push(nodes[0])
        } else {
            before
        }
    }
}

/// The places in a file with a URI are those of its selected accounts, one for each, in the order
/// of the matches.
pub proof fn law_places_are_selected_nodes(
    captures: Seq<Seq<NodeView>>,
    text: Seq<char>,
    uri: Seq<char>,
    account: Seq<char>,
    subaccounts: bool,
)
    ensures
        hits_in(captures, text, Some(uri), account, subaccounts) == selected_nodes(
            captures,
            text,
            account,
            subaccounts,
        ).map_values(|node: NodeView| hit(text, uri, node)),
    decreases captures.len(),
{
    let nodes = selected_nodes(captures, text, account, subaccounts);
    if captures.len() > 0 {
        law_places_are_selected_nodes(captures.drop_last(), text, uri, account, subaccounts);
    }
    assert(hits_in(captures, text, Some(uri), account, subaccounts) =~= nodes.map_values(
        |node: NodeView| hit(text, uri, node),
    ));
}

/// Whether the file `f` has a place to find: it has content and a URI, and the match `m` of its
/// tree has a node.
pub open spec fn has_account(
    forest: Seq<(Seq<u8>, Arc<Tree>)>,
    open_docs: Seq<(Seq<u8>, Document)>,
    forest_content: Seq<(Seq<u8>, Arc<Rope>)>,
    f: int,
    m: int,
) -> bool {
    &&& 0 <= f < forest.len()
    &&& content_at(open_docs, forest_content, forest[f].0) is Some
    &&& file_uri(forest[f].0) is Some
    &&& 0 <= m < file_captures(
        forest[f].1,
        content_at(open_docs, forest_content, forest[f].0)->0,
    ).len()
    &&& file_captures(
        forest[f].1,
        content_at(open_docs, forest_content, forest[f].0)->0,
    )[m].len() > 0
}

/// The account that the match `m` of the tree of the file `f` has.
pub open spec fn account_in(
    forest: Seq<(Seq<u8>, Arc<Tree>)>,
    open_docs: Seq<(Seq<u8>, Document)>,
    forest_content: Seq<(Seq<u8>, Arc<Rope>)>,
    f: int,
    m: int,
) -> NodeView {
    file_captures(forest[f].1, content_at(open_docs, forest_content, forest[f].0)->0)[m][0]
}

proof fn lemma_node_of_place(
    captures: Seq<Seq<NodeView>>,
    text: Seq<char>,
    uri: Option<Seq<char>>,
    account: Seq<char>,
    subaccounts: bool,
    i: int,
) -> (m: int)
    requires
        0 <= i < hits_in(captures, text, uri, account, subaccounts).len(),
    ensures
        uri is Some,
        0 <= m < captures.len(),
        captures[m].len() > 0,
        selects(account, subaccounts, node_text_of(text, captures[m][0])),
        hits_in(captures, text, uri, account, subaccounts)[i] == hit(text, uri->0, captures[m][0]),
    decreases captures.len(),
{
    if i < hits_in(captures.drop_last(), text, uri, account, subaccounts).len() {
        lemma_node_of_place(captures.drop_last(), text, uri, account, subaccounts, i)
    } else {
        captures.len() - 1
    }
}

/// Every place that a search finds is that of an account in the tree of a file.
pub proof fn law_place_has_account(
    forest: Seq<(Seq<u8>, Arc<Tree>)>,
    open_docs: Seq<(Seq<u8>, Document)>,
    forest_content: Seq<(Seq<u8>, Arc<Rope>)>,
    account: Seq<char>,
    subaccounts: bool,
    i: int,
) -> (at: (int, int))
    requires
        0 <= i < project_hits(forest, open_docs, forest_content, account, subaccounts).len(),
    ensures
        has_account(forest, open_docs, forest_content, at.0, at.1),
        project_hits(forest, open_docs, forest_content, account, subaccounts)[i] == hit(
            content_at(open_docs, forest_content, forest[at.0].0)->0,
            file_uri(forest[at.0].0)->0,
            account_in(forest, open_docs, forest_content, at.0, at.1),
        ),
        selects(
            account,
            subaccounts,
            project_hits(forest, open_docs, forest_content, account, subaccounts)[i].1,
        ),
    decreases forest.len(),
{
    let fewer = forest.drop_last();
    let before = project_hits(fewer, open_docs, forest_content, account, subaccounts);
    if i < before.len() {
        let at = law_place_has_account(
            fewer,
            open_docs,
            forest_content,
            account,
            subaccounts,
            i,
        );
        assert(fewer[at.0] == forest[at.0]);
        at
    } else {
        let (path, tree) = forest.last();
        let text = content_at(open_docs, forest_content, path)->0;
        let captures = file_captures(tree, text);
        let m = lemma_node_of_place(
            captures,
            text,
            file_uri(path),
            account,
            subaccounts,
            i - before.len(),
        );
        (forest.len() - 1, m)
    }
}

pub(crate) proof fn lemma_uri_of_places(
    captures: Seq<Seq<NodeView>>,
    text: Seq<char>,
    uri: Option<Seq<char>>,
    account: Seq<char>,
    subaccounts: bool,
)
    ensures
        forall|i: int|
            0 <= i < hits_in(captures, text, uri, account, subaccounts).len() ==> uri == Some(
                (#[trigger] hits_in(captures, text, uri, account, subaccounts)[i]).0.uri,
            ),
    decreases captures.len(),
{
    if captures.len() > 0 {
        lemma_uri_of_places(captures.drop_last(), text, uri, account, subaccounts);
        let before = hits_in(captures.drop_last(), text, uri, account, subaccounts);
        let all = hits_in(captures, text, uri, account, subaccounts);
        assert forall|i: int| 0 <= i < all.len() implies uri == Some((#[trigger] all[i]).0.uri) by {
            if i < before.len() {
                assert(all[i] == before[i]);
            }
        }
    }
}

/// What is stored of a file does not matter while its document is open.
pub proof fn law_open_document_wins(
    open_docs: Seq<(Seq<u8>, Document)>,
    one: Seq<(Seq<u8>, Arc<Rope>)>,
    other: Seq<(Seq<u8>, Arc<Rope>)>,
    path: Seq<u8>,
)
    requires
        value_at(open_docs, path) is Some,
    ensures
        content_at(open_docs, one, path) == content_at(open_docs, other, path),
        content_at(open_docs, one, path) is Some,
{
}

/// The content of an open file is what its document holds. That of a file that is not open is what
/// is stored at its own path, and without that it has none.
pub proof fn law_content_of_a_file(
    open_docs: Seq<(Seq<u8>, Document)>,
    forest_content: Seq<(Seq<u8>, Arc<Rope>)>,
    path: Seq<u8>,
)
    ensures
        value_at(open_docs, path) matches Some(document) ==> content_at(
            open_docs,
            forest_content,
            path,
        ) == Some(rope_text(document.content)),
        value_at(open_docs, path) is None && value_at(forest_content, path) is Some ==> content_at(
            open_docs,
            forest_content,
            path,
        ) == Some(rope_text(*value_at(forest_content, path)->0)),
        value_at(open_docs, path) is None && value_at(forest_content, path) is None ==> content_at(
            open_docs,
            forest_content,
            path,
        ) is None,
{
}

/// Each stored content is that of the file at its own path, as long as the file is not open: what
/// is stored of other files does not matter to it.
pub proof fn law_stored_content_is_of_own_file(
    open_docs: Seq<(Seq<u8>, Document)>,
    forest_content: Seq<(Seq<u8>, Arc<Rope>)>,
    i: int,
)
    requires
        paths_distinct(forest_content),
        0 <= i < forest_content.len(),
        value_at(open_docs, forest_content[i].0) is None,
    ensures
        content_at(open_docs, forest_content, forest_content[i].0) == Some(
            rope_text(*forest_content[i].1),
        ),
{
    law_each_path_has_its_value(forest_content, i);
}

/// Each open document is the content of the file at its own path.
pub proof fn law_open_content_is_of_own_file(
    open_docs: Seq<(Seq<u8>, Document)>,
    forest_content: Seq<(Seq<u8>, Arc<Rope>)>,
    i: int,
)
    requires
        paths_distinct(open_docs),
        0 <= i < open_docs.len(),
    ensures
        content_at(open_docs, forest_content, open_docs[i].0) == Some(
            rope_text(open_docs[i].1.content),
        ),
{
    law_each_path_has_its_value(open_docs, i);
}

/// A search in the matches of a file goes match by match: the places in some matches and then in
/// others are those in the one and then those in the other.
pub proof fn law_search_goes_match_by_match(
    one: Seq<Seq<NodeView>>,
    other: Seq<Seq<NodeView>>,
    text: Seq<char>,
    uri: Option<Seq<char>>,
    account: Seq<char>,
    subaccounts: bool,
)
    ensures
        hits_in(one + other, text, uri, account, subaccounts) == hits_in(
            one,
            text,
            uri,
            account,
            subaccounts,
        ) + hits_in(other, text, uri, account, subaccounts),
        captures_fit(one + other, text) <==> captures_fit(one, text) && captures_fit(other, text),
    decreases other.len(),
{
    let all = one + other;
    if other.len() == 0 {
        assert(all =~= one);
        let hits = hits_in(one, text, uri, account, subaccounts);
        assert(hits + hits_in(other, text, uri, account, subaccounts) =~= hits);
    } else {
        law_search_goes_match_by_match(one, other.drop_last(), text, uri, account, subaccounts);
        assert(all.drop_last() =~= one + other.drop_last());
        assert(hits_in(all, text, uri, account, subaccounts) =~= hits_in(
            one,
            text,
            uri,
            account,
            subaccounts,
        ) + hits_in(other, text, uri, account, subaccounts));
    }
    assert forall|i: int| 0 <= i < one.len() implies #[trigger] one[i] == all[i] by {}
    assert forall|i: int| 0 <= i < other.len() implies #[trigger] other[i] == all[one.len() + i] by {}
    if captures_fit(one, text) && captures_fit(other, text) {
        assert forall|i: int|
            0 <= i < all.len() && (#[trigger] all[i]).len() > 0 implies node_fits(
            text,
            all[i][0],
        ) by {
            if i < one.len() {
                assert(one[i] == all[i]);
            } else {
                assert(other[i - one.len()] == all[i]);
            }
        }
    }
    if captures_fit(all, text) {
        assert forall|i: int|
            0 <= i < one.len() && (#[trigger] one[i]).len() > 0 implies node_fits(
            text,
            one[i][0],
        ) by {
            assert(one[i] == all[i]);
        }
        assert forall|i: int|
            0 <= i < other.len() && (#[trigger] other[i]).len() > 0 implies node_fits(
            text,
            other[i][0],
        ) by {
            assert(other[i] == all[one.len() + i]);
        }
    }
}

/// What a match gives: without a node, or in a file without URI, nothing. Otherwise the place of
/// its first node, with the name that stands there, if that is the account or, with sub-accounts,
/// goes on after it with a `:`.
pub proof fn law_place_of_a_match(
    nodes: Seq<NodeView>,
    text: Seq<char>,
    uri: Option<Seq<char>>,
    account: Seq<char>,
    subaccounts: bool,
)
    ensures
        ({
            let hits = hits_in(seq![nodes], text, uri, account, subaccounts);
            let name = node_text_of(text, nodes[0]);
            &&& nodes.len() == 0 || uri is None ==> hits.len() == 0
            &&& nodes.len() > 0 && uri is Some ==> {
                let chosen = name == account || (subaccounts && exists|rest: Seq<char>|
                    name == #[trigger] (account + seq![':'] + rest));
                &&& hits.len() == if chosen { 1nat } else { 0nat }
                &&& chosen ==> {
                    &&& hits[0].0.uri == uri->0
                    &&& hits[0].0.range == range_on(lines_of(text), nodes[0])
                    &&& hits[0].1 == name
                }
            }
            &&& nodes.len() == 0 ==> captures_fit(seq![nodes], text)
            &&& nodes.len() > 0 ==> (captures_fit(seq![nodes], text) <==> node_fits(text, nodes[0]))
        }),
        hits_in(seq![], text, uri, account, subaccounts).len() == 0,
{
    let matches = seq![nodes];
    let name = node_text_of(text, nodes[0]);
    let n = account.len() as int;
    reveal_with_fuel(hits_in, 2);
    assert(matches.drop_last() =~= Seq::<Seq<NodeView>>::empty());
    assert(matches[0] == nodes);
    if below(name, account) {
        let rest = name.skip(n + 1);
        law_selected_names(account, true, name);
        assert(name =~= account + seq![':'] + rest);
    }
    if exists|rest: Seq<char>| name == #[trigger] (account + seq![':'] + rest) {
        let rest = choose|rest: Seq<char>| name == #[trigger] (account + seq![':'] + rest);
        law_every_depth_is_selected(account, rest);
    }
}

/// A search goes file by file: the places in some files and then in others are those in the one
/// and then those in the other; and it succeeds on all if and only if it does on both.
pub proof fn law_search_goes_file_by_file(
    one: Seq<(Seq<u8>, Arc<Tree>)>,
    other: Seq<(Seq<u8>, Arc<Tree>)>,
    open_docs: Seq<(Seq<u8>, Document)>,
    forest_content: Seq<(Seq<u8>, Arc<Rope>)>,
    account: Seq<char>,
    subaccounts: bool,
)
    ensures
        project_hits(one + other, open_docs, forest_content, account, subaccounts) == project_hits(
            one,
            open_docs,
            forest_content,
            account,
            subaccounts,
        ) + project_hits(other, open_docs, forest_content, account, subaccounts),
        forest_fits(one + other, open_docs, forest_content) <==> forest_fits(
            one,
            open_docs,
            forest_content,
        ) && forest_fits(other, open_docs, forest_content),
    decreases other.len(),
{
    let all = one + other;
    let left = project_hits(one, open_docs, forest_content, account, subaccounts);
    if other.len() == 0 {
        assert(all =~= one);
        assert(left + project_hits(other, open_docs, forest_content, account, subaccounts) =~= left);
    } else {
        law_search_goes_file_by_file(
            one,
            other.drop_last(),
            open_docs,
            forest_content,
            account,
            subaccounts,
        );
        assert(all.drop_last() =~= one + other.drop_last());
        assert(all.last() == other.last());
        assert(project_hits(all, open_docs, forest_content, account, subaccounts) =~= left
            + project_hits(other, open_docs, forest_content, account, subaccounts));
    }
    assert forall|i: int| 0 <= i < one.len() implies #[trigger] one[i] == all[i] by {}
    assert forall|i: int| 0 <= i < other.len() implies #[trigger] other[i] == all[one.len() + i] by {}
    if forest_fits(one, open_docs, forest_content) && forest_fits(
        other,
        open_docs,
        forest_content,
    ) {
        assert forall|i: int| 0 <= i < all.len() implies file_fits(
            (#[trigger] all[i]).1,
            content_at(open_docs, forest_content, all[i].0),
        ) by {
            if i < one.len() {
                assert(one[i] == all[i]);
            } else {
                assert(other[i - one.len()] == all[i]);
            }
        }
    }
    if forest_fits(all, open_docs, forest_content) {
        assert forall|i: int| 0 <= i < one.len() implies file_fits(
            (#[trigger] one[i]).1,
            content_at(open_docs, forest_content, one[i].0),
        ) by {
            assert(one[i] == all[i]);
        }
        assert forall|i: int| 0 <= i < other.len() implies file_fits(
            (#[trigger] other[i]).1,
            content_at(open_docs, forest_content, other[i].0),
        ) by {
            assert(other[i] == all[one.len() + i]);
        }
    }
}

/// What a file gives: without content nothing. Otherwise what a search in all matches of its tree
/// over its own content gives, under its own URI.
pub proof fn law_places_in_a_file(
    path: Seq<u8>,
    tree: Arc<Tree>,
    open_docs: Seq<(Seq<u8>, Document)>,
    forest_content: Seq<(Seq<u8>, Arc<Rope>)>,
    account: Seq<char>,
    subaccounts: bool,
)
    ensures
        ({
            let hits = project_hits(
                seq![(path, tree)],
                open_docs,
                forest_content,
                account,
                subaccounts,
            );
            let fits = forest_fits(seq![(path, tree)], open_docs, forest_content);
            match content_at(open_docs, forest_content, path) {
                None => hits.len() == 0 && fits,
                Some(text) => {
                    let matches = account_captures(*tree, text);
                    &&& hits == hits_in(matches, text, file_uri(path), account, subaccounts)
                    &&& fits <==> captures_fit(matches, text)
                },
            }
        }),
        project_hits(seq![], open_docs, forest_content, account, subaccounts).len() == 0,
{
    let files = seq![(path, tree)];
    reveal_with_fuel(project_hits, 2);
    assert(files.drop_last() =~= Seq::<(Seq<u8>, Arc<Tree>)>::empty());
    assert(files[0] == (path, tree));
    let found = file_hits(
        path,
        tree,
        content_at(open_docs, forest_content, path),
        account,
        subaccounts,
    );
    assert(project_hits(files, open_docs, forest_content, account, subaccounts) =~= found);
}

/// Each place has its location, in the same order.
pub proof fn law_each_place_has_its_location(hits: Seq<(LocationView, Seq<char>)>, i: int)
    requires
        0 <= i < hits.len(),
    ensures
        locations_of(hits).len() == hits.len(),
        locations_of(hits)[i].uri == hits[i].0.uri,
        locations_of(hits)[i].range == hits[i].0.range,
{
}

} // verus!
