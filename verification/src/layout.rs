//! A file as the names of its accounts and the gaps between them: what a rename makes of it, and
//! that the rename back restores it.

use crate::account::{law_rename_back, renamed, selects};
use crate::apply::{
    applied_in_turn, edits_of_nodes, has_own_key, law_account_edits_fit_together,
    law_edit_covers_the_name, law_edits_apply_in_turn, law_rename_rewrites_each_file,
    lemma_later_offset_stands_behind, lemma_offset, lemma_offsets_of_node,
    lemma_ranges_follow_bytes, nodes_apart, offset_of, on_some_line, replaced_at_once,
    stand_apart,
};
use crate::changes::{edit_at, renaming};
use crate::edits::{back_to_front, law_ordered_edits_are_reversed, not_empty};
use crate::files::{Document, Snapshot};
use crate::lsp::{Position, TextEditView};
use crate::matches::{content_at, file_captures, hit, project_hits, selected_nodes};
use crate::references::{
    law_rename_does_what_was_prepared, prepared_rename, rename_answer, trees_fit,
};
use crate::syntax::NodeView;
use crate::text::{lemma_lens_monotone, lines_of, node_on_line, node_text_of, range_on, utf8_len};
use ropey::Rope;
use std::sync::Arc;
use tree_sitter_beancount::tree_sitter::Tree;
use vstd::prelude::*;

verus! {

/// The text of gaps and names in turn; it begins and ends with a gap.
pub open spec fn laid_out(gaps: Seq<Seq<char>>, names: Seq<Seq<char>>) -> Seq<char>
    decreases names.len(),
{
    if names.len() == 0 {
        gaps[0]
    } else {
        laid_out(gaps.drop_last(), names.drop_last()) + names.last() + gaps.last()
    }
}

/// The text before the name `i`.
pub open spec fn before_name(gaps: Seq<Seq<char>>, names: Seq<Seq<char>>, i: int) -> Seq<char> {
    laid_out(gaps.take(i + 1), names.take(i))
}

/// The texts of nodes.
pub open spec fn names_of(text: Seq<char>, nodes: Seq<NodeView>) -> Seq<Seq<char>> {
    nodes.map_values(|node: NodeView| node_text_of(text, node))
}

/// Whether a text is made of the names of nodes with `gaps` around them, and each node stands, on
/// a line, where its name does.
#[verifier::opaque]
pub open spec fn lie_between(
    text: Seq<char>,
    nodes: Seq<NodeView>,
    gaps: Seq<Seq<char>>,
) -> bool {
    let names = names_of(text, nodes);
    &&& gaps.len() == nodes.len() + 1
    &&& text == laid_out(gaps, names)
    &&& forall|i: int|
        0 <= i < nodes.len() ==> on_some_line(text, #[trigger] nodes[i]) && nodes[i].start_byte
            == utf8_len(before_name(gaps, names, i))
}

/// The accounts of a file: the first node of each match.
pub open spec fn account_nodes(captures: Seq<Seq<NodeView>>) -> Seq<NodeView>
    decreases captures.len(),
{
    if captures.len() == 0 {
        seq![]
    } else {
        let before = account_nodes(captures.drop_last());
        if captures.last().len() > 0 {
            before.push(captures.last()[0])
        } else {
            before
        }
    }
}

/// The nodes whose name is `account` or lies below it.
pub open spec fn selected_of(
    nodes: Seq<NodeView>,
    text: Seq<char>,
    account: Seq<char>,
) -> Seq<NodeView>
    decreases nodes.len(),
{
    if nodes.len() == 0 {
        seq![]
    } else {
        let before = selected_of(nodes.drop_last(), text, account);
        if selects(account, true, node_text_of(text, nodes.last())) {
            before.push(nodes.last())
        } else {
            before
        }
    }
}

/// Names after a rename: those that are `account` or lie below it have changed, the others not.
pub open spec fn renamed_names(
    names: Seq<Seq<char>>,
    account: Seq<char>,
    new_name: Seq<char>,
) -> Seq<Seq<char>> {
    names.map_values(
        |name: Seq<char>|
            if selects(account, true, name) {
                renamed(name, account, new_name)
            } else {
                name
            },
    )
}

proof fn lemma_selected_of_captures(
    captures: Seq<Seq<NodeView>>,
    text: Seq<char>,
    account: Seq<char>,
)
    ensures
        selected_nodes(captures, text, account, true) == selected_of(
            account_nodes(captures),
            text,
            account,
        ),
    decreases captures.len(),
{
    if captures.len() > 0 {
        let before = account_nodes(captures.drop_last());
        lemma_selected_of_captures(captures.drop_last(), text, account);
        if captures.last().len() > 0 {
            assert(account_nodes(captures).drop_last() =~= before);
        }
    }
}

proof fn lemma_next_name(gaps: Seq<Seq<char>>, names: Seq<Seq<char>>, i: int)
    requires
        gaps.len() == names.len() + 1,
        0 <= i < names.len(),
    ensures
        before_name(gaps, names, i + 1) == before_name(gaps, names, i) + names[i] + gaps[i + 1],
{
    assert(gaps.take(i + 2).drop_last() =~= gaps.take(i + 1));
    assert(names.take(i + 1).drop_last() =~= names.take(i));
}

proof fn lemma_text_before_name(gaps: Seq<Seq<char>>, names: Seq<Seq<char>>, i: int)
    requires
        gaps.len() == names.len() + 1,
        0 <= i <= names.len(),
    ensures
        before_name(gaps, names, i).len() <= laid_out(gaps, names).len(),
        laid_out(gaps, names).take(before_name(gaps, names, i).len() as int) == before_name(
            gaps,
            names,
            i,
        ),
    decreases names.len() - i,
{
    let text = laid_out(gaps, names);
    let before = before_name(gaps, names, i);
    if i == names.len() {
        assert(gaps.take(i + 1) =~= gaps);
        assert(names.take(i) =~= names);
        assert(text.take(before.len() as int) =~= before);
    } else {
        let next = before_name(gaps, names, i + 1);
        lemma_next_name(gaps, names, i);
        lemma_text_before_name(gaps, names, i + 1);
        assert(text.take(before.len() as int) =~= next.take(before.len() as int));
        assert(next.take(before.len() as int) =~= before);
    }
}

proof fn lemma_layout(text: Seq<char>, nodes: Seq<NodeView>, gaps: Seq<Seq<char>>)
    requires
        lie_between(text, nodes, gaps),
    ensures
        gaps.len() == nodes.len() + 1,
        text == laid_out(gaps, names_of(text, nodes)),
{
    reveal(lie_between);
}

/// Where the name of a node stands in the text, and the range of the node with it.
proof fn lemma_place_of_name(
    text: Seq<char>,
    nodes: Seq<NodeView>,
    gaps: Seq<Seq<char>>,
    i: int,
)
    requires
        lie_between(text, nodes, gaps),
        0 <= i < nodes.len(),
    ensures
        ({
            let names = names_of(text, nodes);
            let from = before_name(gaps, names, i).len() as int;
            let to = from + names[i].len();
            let range = range_on(lines_of(text), nodes[i]);
            &&& from < to <= before_name(gaps, names, i + 1).len() <= text.len()
            &&& offset_of(text, range.start) == from
            &&& offset_of(text, range.end) == to
            &&& range.start.before(range.end)
            &&& nodes[i].start_byte == utf8_len(text.take(from))
            &&& nodes[i].end_byte == utf8_len(text.take(to))
            &&& text.subrange(from, to) == names[i]
            &&& text.subrange(to, before_name(gaps, names, i + 1).len() as int) == gaps[i + 1]
        }),
{
    reveal(lie_between);
    let names = names_of(text, nodes);
    let node = nodes[i];
    let range = range_on(lines_of(text), node);
    let before = before_name(gaps, names, i);
    let next = before_name(gaps, names, i + 1);
    let from = before.len() as int;
    lemma_text_before_name(gaps, names, i);
    lemma_text_before_name(gaps, names, i + 1);
    lemma_next_name(gaps, names, i);
    let (row, a, b) = choose|row: int, a: int, b: int|
        #[trigger] node_on_line(text, node, row, a, b) && a < b;
    law_edit_covers_the_name(text, seq![], node, row, a, b, seq![], seq![]);
    let (o, e) = lemma_offsets_of_node(text, node);
    lemma_offset(text, o, range.start);
    lemma_offset(text, e, range.end);
    if o < from {
        lemma_lens_monotone(text, o, from);
    } else if from < o {
        lemma_lens_monotone(text, from, o);
    }
    assert(o == from);
    if e < o {
        lemma_later_offset_stands_behind(text, e, range.end, o, range.start);
    }
    assert(text.subrange(o, e).len() == e - o);
    let to = from + names[i].len();
    assert(text.subrange(to, next.len() as int) =~= text.take(next.len() as int).skip(to));
    assert(next.skip(to) =~= gaps[i + 1]);
}

proof fn lemma_replaced_further(text: Seq<char>, edits: Seq<TextEditView>, end: int, further: int)
    requires
        0 <= end <= further <= text.len(),
        edits.len() > 0 ==> 0 <= offset_of(text, edits[0].range.end) <= end,
    ensures
        replaced_at_once(text, edits, further) == replaced_at_once(text, edits, end)
            + text.subrange(end, further),
{
    if edits.len() == 0 {
        assert(text.take(further) =~= text.take(end) + text.subrange(end, further));
    } else {
        let o = offset_of(text, edits[0].range.end);
        assert(text.subrange(o, further) =~= text.subrange(o, end) + text.subrange(end, further));
        assert(replaced_at_once(text, edits, further) =~= replaced_at_once(text, edits, end)
            + text.subrange(end, further));
    }
}

proof fn lemma_bytes_of_name(text: Seq<char>, nodes: Seq<NodeView>, gaps: Seq<Seq<char>>, i: int)
    requires
        lie_between(text, nodes, gaps),
        0 <= i < nodes.len(),
    ensures
        on_some_line(text, nodes[i]),
        utf8_len(before_name(gaps, names_of(text, nodes), i)) == nodes[i].start_byte,
        nodes[i].start_byte <= nodes[i].end_byte,
        nodes[i].end_byte <= utf8_len(before_name(gaps, names_of(text, nodes), i + 1)),
{
    reveal(lie_between);
    let names = names_of(text, nodes);
    let from = before_name(gaps, names, i).len() as int;
    let to = from + names[i].len();
    lemma_place_of_name(text, nodes, gaps, i);
    lemma_text_before_name(gaps, names, i + 1);
    lemma_lens_monotone(text, from, to);
    lemma_lens_monotone(text, to, before_name(gaps, names, i + 1).len() as int);
}

/// The accounts among the first `k` that are selected lie in turn, all before the name `k`.
proof fn lemma_selected_in_order(
    text: Seq<char>,
    nodes: Seq<NodeView>,
    gaps: Seq<Seq<char>>,
    account: Seq<char>,
    k: int,
)
    requires
        lie_between(text, nodes, gaps),
        0 <= k <= nodes.len(),
    ensures
        ({
            let selected = selected_of(nodes.take(k), text, account);
            let end = utf8_len(before_name(gaps, names_of(text, nodes), k));
            &&& forall|i: int|
                0 <= i < selected.len() ==> on_some_line(text, #[trigger] selected[i])
                    && selected[i].end_byte <= end
            &&& forall|i: int, j: int|
                0 <= i < j < selected.len() ==> (#[trigger] selected[i]).end_byte <= (
                #[trigger] selected[j]).start_byte
        }),
    decreases k,
{
    if k > 0 {
        let node = nodes[k - 1];
        let before = selected_of(nodes.take(k - 1), text, account);
        let selected = selected_of(nodes.take(k), text, account);
        let end = utf8_len(before_name(gaps, names_of(text, nodes), k));
        lemma_selected_in_order(text, nodes, gaps, account, k - 1);
        lemma_bytes_of_name(text, nodes, gaps, k - 1);
        assert(nodes.take(k).drop_last() =~= nodes.take(k - 1));
        assert(nodes.take(k).last() == node);
        assert(selected == before || selected == before.push(node));
        assert forall|i: int| 0 <= i < selected.len() implies on_some_line(
            text,
            #[trigger] selected[i],
        ) && selected[i].end_byte <= end by {
            if i < before.len() {
                assert(selected[i] == before[i]);
            }
        }
        assert forall|i: int, j: int| 0 <= i < j < selected.len() implies (
        #[trigger] selected[i]).end_byte <= (#[trigger] selected[j]).start_byte by {
            assert(selected[i] == before[i]);
            if j < before.len() {
                assert(selected[j] == before[j]);
            }
        }
    }
}

proof fn lemma_edits_of_one_more(
    text: Seq<char>,
    uri: Seq<char>,
    nodes: Seq<NodeView>,
    node: NodeView,
    account: Seq<char>,
    new_name: Seq<char>,
)
    ensures
        edits_of_nodes(text, uri, nodes.push(node), account, new_name).reverse() == seq![
            edit_at(hit(text, uri, node), account, new_name),
        ] + edits_of_nodes(text, uri, nodes, account, new_name).reverse(),
{
    assert(edits_of_nodes(text, uri, nodes.push(node), account, new_name).reverse() =~= seq![
        edit_at(hit(text, uri, node), account, new_name),
    ] + edits_of_nodes(text, uri, nodes, account, new_name).reverse());
}

proof fn lemma_replaced_one_more(
    text: Seq<char>,
    edit: TextEditView,
    sent: Seq<TextEditView>,
    end: int,
)
    ensures
        replaced_at_once(text, seq![edit] + sent, end) == replaced_at_once(
            text,
            sent,
            offset_of(text, edit.range.start),
        ) + edit.new_text + text.subrange(offset_of(text, edit.range.end), end),
{
    let edits = seq![edit] + sent;
    assert(edits[0] == edit);
    assert(edits.drop_first() =~= sent);
}

/// What the name `i` and the gap behind it are in the text.
proof fn lemma_name_and_gap(
    text: Seq<char>,
    nodes: Seq<NodeView>,
    gaps: Seq<Seq<char>>,
    i: int,
) -> (at: (int, int, int))
    requires
        lie_between(text, nodes, gaps),
        0 <= i < nodes.len(),
    ensures
        0 <= at.0 <= at.1 <= at.2 <= text.len(),
        at.0 == before_name(gaps, names_of(text, nodes), i).len(),
        at.2 == before_name(gaps, names_of(text, nodes), i + 1).len(),
        offset_of(text, range_on(lines_of(text), nodes[i]).start) == at.0,
        offset_of(text, range_on(lines_of(text), nodes[i]).end) == at.1,
        text.subrange(at.1, at.2) == gaps[i + 1],
        text.subrange(at.0, at.2) == node_text_of(text, nodes[i]) + gaps[i + 1],
{
    lemma_layout(text, nodes, gaps);
    lemma_text_before_name(gaps, names_of(text, nodes), i + 1);
    let names = names_of(text, nodes);
    let from = before_name(gaps, names, i).len() as int;
    let to = from + names[i].len();
    let end = before_name(gaps, names, i + 1).len() as int;
    lemma_place_of_name(text, nodes, gaps, i);
    assert(text.subrange(from, end) =~= text.subrange(from, to) + text.subrange(to, end));
    (from, to, end)
}

proof fn lemma_replaced_up_to(
    text: Seq<char>,
    nodes: Seq<NodeView>,
    gaps: Seq<Seq<char>>,
    uri: Seq<char>,
    account: Seq<char>,
    new_name: Seq<char>,
    k: int,
)
    requires
        lie_between(text, nodes, gaps),
        0 <= k <= nodes.len(),
    ensures
        ({
            let names = names_of(text, nodes);
            let selected = selected_of(nodes.take(k), text, account);
            let edits = edits_of_nodes(text, uri, selected, account, new_name).reverse();
            let end = before_name(gaps, names, k).len() as int;
            &&& edits.len() > 0 ==> 0 <= offset_of(text, edits[0].range.end) <= end
            &&& replaced_at_once(text, edits, end) == before_name(
                gaps,
                renamed_names(names, account, new_name),
                k,
            )
        }),
    decreases k,
{
    lemma_layout(text, nodes, gaps);
    let names = names_of(text, nodes);
    let results = renamed_names(names, account, new_name);
    let selected = selected_of(nodes.take(k), text, account);
    let edits = edits_of_nodes(text, uri, selected, account, new_name).reverse();
    let end = before_name(gaps, names, k).len() as int;
    lemma_text_before_name(gaps, names, k);
    if k == 0 {
        assert(edits =~= Seq::<TextEditView>::empty());
        assert(names.take(0) =~= results.take(0));
    } else {
        let node = nodes[k - 1];
        let earlier = selected_of(nodes.take(k - 1), text, account);
        let sent = edits_of_nodes(text, uri, earlier, account, new_name).reverse();
        let done = before_name(gaps, results, k - 1);
        lemma_replaced_up_to(text, nodes, gaps, uri, account, new_name, k - 1);
        let (from, to, _) = lemma_name_and_gap(text, nodes, gaps, k - 1);
        lemma_next_name(gaps, results, k - 1);
        assert(nodes.take(k).drop_last() =~= nodes.take(k - 1));
        assert(nodes.take(k).last() == node);
        if selects(account, true, names[k - 1]) {
            let edit = edit_at(hit(text, uri, node), account, new_name);
            lemma_edits_of_one_more(text, uri, earlier, node, account, new_name);
            assert(edits == seq![edit] + sent);
            assert(edits[0] == edit);
            lemma_replaced_one_more(text, edit, sent, end);
            assert(edit.new_text == results[k - 1]);
        } else {
            assert(edits == sent);
            lemma_replaced_further(text, sent, from, end);
            assert(done + (names[k - 1] + gaps[k]) =~= done + names[k - 1] + gaps[k]);
        }
    }
}

/// A rename changes the names that it is about, and leaves all that lies between the accounts of
/// a file, and the other names, as they are.
pub proof fn law_rename_changes_names_only(
    text: Seq<char>,
    nodes: Seq<NodeView>,
    gaps: Seq<Seq<char>>,
    uri: Seq<char>,
    account: Seq<char>,
    new_name: Seq<char>,
)
    requires
        lie_between(text, nodes, gaps),
    ensures
        stand_apart(text, selected_of(nodes, text, account)),
        applied_in_turn(
            text,
            back_to_front(
                edits_of_nodes(text, uri, selected_of(nodes, text, account), account, new_name),
            ),
        ) == laid_out(gaps, renamed_names(names_of(text, nodes), account, new_name)),
{
    lemma_layout(text, nodes, gaps);
    let n = nodes.len() as int;
    let names = names_of(text, nodes);
    let results = renamed_names(names, account, new_name);
    let selected = selected_of(nodes, text, account);
    let edits = edits_of_nodes(text, uri, selected, account, new_name);
    assert(nodes.take(n) =~= nodes);
    assert(names.take(n) =~= names);
    assert(results.take(n) =~= results);
    assert(gaps.take(n + 1) =~= gaps);
    lemma_selected_in_order(text, nodes, gaps, account, n);
    assert forall|i: int, j: int|
        0 <= i < selected.len() && 0 <= j < selected.len() && i != j implies nodes_apart(
        #[trigger] selected[i],
        #[trigger] selected[j],
    ) by {
        assert(i < j ==> selected[i].end_byte <= selected[j].start_byte);
        assert(j < i ==> selected[j].end_byte <= selected[i].start_byte);
    }
    law_account_edits_fit_together(text, uri, selected, account, new_name);
    assert forall|i: int, j: int| 0 <= i < j < edits.len() implies (
    #[trigger] edits[i]).range.start.before((#[trigger] edits[j]).range.start) by {
        assert(selected[i].end_byte <= selected[j].start_byte);
        lemma_ranges_follow_bytes(text, selected[i], selected[j]);
        assert(not_empty(edits[i].range));
    }
    law_ordered_edits_are_reversed(edits);
    law_edits_apply_in_turn(text, edits);
    lemma_replaced_up_to(text, nodes, gaps, uri, account, new_name, n);
}

/// The text of a document after the edits that `changes` hold under its key, applied in turn.
pub open spec fn after_changes(
    text: Seq<char>,
    changes: Map<Seq<char>, Seq<TextEditView>>,
    key: Seq<char>,
) -> Seq<char> {
    if changes.dom().contains(key) {
        applied_in_turn(text, changes[key])
    } else {
        text
    }
}

/// What a client makes of a file by a rename: the names that the rename is about have changed,
/// and nothing else.
pub proof fn law_file_after_rename(
    forest: Seq<(Seq<u8>, Arc<Tree>)>,
    open_docs: Seq<(Seq<u8>, Document)>,
    forest_content: Seq<(Seq<u8>, Arc<Rope>)>,
    account: Seq<char>,
    new_name: Seq<char>,
    f: int,
    text: Seq<char>,
    uri: Seq<char>,
    key: Seq<char>,
    gaps: Seq<Seq<char>>,
)
    requires
        has_own_key(forest, f, uri, key),
        content_at(open_docs, forest_content, forest[f].0) == Some(text),
        lie_between(text, account_nodes(file_captures(forest[f].1, text)), gaps),
    ensures
        after_changes(
            text,
            renaming(
                project_hits(forest, open_docs, forest_content, account, true),
                account,
                new_name,
            ),
            key,
        ) == laid_out(
            gaps,
            renamed_names(
                names_of(text, account_nodes(file_captures(forest[f].1, text))),
                account,
                new_name,
            ),
        ),
{
    let captures = file_captures(forest[f].1, text);
    let nodes = account_nodes(captures);
    let selected = selected_of(nodes, text, account);
    law_rename_rewrites_each_file(
        forest,
        open_docs,
        forest_content,
        account,
        new_name,
        f,
        text,
        uri,
        key,
    );
    lemma_selected_of_captures(captures, text, account);
    law_rename_changes_names_only(text, nodes, gaps, uri, account, new_name);
    if selected.len() == 0 {
        let none = back_to_front(edits_of_nodes(text, uri, selected, account, new_name));
        assert(none.len() == 0);
    }
}

proof fn lemma_names_come_back(names: Seq<Seq<char>>, account: Seq<char>, new_name: Seq<char>)
    requires
        forall|i: int| 0 <= i < names.len() ==> !selects(new_name, true, #[trigger] names[i]),
    ensures
        renamed_names(renamed_names(names, account, new_name), new_name, account) == names,
{
    let results = renamed_names(names, account, new_name);
    assert forall|i: int| 0 <= i < names.len() implies #[trigger] renamed_names(
        results,
        new_name,
        account,
    )[i] == names[i] by {
        if selects(account, true, names[i]) {
            law_rename_back(account, new_name, true, names[i]);
        } else {
            assert(!selects(new_name, true, names[i]));
        }
    }
    assert(renamed_names(results, new_name, account) =~= names);
}

/// The accounts of the file `f`, over the content that it has.
pub open spec fn accounts_of(snapshot: Snapshot, f: int) -> Seq<NodeView> {
    account_nodes(file_captures(snapshot.forest.entries()[f].1, text_of(snapshot, f)))
}

/// The content of the file `f`.
pub open spec fn text_of(snapshot: Snapshot, f: int) -> Seq<char> {
    content_at(
        snapshot.open_docs.entries(),
        snapshot.forest_content.entries(),
        snapshot.forest.entries()[f].0,
    )->0
}

/// Whether the file `f` has content and, under a URI and a key of its own, the given gaps around
/// its accounts.
pub open spec fn is_laid_out(
    snapshot: Snapshot,
    f: int,
    uri: Seq<char>,
    key: Seq<char>,
    gaps: Seq<Seq<char>>,
) -> bool {
    &&& has_own_key(snapshot.forest.entries(), f, uri, key)
    &&& content_at(
        snapshot.open_docs.entries(),
        snapshot.forest_content.entries(),
        snapshot.forest.entries()[f].0,
    ) is Some
    &&& lie_between(text_of(snapshot, f), accounts_of(snapshot, f), gaps)
}

/// The rename back undoes a rename, in each file. `before` is the project at the time of a rename
/// of `account` to `new_name`, and `after` the project once the client has applied the edits and
/// the files are parsed anew, with each account in its place between the same gaps. Where no
/// account of the file had the new name or lay below it, a rename back to `account`, asked for at
/// an account that now has the new name, gives edits that restore the text of the file.
pub proof fn law_rename_back_restores_the_file(
    before: Snapshot,
    after: Snapshot,
    uri: Seq<char>,
    position: Position,
    back_uri: Seq<char>,
    back_position: Position,
    account: Seq<char>,
    new_name: Seq<char>,
    f: int,
    g: int,
    file: Seq<char>,
    key: Seq<char>,
    gaps: Seq<Seq<char>>,
)
    requires
        trees_fit(before),
        trees_fit(after),
        prepared_rename(before, uri, position) matches Ok(Some(offer)) && offer.placeholder
            == account,
        prepared_rename(after, back_uri, back_position) matches Ok(Some(offer))
            && offer.placeholder == new_name,
        is_laid_out(before, f, file, key, gaps),
        is_laid_out(after, g, file, key, gaps),
        rename_answer(before, uri, position, new_name) matches Ok(Some(Some(changes))) && text_of(
            after,
            g,
        ) == after_changes(text_of(before, f), changes, key),
        names_of(text_of(after, g), accounts_of(after, g)) == renamed_names(
            names_of(text_of(before, f), accounts_of(before, f)),
            account,
            new_name,
        ),
        forall|i: int|
            0 <= i < accounts_of(before, f).len() ==> !selects(
                new_name,
                true,
                node_text_of(text_of(before, f), #[trigger] accounts_of(before, f)[i]),
            ),
    ensures
        rename_answer(after, back_uri, back_position, account) matches Ok(Some(Some(changes)))
            && after_changes(text_of(after, g), changes, key) == text_of(before, f),
{
    lemma_layout(text_of(before, f), accounts_of(before, f), gaps);
    let names = names_of(text_of(before, f), accounts_of(before, f));
    assert forall|i: int| 0 <= i < names.len() implies !selects(
        new_name,
        true,
        #[trigger] names[i],
    ) by {
        let node = accounts_of(before, f)[i];
        assert(names[i] == node_text_of(text_of(before, f), node));
    }
    lemma_names_come_back(names, account, new_name);
    law_rename_does_what_was_prepared(after, back_uri, back_position, account);
    law_file_after_rename(
        after.forest.entries(),
        after.open_docs.entries(),
        after.forest_content.entries(),
        new_name,
        account,
        g,
        text_of(after, g),
        file,
        key,
        gaps,
    );
}

} // verus!
