//! What edits make of a document when a client applies them. Here too, as everywhere in the
//! library, a line feed ends a line and nothing else does; the protocol would also count a
//! carriage return on its own.

use crate::changes::{
    edit_at, edits_in, law_edits_of_a_document, lemma_edits_in_concat, renaming,
};
use crate::edits::{
    apart, back_to_front, law_edits_sent_back_to_front, law_no_edit_moves_a_later_one, not_empty,
    sending_order,
};
use crate::lsp::{LocationView, Position, TextEditView};
use crate::files::Document;
use crate::matches::{
    content_at, file_captures, file_hits, hit, law_places_are_selected_nodes,
    law_place_has_account, lemma_uri_of_places, project_hits, selected_nodes,
};
use crate::syntax::NodeView;
use crate::text::{
    law_lines_join_to_text, law_range_covers_text, lemma_encode_concat, lemma_lens_monotone,
    lemma_line_in_text, lemma_utf16_len_at_most_utf8_len, lines_of, node_on_line, node_text_of,
    range_on, text_above, utf16_len, utf8_len,
};
use crate::uri::{file_uri, parsed_uri};
use ropey::Rope;
use std::sync::Arc;
use tree_sitter_beancount::tree_sitter::Tree;
use vstd::prelude::*;

verus! {

/// Whether a position stands after the first `i` characters of a text.
pub open spec fn stands_at(text: Seq<char>, i: int, position: Position) -> bool {
    let lines = lines_of(text.take(i));
    &&& 0 <= i <= text.len()
    &&& position.line == lines.len() - 1
    &&& position.character == utf16_len(lines.last())
}

/// Whether a text has a place for a position.
pub open spec fn has_place(text: Seq<char>, position: Position) -> bool {
    exists|i: int| stands_at(text, i, position)
}

/// The number of characters before a position.
pub open spec fn offset_of(text: Seq<char>, position: Position) -> int {
    choose|i: int| stands_at(text, i, position)
}

/// The text with the stretch of an edit replaced.
pub open spec fn applied(text: Seq<char>, edit: TextEditView) -> Seq<char> {
    text.take(offset_of(text, edit.range.start)) + edit.new_text + text.skip(
        offset_of(text, edit.range.end),
    )
}

/// The text after one edit after the other: each finds its stretch in the text that those
/// before it left.
pub open spec fn applied_in_turn(text: Seq<char>, edits: Seq<TextEditView>) -> Seq<char>
    decreases edits.len(),
{
    if edits.len() == 0 {
        text
    } else {
        applied_in_turn(applied(text, edits[0]), edits.drop_first())
    }
}

/// The first `end` characters of a text with the stretches of all edits replaced at once: each
/// stretch is that of the text as it was. The edits come from the back to the front.
pub open spec fn replaced_at_once(text: Seq<char>, edits: Seq<TextEditView>, end: int) -> Seq<char>
    decreases edits.len(),
{
    if edits.len() == 0 {
        text.take(end)
    } else {
        let edit = edits[0];
        replaced_at_once(text, edits.drop_first(), offset_of(text, edit.range.start))
            + edit.new_text + text.subrange(offset_of(text, edit.range.end), end)
    }
}

pub(crate) proof fn lemma_later_offset_stands_behind(
    text: Seq<char>,
    i: int,
    p: Position,
    j: int,
    q: Position,
)
    requires
        stands_at(text, i, p),
        stands_at(text, j, q),
        i < j,
    ensures
        p.before(q),
{
    lemma_lines_grow(text, i, j);
}

proof fn lemma_lines_grow(text: Seq<char>, i: int, j: int)
    requires
        0 <= i < j <= text.len(),
    ensures
        ({
            let one = lines_of(text.take(i));
            let other = lines_of(text.take(j));
            ||| one.len() < other.len()
            ||| one.len() == other.len() && utf16_len(one.last()) < utf16_len(other.last())
        }),
    decreases j,
{
    let before = lines_of(text.take(j - 1));
    let c = text[j - 1];
    assert(text.take(j).drop_last() =~= text.take(j - 1));
    assert(text.take(j).last() == c);
    law_lines_join_to_text(text.take(j - 1));
    assert(before.last().push(c).drop_last() =~= before.last());
    if i < j - 1 {
        lemma_lines_grow(text, i, j - 1);
    }
}

pub(crate) proof fn lemma_offset(text: Seq<char>, i: int, position: Position)
    requires
        stands_at(text, i, position),
    ensures
        has_place(text, position),
        offset_of(text, position) == i,
{
    let chosen = offset_of(text, position);
    if i < chosen {
        lemma_later_offset_stands_behind(text, i, position, chosen, position);
    }
    if chosen < i {
        lemma_later_offset_stands_behind(text, chosen, position, i, position);
    }
}

/// Texts that begin alike have the same places up to there.
proof fn lemma_same_place_in_common_prefix(
    text: Seq<char>,
    other: Seq<char>,
    end: Position,
    position: Position,
)
    requires
        has_place(text, end),
        has_place(text, position),
        !end.before(position),
        offset_of(text, end) <= other.len(),
        other.take(offset_of(text, end)) == text.take(offset_of(text, end)),
    ensures
        0 <= offset_of(text, position) <= offset_of(text, end) <= text.len(),
        has_place(other, position),
        offset_of(other, position) == offset_of(text, position),
{
    let o = offset_of(text, end);
    let i = offset_of(text, position);
    if o < i {
        lemma_later_offset_stands_behind(text, o, end, i, position);
    }
    assert(text.take(i) =~= text.take(o).take(i));
    assert(other.take(i) =~= other.take(o).take(i));
    assert(stands_at(other, i, position));
    lemma_offset(other, i, position);
}

/// Whether edits lie in a text before `end`, from the back to the front, each of them in front
/// of those before it.
pub open spec fn lie_in_turn(text: Seq<char>, edits: Seq<TextEditView>, end: Position) -> bool
    decreases edits.len(),
{
    edits.len() > 0 ==> {
        let range = edits[0].range;
        &&& has_place(text, range.start)
        &&& has_place(text, range.end)
        &&& !range.end.before(range.start)
        &&& !end.before(range.end)
        &&& lie_in_turn(text, edits.drop_first(), range.start)
    }
}

proof fn lemma_applied_before(
    text: Seq<char>,
    current: Seq<char>,
    edits: Seq<TextEditView>,
    end: Position,
)
    requires
        has_place(text, end),
        offset_of(text, end) <= current.len(),
        current.take(offset_of(text, end)) == text.take(offset_of(text, end)),
        lie_in_turn(text, edits, end),
    ensures
        applied_in_turn(current, edits) == replaced_at_once(text, edits, offset_of(text, end))
            + current.skip(offset_of(text, end)),
    decreases edits.len(),
{
    let o = offset_of(text, end);
    if edits.len() == 0 {
        assert(current.take(o) + current.skip(o) =~= current);
    } else {
        let edit = edits[0];
        let rest = edits.drop_first();
        let from = edit.range.start;
        let to = edit.range.end;
        lemma_same_place_in_common_prefix(text, current, end, to);
        assert(!end.before(from));
        lemma_same_place_in_common_prefix(text, current, end, from);
        let i = offset_of(text, from);
        let j = offset_of(text, to);
        if j < i {
            lemma_later_offset_stands_behind(text, j, to, i, from);
        }
        let next = applied(current, edit);
        assert(current.take(i) =~= current.take(o).take(i));
        assert(text.take(i) =~= text.take(o).take(i));
        assert(next.take(i) =~= text.take(i));
        lemma_applied_before(text, next, rest, from);
        assert(next.skip(i) =~= edit.new_text + current.skip(j));
        assert(current.skip(j) =~= current.take(o).skip(j) + current.skip(o));
        assert(text.take(o).skip(j) =~= text.subrange(j, o));
        assert(replaced_at_once(text, rest, i) + next.skip(i) =~= replaced_at_once(text, edits, o)
            + current.skip(o));
    }
}

/// Whether edits have places in a text, none of them is empty, and no two overlap.
pub open spec fn fit_together(text: Seq<char>, edits: Seq<TextEditView>) -> bool {
    &&& forall|i: int|
        0 <= i < edits.len() ==> {
            let range = (#[trigger] edits[i]).range;
            has_place(text, range.start) && has_place(text, range.end) && not_empty(range)
        }
    &&& forall|i: int, j: int|
        0 <= i < edits.len() && 0 <= j < edits.len() && i != j ==> apart(
            (#[trigger] edits[i]).range,
            (#[trigger] edits[j]).range,
        )
}

proof fn lemma_sent_edits_lie_in_turn(
    text: Seq<char>,
    edits: Seq<TextEditView>,
    k: int,
    end: Position,
)
    requires
        fit_together(text, edits),
        0 <= k <= edits.len(),
        k < edits.len() ==> !end.before(back_to_front(edits)[k].range.end),
    ensures
        lie_in_turn(text, back_to_front(edits).skip(k), end),
    decreases edits.len() - k,
{
    let sent = back_to_front(edits);
    law_edits_sent_back_to_front(edits);
    law_no_edit_moves_a_later_one(edits);
    let order = choose|order: Seq<int>|
        sending_order(edits, order) && sent == Seq::new(edits.len(), |k: int| edits[order[k]]);
    if k < sent.len() {
        assert(sent[k] == edits[order[k]]);
        assert(sent.skip(k)[0] == sent[k]);
        assert(sent.skip(k).drop_first() =~= sent.skip(k + 1));
        if k + 1 < sent.len() {
            assert(!sent[k].range.start.before(sent[k + 1].range.end));
        }
        lemma_sent_edits_lie_in_turn(text, edits, k + 1, sent[k].range.start);
    }
}

/// The order in which edits are sent lets a client apply them one after the other: the outcome
/// is that of replacing all stretches of the document at once.
pub proof fn law_edits_apply_in_turn(text: Seq<char>, edits: Seq<TextEditView>)
    requires
        fit_together(text, edits),
    ensures
        applied_in_turn(text, back_to_front(edits)) == replaced_at_once(
            text,
            back_to_front(edits),
            text.len() as int,
        ),
{
    let sent = back_to_front(edits);
    assert(sent.len() == edits.len());
    if sent.len() == 0 {
        assert(text.take(text.len() as int) =~= text);
    } else {
        law_edits_sent_back_to_front(edits);
        let order = choose|order: Seq<int>|
            sending_order(edits, order) && sent == Seq::new(edits.len(), |k: int| edits[order[k]]);
        assert(sent[0] == edits[order[0]]);
        let end = sent[0].range.end;
        let o = offset_of(text, end);
        assert(stands_at(text, o, end));
        lemma_sent_edits_lie_in_turn(text, edits, 0, end);
        assert(sent.skip(0) =~= sent);
        lemma_applied_before(text, text, sent, end);
        assert(text.subrange(o, o) + text.skip(o) =~= text.subrange(o, text.len() as int));
        assert(replaced_at_once(text, sent, o) + text.skip(o) =~= replaced_at_once(
            text,
            sent,
            text.len() as int,
        ));
    }
}

proof fn lemma_lines_of_beginning(lines: Seq<Seq<char>>, row: int, part: Seq<char>)
    requires
        0 <= row <= lines.len(),
        forall|i: int| 0 <= i < row ==> !(#[trigger] lines[i]).contains('\n'),
        !part.contains('\n'),
    ensures
        lines_of(text_above(lines, row) + part) == lines.take(row).push(part),
    decreases row, part.len(),
{
    let text = text_above(lines, row) + part;
    if part.len() > 0 {
        let c = part.last();
        assert(part[part.len() - 1] == c);
        assert(!part.drop_last().contains('\n')) by {
            if part.drop_last().contains('\n') {
                let k = choose|k: int| 0 <= k < part.len() - 1 && part.drop_last()[k] == '\n';
                assert(part[k] == '\n');
            }
        }
        lemma_lines_of_beginning(lines, row, part.drop_last());
        assert(text.drop_last() =~= text_above(lines, row) + part.drop_last());
        assert(part.drop_last().push(c) =~= part);
        assert(lines_of(text) =~= lines.take(row).push(part));
    } else if row > 0 {
        let line = lines[row - 1];
        lemma_lines_of_beginning(lines, row - 1, line);
        assert(text.drop_last() =~= text_above(lines, row - 1) + line);
        assert(text.last() == '\n');
        assert(lines.take(row) =~= lines.take(row - 1).push(line));
        assert(part =~= Seq::<char>::empty());
        assert(lines_of(text) =~= lines.take(row).push(part));
    } else {
        assert(text =~= Seq::<char>::empty());
        assert(part =~= Seq::<char>::empty());
        assert(lines_of(text) =~= lines.take(row).push(part));
    }
}

/// The edit of an account that stands on one line replaces exactly the name of the account.
pub proof fn law_edit_covers_the_name(
    text: Seq<char>,
    uri: Seq<char>,
    node: NodeView,
    row: int,
    from: int,
    to: int,
    account: Seq<char>,
    new_name: Seq<char>,
)
    requires
        node_on_line(text, node, row, from, to),
        from < to,
    ensures
        ({
            let edit = edit_at(hit(text, uri, node), account, new_name);
            &&& has_place(text, edit.range.start)
            &&& has_place(text, edit.range.end)
            &&& not_empty(edit.range)
            &&& text.subrange(
                offset_of(text, edit.range.start),
                offset_of(text, edit.range.end),
            ) == node_text_of(text, node)
        }),
{
    let lines = lines_of(text);
    let line = lines[row];
    let above = text_above(lines, row);
    let edit = edit_at(hit(text, uri, node), account, new_name);
    law_range_covers_text(text, node, row, from, to);
    law_lines_join_to_text(text);
    let rest = lemma_line_in_text(lines, row, lines.len() - 1);
    lemma_utf16_len_at_most_utf8_len(line, from);
    lemma_utf16_len_at_most_utf8_len(line, to);
    lemma_lens_monotone(line, from, to);
    let i = above.len() + from;
    let j = above.len() + to;
    lemma_stands_on_line(text, lines, row, from, edit.range.start);
    lemma_stands_on_line(text, lines, row, to, edit.range.end);
    lemma_offset(text, i, edit.range.start);
    lemma_offset(text, j, edit.range.end);
    assert(text.subrange(i, j) =~= line.subrange(from, to));
}

proof fn lemma_stands_on_line(
    text: Seq<char>,
    lines: Seq<Seq<char>>,
    row: int,
    k: int,
    position: Position,
)
    requires
        lines == lines_of(text),
        0 <= row < lines.len(),
        0 <= k <= lines[row].len(),
        position.line == row,
        position.character == utf16_len(lines[row].take(k)),
    ensures
        stands_at(text, text_above(lines, row).len() + k, position),
{
    let line = lines[row];
    let above = text_above(lines, row);
    let part = line.take(k);
    law_lines_join_to_text(text);
    let rest = lemma_line_in_text(lines, row, lines.len() - 1);
    assert(text.take(above.len() + k) =~= above + part);
    assert(!part.contains('\n')) by {
        assert(!line.contains('\n'));
        if part.contains('\n') {
            let i = choose|i: int| 0 <= i < part.len() && part[i] == '\n';
            assert(line[i] == '\n');
        }
    }
    lemma_lines_of_beginning(lines, row, part);
}

/// Whether a node covers at least one character, all on one line, as its bytes and its points
/// both say.
pub open spec fn on_some_line(text: Seq<char>, node: NodeView) -> bool {
    exists|row: int, from: int, to: int|
        #[trigger] node_on_line(text, node, row, from, to) && from < to
}

/// Whether two nodes have no byte in common.
pub open spec fn nodes_apart(one: NodeView, other: NodeView) -> bool {
    one.end_byte <= other.start_byte || other.end_byte <= one.start_byte
}

/// Whether nodes each stand on a line of a text, and no two share a byte.
pub open spec fn stand_apart(text: Seq<char>, nodes: Seq<NodeView>) -> bool {
    &&& forall|i: int| 0 <= i < nodes.len() ==> on_some_line(text, #[trigger] nodes[i])
    &&& forall|i: int, j: int|
        0 <= i < nodes.len() && 0 <= j < nodes.len() && i != j ==> nodes_apart(
            #[trigger] nodes[i],
            #[trigger] nodes[j],
        )
}

/// The edits that rename accounts at nodes of one document.
pub open spec fn edits_of_nodes(
    text: Seq<char>,
    uri: Seq<char>,
    nodes: Seq<NodeView>,
    account: Seq<char>,
    new_name: Seq<char>,
) -> Seq<TextEditView> {
    nodes.map_values(|node: NodeView| edit_at(hit(text, uri, node), account, new_name))
}

pub(crate) proof fn lemma_offsets_of_node(text: Seq<char>, node: NodeView) -> (offsets: (int, int))
    requires
        on_some_line(text, node),
    ensures
        ({
            let range = range_on(lines_of(text), node);
            &&& stands_at(text, offsets.0, range.start)
            &&& stands_at(text, offsets.1, range.end)
            &&& node.start_byte == utf8_len(text.take(offsets.0))
            &&& node.end_byte == utf8_len(text.take(offsets.1))
        }),
{
    let (row, from, to) = choose|row: int, from: int, to: int|
        #[trigger] node_on_line(text, node, row, from, to) && from < to;
    let lines = lines_of(text);
    let line = lines[row];
    let above = text_above(lines, row);
    let range = range_on(lines, node);
    law_range_covers_text(text, node, row, from, to);
    law_lines_join_to_text(text);
    let rest = lemma_line_in_text(lines, row, lines.len() - 1);
    lemma_utf16_len_at_most_utf8_len(line, from);
    lemma_utf16_len_at_most_utf8_len(line, to);
    lemma_stands_on_line(text, lines, row, from, range.start);
    lemma_stands_on_line(text, lines, row, to, range.end);
    assert(text.take(above.len() + from) =~= above + line.take(from));
    assert(text.take(above.len() + to) =~= above + line.take(to));
    lemma_encode_concat(above, line.take(from));
    lemma_encode_concat(above, line.take(to));
    (above.len() + from, above.len() + to)
}

pub(crate) proof fn lemma_ranges_follow_bytes(text: Seq<char>, one: NodeView, other: NodeView)
    requires
        on_some_line(text, one),
        on_some_line(text, other),
        one.end_byte <= other.start_byte,
    ensures
        !range_on(lines_of(text), other).start.before(range_on(lines_of(text), one).end),
{
    let (_, i) = lemma_offsets_of_node(text, one);
    let (j, _) = lemma_offsets_of_node(text, other);
    let end = range_on(lines_of(text), one).end;
    let start = range_on(lines_of(text), other).start;
    if j < i {
        lemma_lens_monotone(text, j, i);
    } else if i < j {
        lemma_later_offset_stands_behind(text, i, end, j, start);
    }
}

/// The edits of accounts that stand on lines and share no byte fit together, so that a client can
/// apply them one after the other.
pub proof fn law_account_edits_fit_together(
    text: Seq<char>,
    uri: Seq<char>,
    nodes: Seq<NodeView>,
    account: Seq<char>,
    new_name: Seq<char>,
)
    requires
        stand_apart(text, nodes),
    ensures
        fit_together(text, edits_of_nodes(text, uri, nodes, account, new_name)),
{
    let edits = edits_of_nodes(text, uri, nodes, account, new_name);
    assert forall|i: int| 0 <= i < edits.len() implies ({
        let range = (#[trigger] edits[i]).range;
        has_place(text, range.start) && has_place(text, range.end) && not_empty(range)
    }) by {
        let node = nodes[i];
        let (row, from, to) = choose|row: int, from: int, to: int|
            #[trigger] node_on_line(text, node, row, from, to) && from < to;
        law_edit_covers_the_name(text, uri, node, row, from, to, account, new_name);
    }
    assert forall|i: int, j: int|
        0 <= i < edits.len() && 0 <= j < edits.len() && i != j implies apart(
        (#[trigger] edits[i]).range,
        (#[trigger] edits[j]).range,
    ) by {
        assert(nodes_apart(nodes[i], nodes[j]));
        if nodes[i].end_byte <= nodes[j].start_byte {
            lemma_ranges_follow_bytes(text, nodes[i], nodes[j]);
        } else {
            lemma_ranges_follow_bytes(text, nodes[j], nodes[i]);
        }
    }
}

proof fn lemma_edits_elsewhere(
    hits: Seq<(LocationView, Seq<char>)>,
    uri: Seq<char>,
    account: Seq<char>,
    new_name: Seq<char>,
)
    requires
        forall|i: int| 0 <= i < hits.len() ==> (#[trigger] hits[i]).0.uri != uri,
    ensures
        edits_in(hits, uri, account, new_name) == Seq::<TextEditView>::empty(),
    decreases hits.len(),
{
    if hits.len() > 0 {
        lemma_edits_elsewhere(hits.drop_last(), uri, account, new_name);
    }
}

proof fn lemma_edits_here(
    text: Seq<char>,
    uri: Seq<char>,
    nodes: Seq<NodeView>,
    account: Seq<char>,
    new_name: Seq<char>,
)
    ensures
        edits_in(
            nodes.map_values(|node: NodeView| hit(text, uri, node)),
            uri,
            account,
            new_name,
        ) == edits_of_nodes(text, uri, nodes, account, new_name),
    decreases nodes.len(),
{
    let hits = nodes.map_values(|node: NodeView| hit(text, uri, node));
    if nodes.len() > 0 {
        lemma_edits_here(text, uri, nodes.drop_last(), account, new_name);
        assert(hits.drop_last() =~= nodes.drop_last().map_values(
            |node: NodeView| hit(text, uri, node),
        ));
    }
    assert(edits_in(hits, uri, account, new_name) =~= edits_of_nodes(
        text,
        uri,
        nodes,
        account,
        new_name,
    ));
}

/// Whether `uri` is the URI of the file `f` and of no other file.
pub open spec fn only_uri_of(forest: Seq<(Seq<u8>, Arc<Tree>)>, f: int, uri: Seq<char>) -> bool {
    forall|g: int|
        0 <= g < forest.len() ==> (file_uri((#[trigger] forest[g]).0) == Some(uri) <==> g == f)
}

proof fn lemma_edits_in_project(
    forest: Seq<(Seq<u8>, Arc<Tree>)>,
    open_docs: Seq<(Seq<u8>, Document)>,
    forest_content: Seq<(Seq<u8>, Arc<Rope>)>,
    account: Seq<char>,
    new_name: Seq<char>,
    f: int,
    tree: Arc<Tree>,
    text: Seq<char>,
    uri: Seq<char>,
)
    requires
        only_uri_of(forest, f, uri),
        0 <= f < forest.len() ==> forest[f].1 == tree && content_at(
            open_docs,
            forest_content,
            forest[f].0,
        ) == Some(text),
    ensures
        edits_in(
            project_hits(forest, open_docs, forest_content, account, true),
            uri,
            account,
            new_name,
        ) == if 0 <= f < forest.len() {
            edits_of_nodes(
                text,
                uri,
                selected_nodes(file_captures(tree, text), text, account, true),
                account,
                new_name,
            )
        } else {
            seq![]
        },
    decreases forest.len(),
{
    if forest.len() > 0 {
        let fewer = forest.drop_last();
        let (path, last) = forest.last();
        let content = content_at(open_docs, forest_content, path);
        let before = project_hits(fewer, open_docs, forest_content, account, true);
        let found = file_hits(path, last, content, account, true);
        assert forall|g: int| 0 <= g < fewer.len() implies (file_uri((#[trigger] fewer[g]).0) == Some(
            uri,
        ) <==> g == f) by {
            assert(fewer[g] == forest[g]);
        }
        assert(forest[forest.len() - 1] == (path, last));
        lemma_edits_in_project(
            fewer,
            open_docs,
            forest_content,
            account,
            new_name,
            f,
            tree,
            text,
            uri,
        );
        lemma_edits_in_concat(before, found, uri, account, new_name);
        let here = edits_in(before, uri, account, new_name);
        if f == forest.len() - 1 {
            let nodes = selected_nodes(file_captures(tree, text), text, account, true);
            law_places_are_selected_nodes(file_captures(tree, text), text, uri, account, true);
            lemma_edits_here(text, uri, nodes, account, new_name);
            assert(here + edits_of_nodes(text, uri, nodes, account, new_name) =~= edits_of_nodes(
                text,
                uri,
                nodes,
                account,
                new_name,
            ));
        } else {
            if content is Some {
                lemma_uri_of_places(
                    file_captures(last, content->0),
                    content->0,
                    file_uri(path),
                    account,
                    true,
                );
            }
            lemma_edits_elsewhere(found, uri, account, new_name);
            assert(here + Seq::<TextEditView>::empty() =~= here);
        }
    }
}

/// Whether the file `f` has the URI `uri` with the normal form `key`, which no other file's URI
/// has.
pub open spec fn has_own_key(
    forest: Seq<(Seq<u8>, Arc<Tree>)>,
    f: int,
    uri: Seq<char>,
    key: Seq<char>,
) -> bool {
    &&& 0 <= f < forest.len()
    &&& file_uri(forest[f].0) == Some(uri)
    &&& parsed_uri(uri) == Some(key)
    &&& forall|g: int|
        0 <= g < forest.len() && g != f && file_uri((#[trigger] forest[g]).0) is Some
            ==> parsed_uri(file_uri(forest[g].0)->0) != Some(key)
}

pub(crate) proof fn lemma_only_file_of_key(
    forest: Seq<(Seq<u8>, Arc<Tree>)>,
    open_docs: Seq<(Seq<u8>, Document)>,
    forest_content: Seq<(Seq<u8>, Arc<Rope>)>,
    account: Seq<char>,
    f: int,
    uri: Seq<char>,
    key: Seq<char>,
)
    requires
        has_own_key(forest, f, uri, key),
    ensures
        ({
            let hits = project_hits(forest, open_docs, forest_content, account, true);
            forall|i: int|
                0 <= i < hits.len() && parsed_uri((#[trigger] hits[i]).0.uri) == Some(key)
                    ==> hits[i].0.uri == uri
        }),
{
    let hits = project_hits(forest, open_docs, forest_content, account, true);
    assert forall|i: int|
        0 <= i < hits.len() && parsed_uri((#[trigger] hits[i]).0.uri) == Some(
            key,
        ) implies hits[i].0.uri == uri by {
        let (g, _) = law_place_has_account(
            forest,
            open_docs,
            forest_content,
            account,
            true,
            i,
        );
        assert(file_uri(forest[g].0) == Some(hits[i].0.uri));
    }
}

/// A rename rewrites each file of a project: where the URI of a file has a normal form that no
/// other file's URI has, the client gets, under that form, one edit for each account of the file
/// that is the renamed one or lies below it, and nothing where there is none. And where those
/// accounts stand on lines of the file and share no byte, the edits applied in turn replace all
/// of them, each as it stood in the file.
pub proof fn law_rename_rewrites_each_file(
    forest: Seq<(Seq<u8>, Arc<Tree>)>,
    open_docs: Seq<(Seq<u8>, Document)>,
    forest_content: Seq<(Seq<u8>, Arc<Rope>)>,
    account: Seq<char>,
    new_name: Seq<char>,
    f: int,
    text: Seq<char>,
    uri: Seq<char>,
    key: Seq<char>,
)
    requires
        has_own_key(forest, f, uri, key),
        content_at(open_docs, forest_content, forest[f].0) == Some(text),
    ensures
        ({
            let hits = project_hits(forest, open_docs, forest_content, account, true);
            let changes = renaming(hits, account, new_name);
            let nodes = selected_nodes(file_captures(forest[f].1, text), text, account, true);
            let edits = edits_of_nodes(text, uri, nodes, account, new_name);
            &&& changes.dom().contains(key) <==> nodes.len() > 0
            &&& nodes.len() > 0 ==> changes[key] == back_to_front(edits)
            &&& nodes.len() > 0 && stand_apart(text, nodes) ==> applied_in_turn(text, changes[key])
                == replaced_at_once(text, changes[key], text.len() as int)
        }),
{
    let hits = project_hits(forest, open_docs, forest_content, account, true);
    let nodes = selected_nodes(file_captures(forest[f].1, text), text, account, true);
    let edits = edits_of_nodes(text, uri, nodes, account, new_name);
    assert(only_uri_of(forest, f, uri));
    lemma_edits_in_project(
        forest,
        open_docs,
        forest_content,
        account,
        new_name,
        f,
        forest[f].1,
        text,
        uri,
    );
    lemma_only_file_of_key(forest, open_docs, forest_content, account, f, uri, key);
    law_edits_of_a_document(hits, account, new_name, uri, key);
    if stand_apart(text, nodes) {
        law_account_edits_fit_together(text, uri, nodes, account, new_name);
        law_edits_apply_in_turn(text, edits);
    }
}

} // verus!
