//! Lines and columns of a text: between the UTF-16 offsets of the protocol and the byte
//! columns of a syntax tree.

use crate::lsp::{Position, Range};
use crate::syntax::{NodeView, Point, SyntaxNode};
use vstd::prelude::*;
use vstd::utf8::*;

verus! {

/// How many UTF-16 code units a character takes.
pub open spec fn utf16_units(c: char) -> nat {
    if (c as u32) < 0x1_0000 {
        1
    } else {
        2
    }
}

/// How many UTF-16 code units a text takes.
pub open spec fn utf16_len(text: Seq<char>) -> nat
    decreases text.len(),
{
    if text.len() == 0 {
        0
    } else {
        utf16_len(text.drop_last()) + utf16_units(text.last())
    }
}

/// How many bytes the UTF-8 form of a text takes.
pub open spec fn utf8_len(text: Seq<char>) -> nat {
    encode_utf8(text).len()
}

/// How many characters the longest prefix of `line` has that takes at most `units` UTF-16
/// code units.
pub open spec fn chars_in_units(line: Seq<char>, units: nat) -> nat
    decreases line.len(),
{
    if utf16_len(line) <= units {
        line.len()
    } else {
        chars_in_units(line.drop_last(), units)
    }
}

/// How many characters the longest prefix of `line` has that takes at most `bytes` bytes.
pub open spec fn chars_in_bytes(line: Seq<char>, bytes: nat) -> nat
    decreases line.len(),
{
    if utf8_len(line) <= bytes {
        line.len()
    } else {
        chars_in_bytes(line.drop_last(), bytes)
    }
}

/// The byte column of the UTF-16 offset `units` on `line`. An offset inside of a character
/// stands for the start of that character, one past the end for the end of the line.
pub open spec fn byte_column_of(line: Seq<char>, units: nat) -> nat {
    utf8_len(line.take(chars_in_units(line, units) as int))
}

/// The UTF-16 offset of the byte column `bytes` on `line`, by the same two rules.
pub open spec fn utf16_column_of(line: Seq<char>, bytes: nat) -> nat {
    utf16_len(line.take(chars_in_bytes(line, bytes) as int))
}

/// The lines of a text, as a syntax tree counts its rows: each line feed ends one.
pub open spec fn lines_of(text: Seq<char>) -> Seq<Seq<char>>
    decreases text.len(),
{
    if text.len() == 0 {
        seq![seq![]]
    } else {
        let lines = lines_of(text.drop_last());
        if text.last() == '\n' {
            lines.push(seq![])
        } else {
            lines.drop_last().push(lines.last().push(text.last()))
        }
    }
}

pub(crate) proof fn lemma_encode_concat(a: Seq<char>, b: Seq<char>)
    ensures
        encode_utf8(a + b) == encode_utf8(a) + encode_utf8(b),
    decreases a.len(),
{
    if a.len() == 0 {
        assert(a + b =~= b);
        assert(encode_utf8(a) + encode_utf8(b) =~= encode_utf8(b));
    } else {
        assert((a + b).drop_first() =~= a.drop_first() + b);
        lemma_encode_concat(a.drop_first(), b);
        assert(encode_utf8(a + b) =~= encode_utf8(a) + encode_utf8(b));
    }
}

proof fn lemma_utf8_len_push(text: Seq<char>, c: char)
    ensures
        utf8_len(text.push(c)) == utf8_len(text) + encode_scalar(c as u32).len(),
{
    let one = seq![c];
    assert(text.push(c) =~= text + one);
    lemma_encode_concat(text, one);
    assert(one.drop_first() =~= Seq::<char>::empty());
    reveal_with_fuel(encode_utf8, 2);
}

proof fn lemma_lens_of_next(line: Seq<char>, i: int)
    requires
        0 <= i < line.len(),
    ensures
        utf16_len(line.take(i + 1)) == utf16_len(line.take(i)) + utf16_units(line[i]),
        utf8_len(line.take(i + 1)) == utf8_len(line.take(i)) + encode_scalar(line[i] as u32).len(),
{
    assert(line.take(i + 1).drop_last() =~= line.take(i));
    assert(line.take(i + 1) =~= line.take(i).push(line[i]));
    lemma_utf8_len_push(line.take(i), line[i]);
}

pub(crate) proof fn lemma_lens_monotone(line: Seq<char>, i: int, j: int)
    requires
        0 <= i <= j <= line.len(),
    ensures
        utf16_len(line.take(i)) + (j - i) <= utf16_len(line.take(j)),
        utf8_len(line.take(i)) + (j - i) <= utf8_len(line.take(j)),
    decreases j - i,
{
    if i < j {
        lemma_lens_monotone(line, i, j - 1);
        lemma_lens_of_next(line, j - 1);
    }
}

proof fn lemma_chars_in_units(line: Seq<char>, units: nat, k: int)
    requires
        0 <= k <= line.len(),
        utf16_len(line.take(k)) <= units,
        k < line.len() ==> units < utf16_len(line.take(k + 1)),
    ensures
        chars_in_units(line, units) == k,
    decreases line.len(),
{
    assert(line.take(line.len() as int) =~= line);
    if k < line.len() {
        lemma_lens_monotone(line, k + 1, line.len() as int);
        let shorter = line.drop_last();
        assert(shorter.take(k) =~= line.take(k));
        if k < shorter.len() {
            assert(shorter.take(k + 1) =~= line.take(k + 1));
        }
        lemma_chars_in_units(shorter, units, k);
    }
}

proof fn lemma_chars_in_bytes(line: Seq<char>, bytes: nat, k: int)
    requires
        0 <= k <= line.len(),
        utf8_len(line.take(k)) <= bytes,
        k < line.len() ==> bytes < utf8_len(line.take(k + 1)),
    ensures
        chars_in_bytes(line, bytes) == k,
    decreases line.len(),
{
    assert(line.take(line.len() as int) =~= line);
    if k < line.len() {
        lemma_lens_monotone(line, k + 1, line.len() as int);
        let shorter = line.drop_last();
        assert(shorter.take(k) =~= line.take(k));
        if k < shorter.len() {
            assert(shorter.take(k + 1) =~= line.take(k + 1));
        }
        lemma_chars_in_bytes(shorter, bytes, k);
    }
}

/// The number of UTF-16 code units of a character.
fn utf16_width(c: char) -> (width: u64)
    ensures
        width == utf16_units(c),
        1 <= width <= 2,
{
    if (c as u32) < 0x1_0000 {
        1
    } else {
        2
    }
}

/// The number of bytes of a character in UTF-8.
fn utf8_width(c: char) -> (width: u64)
    ensures
        width == encode_scalar(c as u32).len(),
        utf16_units(c) <= width <= 3 * utf16_units(c),
{
    let code: u32 = c as u32;
    if code < 0x80 {
        1
    } else if code < 0x800 {
        2
    } else if code < 0x1_0000 {
        3
    } else {
        4
    }
}

/// The characters of each line of `text`.
pub fn split_lines(text: &str) -> (lines: Vec<Vec<char>>)
    ensures
        lines.deep_view() == lines_of(text@),
        lines.len() > 0,
{
    let mut lines: Vec<Vec<char>> = Vec::new();
    let mut line: Vec<char> = Vec::new();
    assert(text@.take(0) =~= Seq::<char>::empty());
    assert(lines.deep_view().push(line@) =~= lines_of(text@.take(0)));
    for c in it: text.chars()
        invariant
            it.seq() == text@,
            lines.deep_view().push(line@) == lines_of(text@.take(it.index() as int)),
    {
        proof {
            assert(text@.take(it.index() + 1).drop_last() =~= text@.take(it.index() as int));
        }
        let ghost before = lines.deep_view();
        let ghost last = line@;
        assert(line.deep_view() =~= last);
        if c == '\n' {
            lines.push(line);
            line = Vec::new();
            assert(lines.deep_view() =~= before.push(last));
            assert(lines.deep_view().push(line@) =~= before.push(last).push(seq![]));
        } else {
            line.push(c);
            assert(before.push(last).drop_last() =~= before);
        }
    }
    assert(text@.take(text@.len() as int) =~= text@);
    let ghost before = lines.deep_view();
    let ghost last = line@;
    assert(line.deep_view() =~= last);
    lines.push(line);
    assert(lines.deep_view() =~= before.push(last));
    lines
}

/// The byte column of the UTF-16 offset `units` on `line`.
pub fn byte_column(line: &Vec<char>, units: u32) -> (column: u64)
    ensures
        column == byte_column_of(line@, units as nat),
{
    let mut i: usize = 0;
    let mut used: u64 = 0;
    let mut column: u64 = 0;
    assert(line@.take(0) =~= Seq::<char>::empty());
    while i < line.len()
        invariant
            i <= line.len(),
            used == utf16_len(line@.take(i as int)),
            used <= units,
            column == utf8_len(line@.take(i as int)),
            column <= 3 * used,
        decreases line.len() - i,
    {
        let c: char = line[i];
        proof {
            lemma_lens_of_next(line@, i as int);
        }
        let next: u64 = used + utf16_width(c);
        if next > units as u64 {
            proof {
                lemma_chars_in_units(line@, units as nat, i as int);
            }
            return column;
        }
        used = next;
        column = column + utf8_width(c);
        i = i + 1;
    }
    proof {
        lemma_chars_in_units(line@, units as nat, i as int);
    }
    column
}

/// The UTF-16 offset of the byte column `bytes` on `line`.
pub fn utf16_column(line: &Vec<char>, bytes: u32) -> (character: u32)
    ensures
        character == utf16_column_of(line@, bytes as nat),
{
    let mut i: usize = 0;
    let mut used: u64 = 0;
    let mut character: u32 = 0;
    assert(line@.take(0) =~= Seq::<char>::empty());
    while i < line.len()
        invariant
            i <= line.len(),
            used == utf8_len(line@.take(i as int)),
            used <= bytes,
            character == utf16_len(line@.take(i as int)),
            character <= used,
        decreases line.len() - i,
    {
        let c: char = line[i];
        proof {
            lemma_lens_of_next(line@, i as int);
        }
        let next: u64 = used + utf8_width(c);
        if next > bytes as u64 {
            proof {
                lemma_chars_in_bytes(line@, bytes as nat, i as int);
            }
            return character;
        }
        used = next;
        character = character + utf16_width(c) as u32;
        i = i + 1;
    }
    proof {
        lemma_chars_in_bytes(line@, bytes as nat, i as int);
    }
    character
}

/// Why a position has no place in a text.
#[derive(Debug, Clone, Copy, PartialEq, Eq, Structural)]
pub enum PositionError {
    /// The text has no such line.
    LineOutOfRange,
    /// The byte column is larger than a syntax tree can hold.
    ColumnTooLarge,
}

/// The points of a position widened by one UTF-16 code unit to the left: `position - 1` and
/// `position`. At the start of a line there is nothing to the left, and both are the same.
pub open spec fn point_range_on(lines: Seq<Seq<char>>, position: Position) -> Result<
    (Point, Point),
    PositionError,
> {
    if position.line >= lines.len() {
        Err(PositionError::LineOutOfRange)
    } else {
        let line = lines[position.line as int];
        let units = position.character as nat;
        let end = byte_column_of(line, units);
        let start = byte_column_of(
            line,
            if units == 0 {
                0
            } else {
                (units - 1) as nat
            },
        );
        if end > u32::MAX {
            Err(PositionError::ColumnTooLarge)
        } else {
            Ok(
                (
                    Point { row: position.line, column: start as u32 },
                    Point { row: position.line, column: end as u32 },
                ),
            )
        }
    }
}

/// The position of a point. A point on a row that the text lacks stands at offset 0.
pub open spec fn position_on(lines: Seq<Seq<char>>, point: Point) -> Position {
    Position {
        line: point.row,
        character: if point.row < lines.len() {
            utf16_column_of(lines[point.row as int], point.column as nat) as u32
        } else {
            0
        },
    }
}

/// The range that a syntax node covers.
pub open spec fn range_on(lines: Seq<Seq<char>>, node: NodeView) -> Range {
    Range { start: position_on(lines, node.start), end: position_on(lines, node.end) }
}

/// Whether the bytes of a syntax node are a text of their own within `text`. They are for
/// every node of a tree that was built from `text`.
pub open spec fn node_fits(text: Seq<char>, node: NodeView) -> bool {
    let bytes = encode_utf8(text);
    &&& node.start_byte <= node.end_byte <= bytes.len()
    &&& valid_utf8(bytes.subrange(node.start_byte as int, node.end_byte as int))
}

/// The text of a syntax node that fits `text`.
pub open spec fn node_text_of(text: Seq<char>, node: NodeView) -> Seq<char>
    recommends
        node_fits(text, node),
{
    decode_utf8(encode_utf8(text).subrange(node.start_byte as int, node.end_byte as int))
}

pub(crate) proof fn lemma_byte_column_monotone(line: Seq<char>, fewer: nat, more: nat)
    requires
        fewer <= more,
    ensures
        byte_column_of(line, fewer) <= byte_column_of(line, more),
        chars_in_units(line, fewer) <= chars_in_units(line, more) <= line.len(),
    decreases line.len(),
{
    if utf16_len(line) <= more {
        lemma_chars_at_most_len(line, fewer);
        lemma_lens_monotone(line, chars_in_units(line, fewer) as int, line.len() as int);
    } else {
        let shorter = line.drop_last();
        lemma_byte_column_monotone(shorter, fewer, more);
        assert(shorter.take(chars_in_units(shorter, fewer) as int) =~= line.take(
            chars_in_units(shorter, fewer) as int,
        ));
        assert(shorter.take(chars_in_units(shorter, more) as int) =~= line.take(
            chars_in_units(shorter, more) as int,
        ));
    }
}

proof fn lemma_chars_at_most_len(line: Seq<char>, units: nat)
    ensures
        chars_in_units(line, units) <= line.len(),
    decreases line.len(),
{
    if utf16_len(line) > units {
        lemma_chars_at_most_len(line.drop_last(), units);
    }
}

/// The points of a position widened by one UTF-16 code unit to the left.
pub fn point_range(lines: &Vec<Vec<char>>, position: Position) -> (points: Result<
    (Point, Point),
    PositionError,
>)
    ensures
        points == point_range_on(lines.deep_view(), position),
{
    let row: usize = position.line as usize;
    if row >= lines.len() {
        return Err(PositionError::LineOutOfRange);
    }
    assert(lines[row as int].deep_view() =~= lines[row as int]@);
    let before: u32 = if position.character == 0 {
        0
    } else {
        position.character - 1
    };
    let start: u64 = byte_column(&lines[row], before);
    let end: u64 = byte_column(&lines[row], position.character);
    proof {
        lemma_byte_column_monotone(lines[row as int]@, before as nat, position.character as nat);
    }
    if end > u32::MAX as u64 {
        return Err(PositionError::ColumnTooLarge);
    }
    Ok(
        (
            Point { row: position.line, column: start as u32 },
            Point { row: position.line, column: end as u32 },
        ),
    )
}

/// The position of a point.
pub fn position_at(lines: &Vec<Vec<char>>, point: Point) -> (position: Position)
    ensures
        position == position_on(lines.deep_view(), point),
{
    let row: usize = point.row as usize;
    if row < lines.len() {
        assert(lines[row as int].deep_view() =~= lines[row as int]@);
        Position { line: point.row, character: utf16_column(&lines[row], point.column) }
    } else {
        Position { line: point.row, character: 0 }
    }
}

/// The range that a syntax node covers.
pub fn node_range(lines: &Vec<Vec<char>>, node: &SyntaxNode) -> (range: Range)
    ensures
        range == range_on(lines.deep_view(), node.deep_view()),
{
    Range { start: position_at(lines, node.start), end: position_at(lines, node.end) }
}

proof fn lemma_valid_between_boundaries(bytes: Seq<u8>, start: int, end: int)
    requires
        valid_utf8(bytes),
        0 <= start < end <= bytes.len(),
    ensures
        valid_utf8(bytes.subrange(start, end)) <==> is_char_boundary(bytes, start)
            && is_char_boundary(bytes, end),
        is_char_boundary(bytes, start) && is_char_boundary(bytes, end) ==> is_char_boundary(
            bytes.subrange(0, end),
            start,
        ),
{
    let part = bytes.subrange(start, end);
    let head = bytes.subrange(0, end);
    is_char_boundary_iff_not_is_continuation_byte(bytes, start);
    assert(part[0] == bytes[start]);
    if is_char_boundary(bytes, start) {
        if is_char_boundary(bytes, end) {
            valid_utf8_split(bytes, end);
            assert(head[start] == bytes[start]);
            is_char_boundary_iff_not_is_continuation_byte(head, start);
            valid_utf8_split(head, start);
            assert(head.subrange(start, head.len() as int) =~= part);
        } else if valid_utf8(part) {
            valid_utf8_split(bytes, start);
            valid_utf8_concat(bytes.subrange(0, start), part);
            assert(bytes.subrange(0, start) + part =~= head);
            is_char_boundary_start_end_of_seq(bytes);
            is_char_boundary_iff_not_is_continuation_byte(bytes, end);
            let rest = bytes.subrange(end, bytes.len() as int);
            assert(rest[0] == bytes[end]);
            assert(!valid_utf8(rest));
            partial_valid_partial_invalid_utf8(bytes, end);
        }
    } else {
        assert(!valid_utf8(part));
    }
}

/// The text of a syntax node, unless the node does not fit `text`.
pub fn node_text(text: &str, node: &SyntaxNode) -> (found: Option<String>)
    ensures
        found is Some <==> node_fits(text@, node.deep_view()),
        found matches Some(part) ==> part@ == node_text_of(text@, node.deep_view()),
{
    let ghost bytes = encode_utf8(text@);
    proof {
        encode_utf8_valid_utf8(text@);
    }
    if node.start_byte > node.end_byte || node.end_byte > text.as_bytes().len() {
        return None;
    }
    let ghost part = bytes.subrange(node.start_byte as int, node.end_byte as int);
    if node.start_byte == node.end_byte {
        assert(part =~= Seq::<u8>::empty());
        return Some(String::new());
    }
    proof {
        lemma_valid_between_boundaries(bytes, node.start_byte as int, node.end_byte as int);
    }
    if !text.is_char_boundary(node.start_byte) || !text.is_char_boundary(node.end_byte) {
        return None;
    }
    let (head, _rest) = text.split_at(node.end_byte);
    let (_before, found) = head.split_at(node.start_byte);
    proof {
        assert(encode_utf8(found@) =~= part);
        encode_utf8_decode_utf8(found@);
    }
    Some(found.to_owned())
}

proof fn lemma_chars_in_units_bounds(line: Seq<char>, units: nat)
    ensures
        ({
            let c = chars_in_units(line, units) as int;
            &&& c <= line.len()
            &&& utf16_len(line.take(c)) <= units
            &&& c < line.len() ==> units < utf16_len(line.take(c + 1))
        }),
    decreases line.len(),
{
    assert(line.take(line.len() as int) =~= line);
    if utf16_len(line) > units {
        let shorter = line.drop_last();
        let c = chars_in_units(line, units) as int;
        lemma_chars_in_units_bounds(shorter, units);
        assert(shorter.take(c) =~= line.take(c));
        if c < shorter.len() {
            assert(shorter.take(c + 1) =~= line.take(c + 1));
        }
    }
}

/// An offset between those of two characters stands for a character between them.
pub(crate) proof fn lemma_chars_between(line: Seq<char>, from: int, to: int, units: nat)
    requires
        0 <= from <= to <= line.len(),
        utf16_len(line.take(from)) <= units <= utf16_len(line.take(to)),
    ensures
        from <= chars_in_units(line, units) <= to,
        units < utf16_len(line.take(to)) ==> chars_in_units(line, units) < to,
        byte_column_of(line, units) <= utf8_len(line.take(to)),
        byte_column_of(line, units) >= utf8_len(line.take(from)),
        units < utf16_len(line.take(to)) ==> byte_column_of(line, units) < utf8_len(line.take(to)),
{
    let c = chars_in_units(line, units) as int;
    lemma_chars_in_units_bounds(line, units);
    if c < from {
        lemma_lens_monotone(line, c + 1, from);
    }
    if c > to {
        lemma_lens_monotone(line, to, c);
    }
    lemma_lens_monotone(line, from, c);
    lemma_lens_monotone(line, c, to);
}

/// On the boundaries of characters the two kinds of columns translate into each other, forth
/// and back.
pub proof fn law_columns_round_trip(line: Seq<char>, k: int)
    requires
        0 <= k <= line.len(),
    ensures
        byte_column_of(line, utf16_len(line.take(k))) == utf8_len(line.take(k)),
        utf16_column_of(line, utf8_len(line.take(k))) == utf16_len(line.take(k)),
{
    if k < line.len() {
        lemma_lens_monotone(line, k, k + 1);
    }
    lemma_chars_in_units(line, utf16_len(line.take(k)), k);
    lemma_chars_in_bytes(line, utf8_len(line.take(k)), k);
}

/// On a line of ASCII characters the two kinds of columns are one.
pub proof fn law_ascii_columns(line: Seq<char>, column: nat)
    requires
        is_ascii_chars(line),
        column <= line.len(),
    ensures
        byte_column_of(line, column) == column,
        utf16_column_of(line, column) == column,
{
    let k = column as int;
    let part = line.take(k);
    assert(is_ascii_chars(part));
    is_ascii_chars_encode_utf8(part);
    lemma_ascii_utf16_len(part);
    law_columns_round_trip(line, k);
}

proof fn lemma_ascii_utf16_len(text: Seq<char>)
    requires
        is_ascii_chars(text),
    ensures
        utf16_len(text) == text.len(),
    decreases text.len(),
{
    if text.len() > 0 {
        assert(text.last() <= '\u{7f}');
        lemma_ascii_utf16_len(text.drop_last());
    }
}

/// A column past the end of the line stands for the end of the line.
pub proof fn law_columns_stop_at_line_end(line: Seq<char>, units: nat, bytes: nat)
    requires
        units >= utf16_len(line),
        bytes >= utf8_len(line),
    ensures
        byte_column_of(line, units) == utf8_len(line),
        utf16_column_of(line, bytes) == utf16_len(line),
{
    assert(line.take(line.len() as int) =~= line);
}

/// The range of points of a position starts at the character before it and ends at the
/// position. At the start of a line it is empty.
pub proof fn law_point_range_reaches_back_one(lines: Seq<Seq<char>>, position: Position, k: int)
    requires
        position.line < lines.len(),
        0 <= k <= lines[position.line as int].len(),
        position.character == utf16_len(lines[position.line as int].take(k)),
        utf8_len(lines[position.line as int].take(k)) <= u32::MAX,
    ensures
        point_range_on(lines, position) matches Ok((start, end)) && {
            &&& start.row == position.line
            &&& end.row == position.line
            &&& end.column == utf8_len(lines[position.line as int].take(k))
            &&& k == 0 ==> start == end
            &&& k > 0 ==> start.column == utf8_len(lines[position.line as int].take(k - 1))
        },
{
    let line = lines[position.line as int];
    law_columns_round_trip(line, k);
    assert(line.take(0) =~= Seq::<char>::empty());
    if k > 0 {
        lemma_lens_monotone(line, k - 1, k);
        lemma_chars_in_units(line, (utf16_len(line.take(k)) - 1) as nat, k - 1);
    }
}

/// The point of a position leads back to the position.
pub proof fn law_position_round_trip(lines: Seq<Seq<char>>, position: Position, k: int)
    requires
        position.line < lines.len(),
        0 <= k <= lines[position.line as int].len(),
        position.character == utf16_len(lines[position.line as int].take(k)),
        utf8_len(lines[position.line as int].take(k)) <= u32::MAX,
    ensures
        point_range_on(lines, position) matches Ok((_, end)) && position_on(lines, end) == position,
{
    law_point_range_reaches_back_one(lines, position, k);
    law_columns_round_trip(lines[position.line as int], k);
}

/// The text before the line `row`: the lines above it, each with its line feed.
pub open spec fn text_above(lines: Seq<Seq<char>>, row: int) -> Seq<char>
    decreases row,
{
    if row <= 0 {
        seq![]
    } else {
        text_above(lines, row - 1) + lines[row - 1].push('\n')
    }
}

proof fn lemma_text_above_same(one: Seq<Seq<char>>, other: Seq<Seq<char>>, row: int)
    requires
        forall|i: int| 0 <= i < row ==> one[i] == other[i],
    ensures
        text_above(one, row) == text_above(other, row),
    decreases row,
{
    if row > 0 {
        lemma_text_above_same(one, other, row - 1);
    }
}

/// The lines of a text, joined by line feeds, are the text; none of them holds a line feed.
pub proof fn law_lines_join_to_text(text: Seq<char>)
    ensures
        lines_of(text).len() > 0,
        text_above(lines_of(text), lines_of(text).len() - 1) + lines_of(text).last() == text,
        forall|i: int| 0 <= i < lines_of(text).len() ==> !(#[trigger] lines_of(text)[i]).contains('\n'),
    decreases text.len(),
{
    let lines = lines_of(text);
    if text.len() == 0 {
        assert(text_above(lines, 0) + lines.last() =~= text);
    } else {
        let before = lines_of(text.drop_last());
        let c = text.last();
        law_lines_join_to_text(text.drop_last());
        if c == '\n' {
            lemma_text_above_same(lines, before, before.len() - 1);
            assert(lines[before.len() - 1] == before.last());
            assert(text_above(lines, before.len() as int) + lines.last() =~= text.drop_last().push(c));
        } else {
            lemma_text_above_same(lines, before, before.len() - 1);
            assert(text_above(lines, lines.len() - 1) + lines.last() =~= text.drop_last().push(c));
            assert forall|i: int| 0 <= i < lines.len() implies !(#[trigger] lines[i]).contains('\n') by {
                if i < before.len() - 1 {
                    assert(lines[i] == before[i]);
                } else {
                    assert(!before[i].contains('\n'));
                    if lines[i].contains('\n') {
                        let j = choose|j: int| 0 <= j < lines[i].len() && lines[i][j] == '\n';
                        assert(before[i][j] == '\n');
                    }
                }
            }
        }
        assert(text.drop_last().push(c) =~= text);
    }
}

pub(crate) proof fn lemma_line_in_text(lines: Seq<Seq<char>>, row: int, last: int) -> (rest: Seq<char>)
    requires
        0 <= row <= last < lines.len(),
    ensures
        text_above(lines, last) + lines[last] == text_above(lines, row) + lines[row] + rest,
    decreases last - row,
{
    if row == last {
        let rest = Seq::<char>::empty();
        assert(text_above(lines, row) + lines[row] + rest =~= text_above(lines, row) + lines[row]);
        rest
    } else {
        let rest = lemma_line_in_text(lines, row, last - 1);
        let more = rest + seq!['\n'] + lines[last];
        assert(text_above(lines, last) + lines[last] =~= (text_above(lines, last - 1) + lines[last
            - 1]) + seq!['\n'] + lines[last]);
        assert(text_above(lines, row) + lines[row] + rest + seq!['\n'] + lines[last] =~= text_above(
            lines,
            row,
        ) + lines[row] + more);
        more
    }
}

pub(crate) proof fn lemma_utf16_len_at_most_utf8_len(line: Seq<char>, k: int)
    requires
        0 <= k <= line.len(),
    ensures
        utf16_len(line.take(k)) <= utf8_len(line.take(k)),
    decreases k,
{
    if k > 0 {
        lemma_utf16_len_at_most_utf8_len(line, k - 1);
        lemma_lens_of_next(line, k - 1);
    } else {
        assert(line.take(0) =~= Seq::<char>::empty());
    }
}

/// Whether a node covers the characters `from` to `to` of the line `row`: its bytes and its
/// points both say so.
pub open spec fn node_on_line(text: Seq<char>, node: NodeView, row: int, from: int, to: int) -> bool {
    let lines = lines_of(text);
    let line = lines[row];
    let above = utf8_len(text_above(lines, row));
    &&& 0 <= row < lines.len()
    &&& 0 <= from <= to <= line.len()
    &&& node.start.row == row
    &&& node.end.row == row
    &&& node.start.column == utf8_len(line.take(from))
    &&& node.end.column == utf8_len(line.take(to))
    &&& node.start_byte == above + utf8_len(line.take(from))
    &&& node.end_byte == above + utf8_len(line.take(to))
}

/// The range and the text of a node on one line belong together: the text is what stands in the
/// range.
pub proof fn law_range_covers_text(text: Seq<char>, node: NodeView, row: int, from: int, to: int)
    requires
        node_on_line(text, node, row, from, to),
    ensures
        node_fits(text, node),
        node_text_of(text, node) == lines_of(text)[row].subrange(from, to),
        range_on(lines_of(text), node) == (Range {
            start: Position {
                line: row as u32,
                character: utf16_len(lines_of(text)[row].take(from)) as u32,
            },
            end: Position {
                line: row as u32,
                character: utf16_len(lines_of(text)[row].take(to)) as u32,
            },
        }),
{
    let lines = lines_of(text);
    let line = lines[row];
    let above = text_above(lines, row);
    law_lines_join_to_text(text);
    let rest = lemma_line_in_text(lines, row, lines.len() - 1);
    let head = above + line.take(from);
    let part = line.subrange(from, to);
    let tail = line.skip(to) + rest;
    assert(text =~= head + part + tail);
    assert(line.take(to) =~= line.take(from) + part);
    lemma_encode_concat(above, line.take(from));
    lemma_encode_concat(line.take(from), part);
    lemma_encode_concat(head + part, tail);
    lemma_encode_concat(head, part);
    let bytes = encode_utf8(text);
    assert(bytes.subrange(node.start_byte as int, node.end_byte as int) =~= encode_utf8(part));
    encode_utf8_valid_utf8(part);
    encode_utf8_decode_utf8(part);
    law_columns_round_trip(line, from);
    law_columns_round_trip(line, to);
}

/// UTF-16 code units add up over the parts of a text. A character of the basic plane takes one,
/// any other takes two.
pub proof fn law_units_add_up(one: Seq<char>, other: Seq<char>, c: char)
    ensures
        utf16_len(one + other) == utf16_len(one) + utf16_len(other),
        utf16_len(seq![c]) == if c <= '\u{ffff}' { 1nat } else { 2nat },
        utf16_len(Seq::<char>::empty()) == 0,
    decreases other.len(),
{
    assert(seq![c].drop_last() =~= Seq::<char>::empty());
    reveal_with_fuel(utf16_len, 2);
    if other.len() == 0 {
        assert(one + other =~= one);
    } else {
        law_units_add_up(one, other.drop_last(), c);
        assert((one + other).drop_last() =~= one + other.drop_last());
    }
}

/// Every column from the start of a character up to the next character stands for the start of
/// that character; behind the last character, for the end of the line.
pub proof fn law_column_of_a_character(line: Seq<char>, k: int, units: nat, bytes: nat)
    requires
        0 <= k <= line.len(),
    ensures
        utf16_len(line.take(k)) <= units && (k == line.len() || units < utf16_len(
            line.take(k + 1),
        )) ==> byte_column_of(line, units) == encode_utf8(line.take(k)).len(),
        encode_utf8(line.take(k)).len() <= bytes && (k == line.len() || bytes < encode_utf8(
            line.take(k + 1),
        ).len()) ==> utf16_column_of(line, bytes) == utf16_len(line.take(k)),
{
    if utf16_len(line.take(k)) <= units && (k == line.len() || units < utf16_len(
        line.take(k + 1),
    )) {
        lemma_chars_in_units(line, units, k);
    }
    if utf8_len(line.take(k)) <= bytes && (k == line.len() || bytes < utf8_len(line.take(k + 1))) {
        lemma_chars_in_bytes(line, bytes, k);
    }
}

/// A line feed ends a line: the lines of two texts with a line feed between them are those of the
/// one and then those of the other.
pub proof fn law_line_feed_ends_line(one: Seq<char>, other: Seq<char>)
    ensures
        lines_of(one + seq!['\n'] + other) == lines_of(one) + lines_of(other),
    decreases other.len(),
{
    let text = one + seq!['\n'] + other;
    law_lines_join_to_text(other);
    if other.len() == 0 {
        assert(text.drop_last() =~= one);
        assert(lines_of(text) =~= lines_of(one) + lines_of(other));
    } else {
        law_line_feed_ends_line(one, other.drop_last());
        law_lines_join_to_text(other.drop_last());
        assert(text.drop_last() =~= one + seq!['\n'] + other.drop_last());
        let before = lines_of(one) + lines_of(other.drop_last());
        assert(before.last() == lines_of(other.drop_last()).last());
        assert(before.drop_last() =~= lines_of(one) + lines_of(other.drop_last()).drop_last());
        assert(lines_of(text) =~= lines_of(one) + lines_of(other));
    }
}

/// Nothing but a line feed ends a line: a text without one is a single line.
pub proof fn law_text_without_line_feed_is_a_line(text: Seq<char>)
    requires
        !text.contains('\n'),
    ensures
        lines_of(text) == seq![text],
    decreases text.len(),
{
    if text.len() > 0 {
        let shorter = text.drop_last();
        assert(!shorter.contains('\n')) by {
            if shorter.contains('\n') {
                let i = choose|i: int| 0 <= i < shorter.len() && shorter[i] == '\n';
                assert(text[i] == '\n');
            }
        }
        assert(text[text.len() - 1] != '\n');
        law_text_without_line_feed_is_a_line(shorter);
        assert(shorter.push(text.last()) =~= text);
        assert(seq![shorter].drop_last() =~= Seq::<Seq<char>>::empty());
    } else {
        assert(text =~= Seq::<char>::empty());
    }
    assert(lines_of(text) =~= seq![text]);
}

/// A position has points if the text has its line and a tree can hold its column. The second
/// point is that of the position, the first that of the position one unit to the left, if there
/// is one.
pub proof fn law_points_of_a_position(lines: Seq<Seq<char>>, line: u32, character: u32)
    ensures
        ({
            let points = point_range_on(lines, Position { line, character });
            let column = byte_column_of(lines[line as int], character as nat);
            &&& line >= lines.len() ==> points == Err::<(Point, Point), PositionError>(
                PositionError::LineOutOfRange,
            )
            &&& line < lines.len() && column > u32::MAX ==> points == Err::<
                (Point, Point),
                PositionError,
            >(PositionError::ColumnTooLarge)
            &&& line < lines.len() && column <= u32::MAX ==> points is Ok && {
                let (start, end) = points->Ok_0;
                &&& start.row == line
                &&& end.row == line
                &&& end.column == column
                &&& character == 0 ==> start == end
                &&& character > 0 ==> (point_range_on(
                    lines,
                    Position { line, character: (character - 1) as u32 },
                ) matches Ok((_, left)) && start == left)
            }
        }),
{
    if line < lines.len() {
        let left = if character == 0 { 0nat } else { (character - 1) as nat };
        lemma_byte_column_monotone(lines[line as int], left, character as nat);
    }
}

/// The place of a node runs from the position of its first point to that of its second: a point
/// on a character has the UTF-16 offset of the character, on the line that is its row.
pub proof fn law_range_runs_from_point_to_point(
    lines: Seq<Seq<char>>,
    node: NodeView,
    from: int,
    to: int,
)
    requires
        node.start.row < lines.len(),
        node.end.row < lines.len(),
        0 <= from <= lines[node.start.row as int].len(),
        0 <= to <= lines[node.end.row as int].len(),
        node.start.column == encode_utf8(lines[node.start.row as int].take(from)).len(),
        node.end.column == encode_utf8(lines[node.end.row as int].take(to)).len(),
    ensures
        range_on(lines, node).start.line == node.start.row,
        range_on(lines, node).start.character == utf16_len(
            lines[node.start.row as int].take(from),
        ),
        range_on(lines, node).end.line == node.end.row,
        range_on(lines, node).end.character == utf16_len(lines[node.end.row as int].take(to)),
{
    law_columns_round_trip(lines[node.start.row as int], from);
    law_columns_round_trip(lines[node.end.row as int], to);
    lemma_utf16_len_at_most_utf8_len(lines[node.start.row as int], from);
    lemma_utf16_len_at_most_utf8_len(lines[node.end.row as int], to);
}

/// Each end of a range is the position of its own point: on the row of the point, at the UTF-16
/// offset of its column, or at the start of a row that the text lacks.
pub proof fn law_position_of_a_point(lines: Seq<Seq<char>>, node: NodeView)
    ensures
        range_on(lines, node).start == position_on(lines, node.start),
        range_on(lines, node).end == position_on(lines, node.end),
        position_on(lines, node.start).line == node.start.row,
        node.start.row < lines.len() ==> position_on(lines, node.start).character
            == utf16_column_of(lines[node.start.row as int], node.start.column as nat),
        node.start.row >= lines.len() ==> position_on(lines, node.start).character == 0,
{
    if node.start.row < lines.len() {
        let line = lines[node.start.row as int];
        let bytes = node.start.column as nat;
        let k = lemma_chars_in_bytes_bounds(line, bytes);
        lemma_chars_in_bytes(line, bytes, k);
        lemma_utf16_len_at_most_utf8_len(line, k);
    }
}

proof fn lemma_chars_in_bytes_bounds(line: Seq<char>, bytes: nat) -> (k: int)
    ensures
        0 <= k <= line.len(),
        utf8_len(line.take(k)) <= bytes,
        k < line.len() ==> bytes < utf8_len(line.take(k + 1)),
    decreases line.len(),
{
    assert(line.take(line.len() as int) =~= line);
    if line.len() == 0 || utf8_len(line) <= bytes {
        assert(line.len() == 0 ==> line =~= Seq::<char>::empty());
        line.len() as int
    } else {
        let shorter = line.drop_last();
        let k = lemma_chars_in_bytes_bounds(shorter, bytes);
        assert(shorter.take(k) =~= line.take(k));
        if k < shorter.len() {
            assert(shorter.take(k + 1) =~= line.take(k + 1));
        }
        k
    }
}

/// A node over a part of a text has that part as its text.
pub proof fn law_text_of_a_node(
    head: Seq<char>,
    part: Seq<char>,
    tail: Seq<char>,
    node: NodeView,
)
    requires
        node.start_byte == encode_utf8(head).len(),
        node.end_byte == encode_utf8(head).len() + encode_utf8(part).len(),
    ensures
        node_fits(head + part + tail, node),
        node_text_of(head + part + tail, node) == part,
{
    lemma_encode_concat(head + part, tail);
    lemma_encode_concat(head, part);
    let bytes = encode_utf8(head + part + tail);
    assert(bytes.subrange(node.start_byte as int, node.end_byte as int) =~= encode_utf8(part));
    encode_utf8_valid_utf8(part);
    encode_utf8_decode_utf8(part);
}

/// A node fits a text if and only if its bytes lie in the text and spell characters; those are
/// its text.
pub proof fn law_nodes_that_fit(text: Seq<char>, node: NodeView)
    ensures
        node_fits(text, node) <==> node.start_byte <= node.end_byte <= encode_utf8(text).len()
            && exists|part: Seq<char>|
            #[trigger] encode_utf8(part) == encode_utf8(text).subrange(
                node.start_byte as int,
                node.end_byte as int,
            ),
        node_fits(text, node) ==> encode_utf8(node_text_of(text, node)) == encode_utf8(
            text,
        ).subrange(node.start_byte as int, node.end_byte as int),
{
    if node.start_byte <= node.end_byte <= encode_utf8(text).len() {
        let bytes = encode_utf8(text).subrange(node.start_byte as int, node.end_byte as int);
        if valid_utf8(bytes) {
            decode_utf8_encode_utf8(bytes);
            assert(encode_utf8(decode_utf8(bytes)) == bytes);
        }
        if exists|part: Seq<char>| #[trigger] encode_utf8(part) == bytes {
            let part = choose|part: Seq<char>| #[trigger] encode_utf8(part) == bytes;
            encode_utf8_valid_utf8(part);
        }
    }
}

} // verus!
