use beancount_references::account::{rename_account, starts_with};
use beancount_references::changes::{collect_changes, group_edits, rename_at, Changes, FileEdits};
use beancount_references::content::{
    lsp_position_to_tree_sitter_point_range, text_for_tree_sitter_node,
    tree_sitter_node_to_lsp_range,
};
use beancount_references::edits::order_edits;
use beancount_references::files::FileMap;
use beancount_references::lsp::{Location, Position, Range, TextEdit};
use beancount_references::matches::{matches_in_file, StaleTree};
use beancount_references::references::account_of;
use beancount_references::syntax::{Point, SyntaxNode};
use beancount_references::text::{
    byte_column, node_text, point_range, position_at, split_lines, utf16_column, PositionError,
};
use ropey::Rope;
use std::path::PathBuf;

fn chars(text: &str) -> Vec<char> {
    text.chars().collect()
}

fn pos(line: u32, character: u32) -> Position {
    Position { line, character }
}

fn point(row: u32, column: u32) -> Point {
    Point { row, column }
}

fn range(line: u32, from: u32, to: u32) -> Range {
    Range {
        start: pos(line, from),
        end: pos(line, to),
    }
}

fn node(kind: &str, start_byte: usize, end_byte: usize, start: Point, end: Point) -> SyntaxNode {
    SyntaxNode {
        kind: kind.to_string(),
        start_byte,
        end_byte,
        start,
        end,
    }
}

fn edit(line: u32, from: u32, new_text: &str) -> TextEdit {
    TextEdit {
        range: range(line, from, from + 1),
        new_text: new_text.to_string(),
    }
}

fn place(uri: &str, line: u32, name: &str) -> (Location, String) {
    (
        Location {
            uri: uri.to_string(),
            range: range(line, 2, 2 + name.len() as u32),
        },
        name.to_string(),
    )
}

// ---- columns ---------------------------------------------------------------

#[test]
fn utf16_offsets_become_byte_columns() {
    let line = chars("\u{e4}\u{20ac}\u{1f600}x"); // 2, 3, 4 and 1 bytes
    let columns: Vec<u64> = (0..7).map(|u| byte_column(&line, u)).collect();
    assert_eq!(columns, vec![0, 2, 5, 5, 9, 10, 10]);
}

#[test]
fn byte_columns_become_utf16_offsets() {
    let line = chars("\u{e4}\u{20ac}\u{1f600}x");
    let offsets: Vec<u32> = (0..12).map(|b| utf16_column(&line, b)).collect();
    assert_eq!(offsets, vec![0, 0, 1, 1, 1, 2, 2, 2, 2, 4, 5, 5]);
}

#[test]
fn columns_round_trip_on_character_boundaries() {
    let line = chars("\u{e4}\u{20ac}\u{1f600}x");
    for units in [0, 1, 2, 4, 5] {
        assert_eq!(utf16_column(&line, byte_column(&line, units) as u32), units);
    }
}

#[test]
fn ascii_columns_are_the_same() {
    let line = chars("  Assets:Cash");
    for column in 0..14 {
        assert_eq!(byte_column(&line, column), column as u64);
        assert_eq!(utf16_column(&line, column), column);
    }
}

#[test]
fn lines_end_at_line_feeds() {
    assert_eq!(split_lines(""), vec![Vec::<char>::new()]);
    assert_eq!(
        split_lines("a\r\nb\n"),
        vec![chars("a\r"), chars("b"), chars("")]
    );
}

#[test]
fn points_of_a_position_reach_back_one_character() {
    let lines = split_lines("x\n\u{e4}\u{20ac}\u{1f600}x");
    assert_eq!(
        point_range(&lines, pos(1, 0)),
        Ok((point(1, 0), point(1, 0)))
    );
    assert_eq!(
        point_range(&lines, pos(1, 2)),
        Ok((point(1, 2), point(1, 5)))
    );
    assert_eq!(
        point_range(&lines, pos(1, 4)),
        Ok((point(1, 5), point(1, 9)))
    );
    assert_eq!(
        point_range(&lines, pos(1, 99)),
        Ok((point(1, 10), point(1, 10)))
    );
}

#[test]
fn a_line_past_the_end_is_out_of_range() {
    let lines = split_lines("x\n");
    assert!(point_range(&lines, pos(1, 0)).is_ok());
    assert_eq!(
        point_range(&lines, pos(2, 0)),
        Err(PositionError::LineOutOfRange)
    );
    assert_eq!(
        lsp_position_to_tree_sitter_point_range(&Rope::from_str("x\n"), pos(2, 0)),
        Err(PositionError::LineOutOfRange)
    );
}

#[test]
fn a_point_leads_back_to_its_position() {
    let lines = split_lines("x\n\u{e4}\u{20ac}\u{1f600}x");
    for character in [0, 1, 2, 4, 5] {
        let (_, end) = point_range(&lines, pos(1, character)).unwrap();
        assert_eq!(position_at(&lines, end), pos(1, character));
    }
    assert_eq!(position_at(&lines, point(7, 3)), pos(7, 0));
}

// ---- texts of nodes --------------------------------------------------------

#[test]
fn the_range_of_a_node_covers_its_text() {
    let content = Rope::from_str("ab\n\u{e4} \u{1f600} Assets:Cash\n");
    let account = node("account", 11, 22, point(1, 8), point(1, 19));
    assert_eq!(
        text_for_tree_sitter_node(&content, &account),
        Some("Assets:Cash".to_string())
    );
    assert_eq!(
        tree_sitter_node_to_lsp_range(&content, &account),
        range(1, 5, 16)
    );
}

#[test]
fn a_node_that_does_not_fit_has_no_text() {
    let at = |from: usize, to: usize| node("account", from, to, point(0, 0), point(0, 0));
    assert_eq!(node_text("\u{e4}b", &at(0, 2)), Some("\u{e4}".to_string()));
    assert_eq!(node_text("\u{e4}b", &at(2, 3)), Some("b".to_string()));
    assert_eq!(node_text("\u{e4}b", &at(0, 1)), None);
    assert_eq!(node_text("\u{e4}b", &at(1, 3)), None);
    assert_eq!(node_text("\u{e4}b", &at(1, 1)), Some(String::new()));
    assert_eq!(node_text("\u{e4}b", &at(3, 3)), Some(String::new()));
    assert_eq!(node_text("\u{e4}b", &at(2, 4)), None);
    assert_eq!(node_text("\u{e4}b", &at(3, 2)), None);
}

#[test]
fn only_account_nodes_are_accounts() {
    let of_kind = |kind: &str| node(kind, 0, 1, point(0, 0), point(0, 1));
    assert!(account_of(Some(of_kind("account"))).is_some());
    assert!(account_of(Some(of_kind("currency"))).is_none());
    assert!(account_of(Some(of_kind("Account"))).is_none());
    assert!(account_of(None).is_none());
}

// ---- names -----------------------------------------------------------------

#[test]
fn prefixes_are_compared_by_character() {
    assert!(starts_with("Assets:B\u{e4}r", "Assets:B\u{e4}"));
    assert!(starts_with("Assets", "Assets"));
    assert!(starts_with("Assets", ""));
    assert!(!starts_with("Assets", "Assets:"));
    assert!(!starts_with("Aktiva", "Assets"));
}

#[test]
fn a_renamed_account_keeps_the_part_below() {
    assert_eq!(rename_account("A:B", "A:B", "A:C"), "A:C");
    assert_eq!(rename_account("A:B:Sub", "A:B", "A:C"), "A:C:Sub");
    assert_eq!(rename_account("A:B\u{e4}:S\u{fc}b", "A:B\u{e4}", "C"), "C:S\u{fc}b");
}

#[test]
fn a_rename_back_restores_the_name() {
    let there = rename_account("A:B:Sub", "A:B", "X:Y:Z");
    assert_eq!(rename_account(&there, "X:Y:Z", "A:B"), "A:B:Sub");
    assert_eq!(rename_account("A:B:Sub", "A:B", "A:B"), "A:B:Sub");
}

// ---- places in one file ----------------------------------------------------

#[test]
fn the_first_node_of_each_match_counts() {
    let text = "A:B A:BC A:B:D";
    let at = |from: usize, to: usize| {
        node(
            "account",
            from,
            to,
            point(0, from as u32),
            point(0, to as u32),
        )
    };
    let captures = vec![
        vec![at(0, 3), at(4, 8)],
        vec![],
        vec![at(4, 8)],
        vec![at(9, 14)],
    ];
    let uri = Some("file:///l".to_string());
    let exact = matches_in_file(&captures, text, &uri, "A:B", false).unwrap();
    assert_eq!(exact.len(), 1);
    assert_eq!(exact[0].0.range, range(0, 0, 3));
    let all = matches_in_file(&captures, text, &uri, "A:B", true).unwrap();
    let names: Vec<&str> = all.iter().map(|(_, name)| name.as_str()).collect();
    assert_eq!(names, vec!["A:B", "A:B:D"]);
    assert_eq!(all[1].0.uri, "file:///l");
    assert_eq!(all[1].0.range, range(0, 9, 14));
    assert!(matches_in_file(&captures, text, &None, "A:B", true)
        .unwrap()
        .is_empty());
    assert_eq!(
        matches_in_file(&captures, "A:B A:BC A:B", &uri, "A:B", true),
        Err(StaleTree)
    );
}

// ---- edits -----------------------------------------------------------------

#[test]
fn edits_are_sent_from_the_back() {
    let edits = vec![
        edit(1, 4, "a"),
        edit(3, 0, "b"),
        edit(1, 9, "c"),
        edit(0, 7, "d"),
        edit(2, 5, "e"),
    ];
    let texts: Vec<String> = order_edits(edits).into_iter().map(|e| e.new_text).collect();
    assert_eq!(texts, vec!["b", "e", "c", "a", "d"]);
}

#[test]
fn of_edits_at_one_place_the_last_is_sent_first() {
    let edits = vec![
        edit(1, 4, "a"),
        edit(1, 4, "b"),
        edit(0, 0, "c"),
        edit(1, 4, "d"),
    ];
    let texts: Vec<String> = order_edits(edits).into_iter().map(|e| e.new_text).collect();
    assert_eq!(texts, vec!["d", "b", "a", "c"]);
    assert!(order_edits(vec![]).is_empty());
}

#[test]
fn many_edits_are_sent_from_the_back() {
    let edits: Vec<TextEdit> = (0..1000u32).map(|i| edit(i * 7919 % 1000, 0, "x")).collect();
    let lines: Vec<u32> = order_edits(edits)
        .into_iter()
        .map(|e| e.range.start.line)
        .collect();
    let expected: Vec<u32> = (0..1000).rev().collect();
    assert_eq!(lines, expected);
}

#[test]
fn edits_are_grouped_by_document() {
    let hits = vec![
        place("file:///b", 1, "A:B"),
        place("file:///a", 2, "A:B:C"),
        place("file:///b", 3, "A:B:D"),
    ];
    let groups = group_edits(&hits, "A:B", "X");
    assert_eq!(groups.len(), 2);
    assert_eq!(groups[0].uri, "file:///b");
    let texts: Vec<&str> = groups[0].edits.iter().map(|e| e.new_text.as_str()).collect();
    assert_eq!(texts, vec!["X", "X:D"]);
    assert_eq!(groups[1].uri, "file:///a");
    assert_eq!(groups[1].edits[0].new_text, "X:C");
    assert_eq!(groups[1].edits[0].range, range(2, 2, 7));
}

#[test]
fn a_group_without_key_is_left_out() {
    let group = |uri: &str, text: &str| FileEdits {
        uri: uri.to_string(),
        edits: vec![edit(1, 0, text), edit(2, 0, text)],
    };
    let changes = collect_changes(
        vec![group("u", "a"), group("v", "b"), group("w", "c")],
        &vec![Some("k".to_string()), None, Some("k".to_string())],
    );
    assert_eq!(changes.len(), 1);
    assert!(changes.get("v").is_none());
    let edits = changes.get("k").unwrap();
    assert_eq!(edits[0], edit(2, 0, "c"));
    assert_eq!(edits[1], edit(1, 0, "c"));
}

#[test]
fn uris_are_brought_into_normal_form() {
    let hits = vec![place("file:///a/../b", 1, "A"), place("no uri", 1, "A")];
    let files = rename_at(&hits, "A", "B").into_files();
    assert_eq!(files.len(), 1);
    assert_eq!(files[0].uri, "file:///b");
    assert_eq!(files[0].edits[0].new_text, "B");
}

#[test]
fn changes_keep_the_last_edits_of_a_document() {
    let mut changes = Changes::new();
    assert_eq!(changes.len(), 0);
    changes.insert("a".to_string(), vec![edit(0, 0, "1")]);
    changes.insert("b".to_string(), vec![]);
    changes.insert("a".to_string(), vec![edit(0, 0, "2")]);
    assert_eq!(changes.len(), 2);
    assert_eq!(changes.get("a"), Some(&vec![edit(0, 0, "2")]));
    assert_eq!(changes.get("b"), Some(&vec![]));
    assert_eq!(changes.get("c"), None);
}

// ---- files -----------------------------------------------------------------

#[test]
fn equal_paths_are_one_file() {
    let mut files = FileMap::new();
    files.insert(PathBuf::from("/ledger/a"), 1);
    files.insert(PathBuf::from("/ledger/b"), 2);
    files.insert(PathBuf::from("/ledger//a"), 3);
    assert_eq!(files.len(), 2);
    assert_eq!(files.get(&PathBuf::from("/ledger/./a")), Some(&3));
    assert_eq!(files.get(&PathBuf::from("/ledger/b")), Some(&2));
    assert_eq!(files.get(&PathBuf::from("/ledger/c")), None);
    assert_eq!(files.entry(0), (&PathBuf::from("/ledger/a"), &3));
}
