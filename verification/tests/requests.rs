use beancount_references::files::{Document, FileMap, Snapshot};
use beancount_references::lsp::{
    Position, RenameParams, TextDocumentPositionParams, TextEdit,
};
use beancount_references::matches::{file_content, find_account_matches, StaleTree};
use beancount_references::references::{
    account_node_at_position, node_text_at_position, placeholder_for, prepare_rename, references,
    rename, rename_everywhere, NodeError, RequestError,
};
use beancount_references::syntax::AccountQuery;
use beancount_references::text::PositionError;
use ropey::Rope;
use std::path::PathBuf;
use std::sync::Arc;
use tree_sitter_beancount::tree_sitter::{Parser, Tree};

const LEDGER: &str = "2024-01-01 open Assets:Cash\n2024-01-01 open Assets:Cash:Wallet\n";

fn parse(content: &str) -> Tree {
    let mut parser = Parser::new();
    parser
        .set_language(&tree_sitter_beancount::language())
        .unwrap();
    parser.parse(content, None).unwrap()
}

fn document(content: &str) -> Document {
    Document {
        content: Rope::from_str(content),
        version: 1,
    }
}

fn empty() -> Snapshot {
    Snapshot {
        forest: FileMap::new(),
        open_docs: FileMap::new(),
        forest_content: FileMap::new(),
    }
}

fn opened(path: &str, content: &str) -> Snapshot {
    let mut snapshot = empty();
    snapshot
        .forest
        .insert(PathBuf::from(path), Arc::new(parse(content)));
    snapshot
        .open_docs
        .insert(PathBuf::from(path), document(content));
    snapshot
}

fn at(uri: &str, line: u32, character: u32) -> TextDocumentPositionParams {
    TextDocumentPositionParams {
        uri: uri.to_string(),
        position: Position { line, character },
    }
}

fn rename_to(uri: &str, line: u32, character: u32, new_name: &str) -> RenameParams {
    RenameParams {
        text_document_position_params: at(uri, line, character),
        new_name: new_name.to_string(),
    }
}

fn query() -> AccountQuery {
    AccountQuery::new().unwrap()
}

fn offset(text: &str, position: Position) -> usize {
    let mut line = 0;
    let mut units = 0;
    for (i, c) in text.char_indices() {
        if line == position.line && units == position.character {
            return i;
        }
        if c == '\n' {
            line += 1;
            units = 0;
        } else {
            units += c.len_utf16() as u32;
        }
    }
    text.len()
}

fn apply(text: &str, edits: &[TextEdit]) -> String {
    let mut text = text.to_string();
    for e in edits {
        let range = offset(&text, e.range.start)..offset(&text, e.range.end);
        text.replace_range(range, &e.new_text);
    }
    text
}

// ---- documents that are not open -------------------------------------------

#[test]
fn only_open_documents_are_answered() {
    let mut snapshot = opened("/l/open.beancount", LEDGER);
    let stored = PathBuf::from("/l/stored.beancount");
    snapshot.forest.insert(stored.clone(), Arc::new(parse(LEDGER)));
    snapshot
        .forest_content
        .insert(stored, Arc::new(Rope::from_str(LEDGER)));
    for uri in [
        "file:///l/stored.beancount",
        "file:///l/other.beancount",
        "https://example.org/l",
        "no uri",
    ] {
        assert_eq!(prepare_rename(&snapshot, &at(uri, 0, 20)), Ok(None));
        assert_eq!(references(&snapshot, &query(), &at(uri, 0, 20)), Ok(None));
        assert_eq!(
            rename(&snapshot, &query(), &rename_to(uri, 0, 20, "A:B")),
            Ok(None)
        );
    }
}

#[test]
fn a_document_without_tree_is_not_answered() {
    let mut snapshot = empty();
    snapshot
        .open_docs
        .insert(PathBuf::from("/l/a"), document(LEDGER));
    assert_eq!(prepare_rename(&snapshot, &at("file:///l/a", 0, 20)), Ok(None));
}

// ---- failures ----------------------------------------------------------------

#[test]
fn a_position_out_of_range_fails_with_context() {
    let snapshot = opened("/l/a", LEDGER);
    let uri = "file:///l/a";
    let account = RequestError::Position {
        context: "failed to get account node at position for uri: file:///l/a".to_string(),
        cause: PositionError::LineOutOfRange,
    };
    let text = RequestError::Position {
        context: "failed to get node text at position for uri: file:///l/a".to_string(),
        cause: PositionError::LineOutOfRange,
    };
    assert_eq!(references(&snapshot, &query(), &at(uri, 9, 0)), Err(text));
    assert_eq!(
        prepare_rename(&snapshot, &at(uri, 9, 0)).unwrap_err(),
        account
    );
    assert_eq!(
        rename(&snapshot, &query(), &rename_to(uri, 9, 0, "A")).unwrap_err(),
        account
    );
}

#[test]
fn a_tree_of_another_content_is_stale() {
    let mut snapshot = empty();
    let path = PathBuf::from("/l/a");
    snapshot.forest.insert(path.clone(), Arc::new(parse(LEDGER)));
    snapshot
        .open_docs
        .insert(path.clone(), document("2024-01-01 open A"));
    let uri = "file:///l/a";
    assert_eq!(
        prepare_rename(&snapshot, &at(uri, 0, 17)),
        Err(RequestError::StaleTree)
    );
    assert_eq!(
        references(&snapshot, &query(), &at(uri, 0, 17)),
        Err(RequestError::StaleTree)
    );
    assert_eq!(
        rename(&snapshot, &query(), &rename_to(uri, 0, 17, "A")),
        Err(RequestError::StaleTree)
    );
    assert_eq!(
        rename_everywhere(&snapshot, &query(), "Assets:Cash", "A"),
        Err(StaleTree)
    );
    let position = Position { line: 0, character: 17 };
    let tree = parse(LEDGER);
    let content = Rope::from_str("2024-01-01 open A");
    assert_eq!(
        node_text_at_position(&tree, &content, position),
        Err(NodeError::StaleTree)
    );
    let node = account_node_at_position(&tree, &content, position)
        .unwrap()
        .unwrap();
    assert_eq!(placeholder_for(&content, &node), Err(StaleTree));
}

#[test]
fn a_stale_tree_elsewhere_fails_a_rename_but_not_its_preparation() {
    let mut snapshot = opened("/l/a", LEDGER);
    let path = PathBuf::from("/l/b");
    snapshot.forest.insert(path.clone(), Arc::new(parse(LEDGER)));
    snapshot
        .forest_content
        .insert(path, Arc::new(Rope::from_str("")));
    let uri = "file:///l/a";
    assert!(prepare_rename(&snapshot, &at(uri, 0, 20)).unwrap().is_some());
    assert_eq!(
        rename(&snapshot, &query(), &rename_to(uri, 0, 20, "A")),
        Err(RequestError::StaleTree)
    );
}

// ---- which contents and which files -------------------------------------------

#[test]
fn the_open_document_wins_over_the_stored_content() {
    let mut snapshot = opened("/l/a", LEDGER);
    snapshot
        .forest_content
        .insert(PathBuf::from("/l/a"), Arc::new(Rope::from_str("; old")));
    assert_eq!(
        file_content(
            &snapshot.open_docs,
            &snapshot.forest_content,
            &PathBuf::from("/l/a")
        ),
        Some(LEDGER.to_string())
    );
    let found = references(&snapshot, &query(), &at("file:///l/a", 0, 20));
    assert_eq!(found.unwrap().unwrap().len(), 1);
}

#[test]
fn files_that_are_not_open_are_searched_too() {
    let mut snapshot = opened("/l/a b", LEDGER);
    let posting = "2024-01-02 * \"x\"\n  Assets:Cash  1 USD\n";
    let stored = PathBuf::from("/l/b");
    snapshot.forest.insert(stored.clone(), Arc::new(parse(posting)));
    snapshot
        .forest_content
        .insert(stored, Arc::new(Rope::from_str(posting)));
    let found = references(&snapshot, &query(), &at("file:///l/a%20b", 0, 20))
        .unwrap()
        .unwrap();
    assert_eq!(found.len(), 2);
    assert_eq!(found[0].uri, "file:///l/a%20b");
    assert_eq!(found[0].range.start, Position { line: 0, character: 16 });
    assert_eq!(found[0].range.end, Position { line: 0, character: 27 });
    assert_eq!(found[1].uri, "file:///l/b");
    assert_eq!(found[1].range.start, Position { line: 1, character: 2 });
}

#[test]
fn files_without_content_or_uri_have_no_places() {
    let mut snapshot = opened("/l/a", LEDGER);
    snapshot
        .forest
        .insert(PathBuf::from("/l/gone"), Arc::new(parse(LEDGER)));
    snapshot
        .forest
        .insert(PathBuf::from("relative"), Arc::new(parse(LEDGER)));
    snapshot
        .forest_content
        .insert(PathBuf::from("relative"), Arc::new(Rope::from_str(LEDGER)));
    let hits = find_account_matches(
        &query(),
        &snapshot.forest,
        &snapshot.open_docs,
        &snapshot.forest_content,
        "Assets:Cash",
        true,
    )
    .unwrap();
    assert_eq!(hits.len(), 2);
    assert!(hits.iter().all(|(location, _)| location.uri == "file:///l/a"));
}

// ---- positions -----------------------------------------------------------------

#[test]
fn a_cursor_just_past_an_account_is_on_it() {
    let snapshot = opened("/l/a", LEDGER);
    let offer = prepare_rename(&snapshot, &at("file:///l/a", 0, 27))
        .unwrap()
        .unwrap();
    assert_eq!(offer.placeholder, "Assets:Cash");
}

#[test]
fn a_node_that_is_no_account_has_no_references() {
    let snapshot = opened("/l/a", LEDGER);
    let found = references(&snapshot, &query(), &at("file:///l/a", 0, 3));
    assert_eq!(found.unwrap().unwrap().len(), 0);
}

#[test]
fn offsets_are_counted_in_utf16() {
    let line = "2024-01-01 custom \"b\u{fc}\u{1f600}dget\" Assets:Cash";
    let content = format!("{line}\n");
    let snapshot = opened("/l/a", &content);
    let start = (line.encode_utf16().count() - "Assets:Cash".len()) as u32;
    let end = line.encode_utf16().count() as u32;
    let offer = prepare_rename(&snapshot, &at("file:///l/a", 0, start))
        .unwrap()
        .unwrap();
    assert_eq!(offer.placeholder, "Assets:Cash");
    assert_eq!(offer.range.start, Position { line: 0, character: start });
    assert_eq!(offer.range.end, Position { line: 0, character: end });
}

// ---- renames --------------------------------------------------------------------

#[test]
fn edits_applied_in_turn_rename_the_document() {
    let content = "2024-01-01 open Assets:Cash\n\
                   2024-01-01 open Assets:Cash:Wallet\n\
                   2024-01-01 open Assets:CashOld\n\
                   2024-01-02 pad Assets:Cash Assets:Cash:Wallet\n";
    let snapshot = opened("/l/a", content);
    let edit = rename(&snapshot, &query(), &rename_to("file:///l/a", 0, 20, "Assets:Bar:Geld"))
        .unwrap()
        .unwrap();
    let changes = edit.changes.unwrap();
    let edits = changes.get("file:///l/a").unwrap();
    assert_eq!(edits.len(), 4);
    assert_eq!(edits[0].new_text, "Assets:Bar:Geld:Wallet");
    assert_eq!(
        apply(content, edits),
        "2024-01-01 open Assets:Bar:Geld\n\
         2024-01-01 open Assets:Bar:Geld:Wallet\n\
         2024-01-01 open Assets:CashOld\n\
         2024-01-02 pad Assets:Bar:Geld Assets:Bar:Geld:Wallet\n"
    );
}

#[test]
fn a_rename_reaches_every_file() {
    let mut snapshot = opened("/l/a", LEDGER);
    let stored = PathBuf::from("/l/b");
    snapshot.forest.insert(stored.clone(), Arc::new(parse(LEDGER)));
    snapshot
        .forest_content
        .insert(stored, Arc::new(Rope::from_str(LEDGER)));
    let edit = rename(&snapshot, &query(), &rename_to("file:///l/a", 0, 20, "A:B"))
        .unwrap()
        .unwrap();
    let changes = edit.changes.unwrap();
    assert_eq!(changes.len(), 2);
    for uri in ["file:///l/a", "file:///l/b"] {
        assert_eq!(
            apply(LEDGER, changes.get(uri).unwrap()),
            "2024-01-01 open A:B\n2024-01-01 open A:B:Wallet\n"
        );
    }
}

#[test]
fn a_rename_does_what_was_prepared() {
    let snapshot = opened("/l/a", LEDGER);
    let offer = prepare_rename(&snapshot, &at("file:///l/a", 1, 30))
        .unwrap()
        .unwrap();
    assert_eq!(offer.placeholder, "Assets:Cash:Wallet");
    assert_eq!(
        rename(&snapshot, &query(), &rename_to("file:///l/a", 1, 30, "A")).unwrap(),
        Some(rename_everywhere(&snapshot, &query(), &offer.placeholder, "A").unwrap())
    );
    assert_eq!(
        rename(&snapshot, &query(), &rename_to("file:///l/a", 0, 3, "A")),
        Ok(None)
    );
}

#[test]
fn a_rename_of_an_account_that_is_nowhere_changes_nothing() {
    let snapshot = opened("/l/a", LEDGER);
    let edit = rename_everywhere(&snapshot, &query(), "Equity", "E").unwrap();
    assert_eq!(edit.changes.unwrap().len(), 0);
}

// ---- requests that belong together ------------------------------------------------

#[test]
fn the_offer_is_the_same_for_every_cursor_in_an_account() {
    let snapshot = opened("/l/a", LEDGER);
    let first = prepare_rename(&snapshot, &at("file:///l/a", 0, 16)).unwrap();
    assert_eq!(first.as_ref().unwrap().placeholder, "Assets:Cash");
    for character in 16..28 {
        let offer = prepare_rename(&snapshot, &at("file:///l/a", 0, character)).unwrap();
        assert_eq!(offer, first);
    }
    for character in [0, 12, 15] {
        let offer = prepare_rename(&snapshot, &at("file:///l/a", 0, character)).unwrap();
        assert_eq!(offer, None);
    }
}

#[test]
fn what_was_offered_is_replaced() {
    let snapshot = opened("/l/a", LEDGER);
    let uri = "file:///l/a";
    let offer = prepare_rename(&snapshot, &at(uri, 0, 20)).unwrap().unwrap();
    let edit = rename(&snapshot, &query(), &rename_to(uri, 0, 20, "A:B"))
        .unwrap()
        .unwrap();
    let changes = edit.changes.unwrap();
    let expected = TextEdit {
        range: offer.range,
        new_text: "A:B".to_string(),
    };
    assert!(changes.get(uri).unwrap().contains(&expected));
}

#[test]
fn references_to_an_account_and_one_below_share_no_place() {
    let snapshot = opened("/l/a", LEDGER);
    let uri = "file:///l/a";
    let parent = references(&snapshot, &query(), &at(uri, 0, 20)).unwrap().unwrap();
    let child = references(&snapshot, &query(), &at(uri, 1, 20)).unwrap().unwrap();
    assert_eq!((parent.len(), child.len()), (1, 1));
    assert!(!child.contains(&parent[0]));
}

#[test]
fn every_occurrence_finds_the_same_references() {
    let content = "2024-01-01 open Assets:Cash\n2024-01-02 pad Assets:Cash Equity:Open\n";
    let mut snapshot = opened("/l/a", content);
    let other = PathBuf::from("/l/b");
    snapshot.forest.insert(other.clone(), Arc::new(parse(LEDGER)));
    snapshot.open_docs.insert(other, document(LEDGER));
    let found = references(&snapshot, &query(), &at("file:///l/a", 0, 20))
        .unwrap()
        .unwrap();
    assert_eq!(found.len(), 3);
    assert_eq!(found[0].range.start, Position { line: 0, character: 16 });
    for place in &found {
        let line = place.range.start.line;
        for character in place.range.start.character + 1..place.range.end.character + 1 {
            let again = references(&snapshot, &query(), &at(&place.uri, line, character));
            assert_eq!(again.unwrap().unwrap(), found);
        }
    }
}

#[test]
fn a_rename_back_restores_the_document() {
    let content = "2024-01-01 open Assets:Cash\n\
                   2024-01-01 open Assets:Cash:Wallet\n\
                   2024-01-01 open Assets:CashOld\n\
                   2024-01-02 pad Assets:Cash Assets:Cash:Wallet ; \u{e4}\n";
    let uri = "file:///l/a";
    let there = opened("/l/a", content);
    let edit = rename(&there, &query(), &rename_to(uri, 0, 20, "Assets:Geld"))
        .unwrap()
        .unwrap();
    let rewritten = apply(content, edit.changes.unwrap().get(uri).unwrap());
    assert_ne!(rewritten, content);
    let back = opened("/l/a", &rewritten);
    let edit = rename(&back, &query(), &rename_to(uri, 0, 20, "Assets:Cash"))
        .unwrap()
        .unwrap();
    assert_eq!(
        apply(&rewritten, edit.changes.unwrap().get(uri).unwrap()),
        content
    );
}
