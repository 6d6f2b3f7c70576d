use beancount_references::files::{Document, FileMap, Snapshot};
use beancount_references::lsp::{
    Position, PrepareRenamePlaceholder, RenameParams, TextDocumentPositionParams,
};
use beancount_references::matches::{find_account_matches, find_references};
use beancount_references::references::{prepare_rename, references, rename};
use beancount_references::syntax::AccountQuery;
use gen_lsp_types::Uri;
use ropey::Rope;
use std::path::PathBuf;
use std::sync::Arc;
use tree_sitter_beancount::tree_sitter::{Parser, Tree};

fn parse(content: &str) -> Tree {
    let mut parser = Parser::new();
    parser
        .set_language(&tree_sitter_beancount::language())
        .unwrap();
    parser.parse(content, None).unwrap()
}

fn document(content: &str) -> Document {
    Document {
        content: Rope::from_str(content),
        version: 0,
    }
}

fn uri_of(path: &PathBuf) -> String {
    Uri::from_file_path(path).unwrap().to_string()
}

struct TestState {
    snapshot: Snapshot,
    query: AccountQuery,
    path: PathBuf,
}

impl TestState {
    fn new(content: &str) -> Self {
        let path = PathBuf::from("/ledger/test.beancount");
        let mut forest = FileMap::new();
        forest.insert(path.clone(), Arc::new(parse(content)));
        let mut open_docs = FileMap::new();
        open_docs.insert(path.clone(), document(content));
        TestState {
            snapshot: Snapshot {
                forest,
                open_docs,
                forest_content: FileMap::new(),
            },
            query: AccountQuery::new().unwrap(),
            path,
        }
    }

    fn at(&self, position: Position) -> TextDocumentPositionParams {
        TextDocumentPositionParams {
            uri: uri_of(&self.path),
            position,
        }
    }
}

#[test]
fn test_find_references_single_account() {
    let content = r#"
2024-01-01 open Assets:Checking
2024-01-02 * "Test"
  Assets:Checking  100.00 USD
  Expenses:Food   -100.00 USD
"#;
    let state = TestState::new(content);
    let locs = find_references(
        &state.query,
        &state.snapshot.forest,
        &state.snapshot.open_docs,
        &state.snapshot.forest_content,
        "Assets:Checking",
    )
    .unwrap();

    assert_eq!(locs.len(), 2); // open + posting
    assert!(locs[0].range.start.line == 1 || locs[1].range.start.line == 1);
    assert!(locs[0].range.start.line == 3 || locs[1].range.start.line == 3);
}

#[test]
fn test_find_references_no_matches() {
    let content = r#"
2024-01-01 open Assets:Checking
2024-01-02 * "Test"
  Assets:Checking  100.00 USD
"#;
    let state = TestState::new(content);
    let locs = find_references(
        &state.query,
        &state.snapshot.forest,
        &state.snapshot.open_docs,
        &state.snapshot.forest_content,
        "Assets:Nonexistent",
    )
    .unwrap();

    assert_eq!(locs.len(), 0);
}

#[test]
fn test_find_references_multiple_files() {
    let content1 = r#"
2024-01-01 open Assets:Bank
2024-01-02 * "Test"
  Assets:Bank  100.00 USD
"#;
    let content2 = r#"
2024-01-03 * "Another"
  Assets:Bank  50.00 USD
"#;
    let path1 = PathBuf::from("/ledger/test1.beancount");
    let path2 = PathBuf::from("/ledger/test2.beancount");

    let mut forest = FileMap::new();
    forest.insert(path1.clone(), Arc::new(parse(content1)));
    forest.insert(path2.clone(), Arc::new(parse(content2)));

    let mut open_docs = FileMap::new();
    open_docs.insert(path1, document(content1));
    open_docs.insert(path2, document(content2));

    let query = AccountQuery::new().unwrap();
    let locs = find_references(&query, &forest, &open_docs, &FileMap::new(), "Assets:Bank").unwrap();

    assert_eq!(locs.len(), 3); // open in file1 + posting in file1 + posting in file2
}

#[test]
fn test_references_handler() {
    let content = r#"
2024-01-01 open Assets:Checking
2024-01-02 * "Test"
  Assets:Checking  100.00 USD
  Expenses:Food   -100.00 USD
"#;
    let state = TestState::new(content);
    let params = state.at(Position {
        line: 1,
        character: 20,
    }); // Position in "Assets:Checking"

    let result = references(&state.snapshot, &state.query, &params).unwrap();
    assert!(result.is_some());
    let locs = result.unwrap();
    assert_eq!(locs.len(), 2); // open + posting
}

#[test]
fn test_rename_handler() {
    let content = r#"
2024-01-01 open Assets:Checking
2024-01-02 * "Test"
  Assets:Checking  100.00 USD
  Expenses:Food   -100.00 USD
"#;
    let state = TestState::new(content);
    let params = RenameParams {
        text_document_position_params: state.at(Position {
            line: 1,
            character: 20,
        }),
        new_name: "Assets:Bank".to_string(),
    };

    let result = rename(&state.snapshot, &state.query, &params).unwrap();
    assert!(result.is_some());
    let edit = result.unwrap();
    assert!(edit.changes.is_some());
    let changes = edit.changes.unwrap();
    assert_eq!(changes.len(), 1);
    let edits = changes.get(&uri_of(&state.path)).unwrap();
    assert_eq!(edits.len(), 2); // Rename in both locations
    assert_eq!(edits[0].new_text, "Assets:Bank");
    assert_eq!(edits[1].new_text, "Assets:Bank");
}

// ---- prepareRename + sub-account cascade -------------------------------

/// Hierarchical fixture: a parent account, a sub-account of it, and a
/// sibling whose name merely *starts with* the parent's.
const HIER: &str = r#"
2024-01-01 open Assets:CurrentAssets:CheckingAccount
2024-01-01 open Assets:CurrentAssets:CheckingAccount:DebitOrders
2024-01-01 open Assets:CurrentAssets:CheckingAccountOld
2024-01-02 * "Test"
  Assets:CurrentAssets:CheckingAccount  100.00 USD
  Assets:CurrentAssets:CheckingAccount:DebitOrders  -60.00 USD
  Assets:CurrentAssets:CheckingAccountOld  -40.00 USD
"#;

const PARENT: &str = "Assets:CurrentAssets:CheckingAccount";
const CHILD: &str = "Assets:CurrentAssets:CheckingAccount:DebitOrders";
const SIBLING: &str = "Assets:CurrentAssets:CheckingAccountOld";
const NEW: &str = "Assets:CurrentAssets:TransactionalAccount";

/// Position OFFSET characters into the first occurrence of NEEDLE on LINE.
/// The fixtures are ASCII, so a byte offset is also the UTF-16 offset.
fn pos_in(content: &str, line: u32, needle: &str, offset: u32) -> Position {
    let text = content.lines().nth(line as usize).expect("line exists");
    let col = text.find(needle).expect("needle on line") as u32;
    Position {
        line,
        character: col + offset,
    }
}

fn prepare_rename_at(content: &str, position: Position) -> Option<PrepareRenamePlaceholder> {
    let state = TestState::new(content);
    prepare_rename(&state.snapshot, &state.at(position)).unwrap()
}

fn assert_prepares_to_parent(position: Position) {
    let p = prepare_rename_at(HIER, position).expect("should be renameable");
    // The placeholder is the FULL dotted account, not the last
    // `:`-separated segment.
    assert_eq!(p.placeholder, PARENT);
    assert_eq!(p.range.start, pos_in(HIER, 1, PARENT, 0));
    assert_eq!(p.range.end, pos_in(HIER, 1, PARENT, PARENT.len() as u32));
}

#[test]
fn test_prepare_rename_mid_segment_spans_full_account() {
    // Cursor inside the LAST segment, where a client guessing with its own
    // word notion would offer only "CheckingAccount".
    assert_prepares_to_parent(pos_in(HIER, 1, "CheckingAccount", 3));
}

#[test]
fn test_prepare_rename_at_first_character() {
    // The widened range reaches back into the space before the account here
    // and finds the `open` around both; the exact point finds the account.
    assert_prepares_to_parent(pos_in(HIER, 1, PARENT, 0));
}

#[test]
fn test_prepare_rename_mid_segment_of_first_component() {
    assert_prepares_to_parent(pos_in(HIER, 1, PARENT, 3));
}

#[test]
fn test_prepare_rename_rejects_non_accounts() {
    // A date, a currency and a narration string all look renameable and must
    // be refused.
    for position in [
        pos_in(HIER, 1, "2024", 2), // date
        pos_in(HIER, 5, "USD", 1),  // currency
        pos_in(HIER, 4, "Test", 1), // narration string
    ] {
        assert!(
            prepare_rename_at(HIER, position).is_none(),
            "expected no rename at {position:?}"
        );
    }
}

#[test]
fn test_rename_cascades_to_subaccounts() {
    let state = TestState::new(HIER);
    let result = rename(
        &state.snapshot,
        &state.query,
        &RenameParams {
            text_document_position_params: state.at(pos_in(HIER, 1, "CheckingAccount", 3)),
            new_name: NEW.to_string(),
        },
    )
    .unwrap()
    .expect("rename should produce edits");

    let changes = result.changes.expect("changes");
    let edits = changes
        .get(&uri_of(&state.path))
        .expect("edits for the fixture file");
    let texts: Vec<&str> = edits.iter().map(|e| e.new_text.as_str()).collect();

    // parent: open + posting. child: open + posting. sibling: untouched.
    assert_eq!(edits.len(), 4, "unexpected edits: {texts:?}");
    assert_eq!(texts.iter().filter(|t| **t == NEW).count(), 2);
    assert_eq!(
        texts
            .iter()
            .filter(|t| **t == format!("{NEW}:DebitOrders"))
            .count(),
        2,
        "sub-account must keep its suffix: {texts:?}"
    );
}

#[test]
fn test_rename_does_not_touch_prefix_sibling() {
    // `Assets:...:CheckingAccountOld` starts with the renamed account but is
    // NOT a sub-account of it.
    let state = TestState::new(HIER);
    let sibling_start = pos_in(HIER, 3, SIBLING, 0);

    let result = rename(
        &state.snapshot,
        &state.query,
        &RenameParams {
            text_document_position_params: state.at(pos_in(HIER, 1, "CheckingAccount", 3)),
            new_name: NEW.to_string(),
        },
    )
    .unwrap()
    .expect("rename should produce edits");

    let changes = result.changes.expect("changes");
    let edits = changes.get(&uri_of(&state.path)).expect("edits");
    assert!(
        edits.iter().all(|e| !e.new_text.ends_with("Old")),
        "sibling was rewritten: {:?}",
        edits.iter().map(|e| &e.new_text).collect::<Vec<_>>()
    );
    assert!(
        edits.iter().all(|e| e.range.start != sibling_start),
        "an edit landed on the prefix sibling"
    );
}

#[test]
fn test_find_account_matches_include_subaccounts() {
    let state = TestState::new(HIER);
    let matches = find_account_matches(
        &state.query,
        &state.snapshot.forest,
        &state.snapshot.open_docs,
        &state.snapshot.forest_content,
        PARENT,
        true,
    )
    .unwrap();
    let mut texts: Vec<String> = matches.into_iter().map(|(_, t)| t).collect();
    texts.sort();
    // Sorted: PARENT is a prefix of CHILD, so it orders first.
    assert_eq!(
        texts,
        vec![
            PARENT.to_string(),
            PARENT.to_string(),
            CHILD.to_string(),
            CHILD.to_string()
        ]
    );
}

#[test]
fn test_find_references_excludes_subaccounts() {
    // A sub-account is not a reference to its parent.
    let state = TestState::new(HIER);
    let locs = find_references(
        &state.query,
        &state.snapshot.forest,
        &state.snapshot.open_docs,
        &state.snapshot.forest_content,
        PARENT,
    )
    .unwrap();
    assert_eq!(locs.len(), 2); // open + posting only
}

#[test]
fn test_prepare_rename_on_subaccount_uses_full_child_name() {
    let p = prepare_rename_at(HIER, pos_in(HIER, 2, "DebitOrders", 2))
        .expect("sub-account should be renameable");
    assert_eq!(p.placeholder, CHILD);
}

#[test]
fn test_references_at_different_positions() {
    let content = r#"
2024-01-01 open Expenses:Food
2024-01-02 * "Lunch"
  Expenses:Food  10.00 USD
"#;
    let state = TestState::new(content);

    // Test at line 1 (open directive)
    let params1 = state.at(Position {
        line: 1,
        character: 20,
    });

    let result1 = references(&state.snapshot, &state.query, &params1).unwrap();
    assert!(result1.is_some());
    assert_eq!(result1.unwrap().len(), 2);
}

#[test]
fn test_references_with_multiple_accounts() {
    let content = r#"
2024-01-01 open Expenses:Food
2024-01-01 open Assets:Cash
2024-01-02 * "Lunch"
  Expenses:Food  10.00 USD
  Assets:Cash   -10.00 USD
"#;
    let state = TestState::new(content);

    let locs_food = find_references(
        &state.query,
        &state.snapshot.forest,
        &state.snapshot.open_docs,
        &state.snapshot.forest_content,
        "Expenses:Food",
    )
    .unwrap();
    assert_eq!(locs_food.len(), 2); // open + posting

    let locs_cash = find_references(
        &state.query,
        &state.snapshot.forest,
        &state.snapshot.open_docs,
        &state.snapshot.forest_content,
        "Assets:Cash",
    )
    .unwrap();
    assert_eq!(locs_cash.len(), 2); // open + posting
}
