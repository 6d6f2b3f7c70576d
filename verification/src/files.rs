//! The files of a project: their syntax trees and their contents.

use crate::uri::{path_bytes, paths_equal, same_path, uri_file_path, uri_to_file_path};
use ropey::Rope;
use std::path::PathBuf;
use std::sync::Arc;
use tree_sitter_beancount::tree_sitter::Tree;
use vstd::prelude::*;

verus! {

/// What `entries` hold at the first path that equals `path`.
pub open spec fn value_at<V>(entries: Seq<(Seq<u8>, V)>, path: Seq<u8>) -> Option<V>
    decreases entries.len(),
{
    if entries.len() == 0 {
        None
    } else if paths_equal(entries[0].0, path) {
        Some(entries[0].1)
    } else {
        value_at(entries.drop_first(), path)
    }
}

/// The index of the first path in `entries` that equals `path`, or the number of entries.
pub open spec fn index_at<V>(entries: Seq<(Seq<u8>, V)>, path: Seq<u8>) -> nat
    decreases entries.len(),
{
    if entries.len() == 0 || paths_equal(entries[0].0, path) {
        0
    } else {
        1 + index_at(entries.drop_first(), path)
    }
}

/// The entries after `value` was put at `path`: in place of the value at an equal path, or else
/// at the end.
pub open spec fn with_value<V>(entries: Seq<(Seq<u8>, V)>, path: Seq<u8>, value: V) -> Seq<
    (Seq<u8>, V),
> {
    let i = index_at(entries, path) as int;
    if i < entries.len() {
        entries.update(i, (entries[i].0, value))
    } else {
        entries.push((path, value))
    }
}

proof fn lemma_index_at<V>(entries: Seq<(Seq<u8>, V)>, path: Seq<u8>, k: int)
    requires
        0 <= k <= entries.len(),
        forall|i: int| 0 <= i < k ==> !paths_equal((#[trigger] entries[i]).0, path),
        k < entries.len() ==> paths_equal(entries[k].0, path),
    ensures
        index_at(entries, path) == k,
    decreases k,
{
    if k > 0 {
        assert(!paths_equal(entries[0].0, path));
        let rest = entries.drop_first();
        assert forall|i: int| 0 <= i < k - 1 implies !paths_equal(
            (#[trigger] rest[i]).0,
            path,
        ) by {
            assert(rest[i] == entries[i + 1]);
        }
        lemma_index_at(rest, path, k - 1);
    }
}

/// Whether no two of the paths of `entries` are equal, and each of them equals itself.
pub open spec fn paths_distinct<V>(entries: Seq<(Seq<u8>, V)>) -> bool {
    &&& forall|i: int|
        0 <= i < entries.len() ==> paths_equal((#[trigger] entries[i]).0, entries[i].0)
    &&& forall|i: int, j: int|
        0 <= i < j < entries.len() ==> !paths_equal(
            (#[trigger] entries[i]).0,
            (#[trigger] entries[j]).0,
        )
}

/// Values by path. No two of the paths are equal.
pub struct FileMap<V> {
    entries: Vec<(PathBuf, V)>,
}

impl<V> FileMap<V> {
    /// The paths with their values, in the order in which the paths came in.
    pub closed spec fn entries(&self) -> Seq<(Seq<u8>, V)> {
        Seq::new(
            self.entries@.len(),
            |i: int| (path_bytes(self.entries@[i].0), self.entries@[i].1),
        )
    }

    /// Whether no two of the paths are equal, and each of them equals itself.
    #[verifier::type_invariant]
    pub open spec fn wf(&self) -> bool {
        paths_distinct(self.entries())
    }

    /// A map without files.
    pub fn new() -> (map: Self)
        ensures
            map.entries() == Seq::<(Seq<u8>, V)>::empty(),
    {
        let map = FileMap { entries: Vec::new() };
        assert(map.entries() =~= Seq::<(Seq<u8>, V)>::empty());
        map
    }

    /// The number of files.
    pub fn len(&self) -> (n: usize)
        ensures
            n == self.entries().len(),
    {
        self.entries.len()
    }

    /// The file at an index.
    pub fn entry(&self, index: usize) -> (entry: (&PathBuf, &V))
        requires
            index < self.entries().len(),
        ensures
            path_bytes(*entry.0) == self.entries()[index as int].0,
            *entry.1 == self.entries()[index as int].1,
    {
        let (path, value) = &self.entries[index];
        (path, value)
    }

    /// The value of a path.
    pub fn get(&self, path: &PathBuf) -> (value: Option<&V>)
        ensures
            value is Some <==> value_at(self.entries(), path_bytes(*path)) is Some,
            value matches Some(v) ==> value_at(self.entries(), path_bytes(*path)) == Some(*v),
    {
        let mut i: usize = 0;
        assert(self.entries().skip(0) =~= self.entries());
        while i < self.entries.len()
            invariant
                i <= self.entries.len() == self.entries().len(),
                value_at(self.entries(), path_bytes(*path)) == value_at(
                    self.entries().skip(i as int),
                    path_bytes(*path),
                ),
            decreases self.entries.len() - i,
        {
            assert(self.entries().skip(i as int)[0] == self.entries()[i as int]);
            if same_path(&self.entries[i].0, path) {
                return Some(&self.entries[i].1);
            }
            assert(self.entries().skip(i as int).drop_first() =~= self.entries().skip(i + 1));
            i = i + 1;
        }
        None
    }
}

impl<V> FileMap<V> {
    /// Puts a value at a path, in place of the value that the path has.
    pub fn insert(&mut self, path: PathBuf, value: V)
        ensures
            final(self).entries() == with_value(old(self).entries(), path_bytes(path), value),
            value_at(final(self).entries(), path_bytes(path)) == Some(value),
    {
        proof {
            use_type_invariant(&*self);
        }
        let ghost before = self.entries();
        let ghost bytes = path_bytes(path);
        let mut entries: Vec<(PathBuf, V)> = Vec::new();
        std::mem::swap(&mut entries, &mut self.entries);
        let mut i: usize = 0;
        while i < entries.len() && !same_path(&entries[i].0, &path)
            invariant
                i <= entries.len() == before.len(),
                bytes == path_bytes(path),
                forall|k: int|
                    0 <= k < before.len() ==> #[trigger] before[k] == (
                        path_bytes(entries[k].0),
                        entries[k].1,
                    ),
                forall|k: int| 0 <= k < i ==> !paths_equal((#[trigger] before[k]).0, bytes),
            decreases entries.len() - i,
        {
            i = i + 1;
        }
        let itself: bool = same_path(&path, &path);
        proof {
            assert(itself);
            assert(i < before.len() ==> before[i as int].0 == path_bytes(entries[i as int].0));
            lemma_index_at(before, bytes, i as int);
            law_value_put_is_found(before, bytes, value);
        }
        if i < entries.len() {
            entries[i].1 = value;
        } else {
            entries.push((path, value));
        }
        let ghost after = FileMap { entries }.entries();
        assert(after =~= with_value(before, bytes, value));
        self.entries = entries;
    }
}

/// A document that is open in an editor.
pub struct Document {
    pub content: Rope,
    pub version: i32,
}

/// The state of a project at the time of a request.
pub struct Snapshot {
    /// The syntax tree of each file.
    pub forest: FileMap<Arc<Tree>>,
    /// The documents that are open.
    pub open_docs: FileMap<Document>,
    /// The contents of the files that are not.
    pub forest_content: FileMap<Arc<Rope>>,
}

impl Snapshot {
    /// Whether the paths of each map are distinct, as they are in every snapshot that is made.
    pub open spec fn wf(&self) -> bool {
        self.forest.wf() && self.open_docs.wf() && self.forest_content.wf()
    }

    /// The syntax tree and the open document of a path, if it has both.
    pub open spec fn opened(&self, path: Seq<u8>) -> Option<(Tree, Document)> {
        match (value_at(self.forest.entries(), path), value_at(self.open_docs.entries(), path)) {
            (Some(tree), Some(document)) => Some((*tree, document)),
            _ => None,
        }
    }

    /// The syntax tree and the open document that a URI names.
    pub open spec fn opened_at(&self, uri: Seq<char>) -> Option<(Tree, Document)> {
        match uri_file_path(uri) {
            Some(path) => self.opened(path),
            None => None,
        }
    }

    /// The syntax tree and the open document of a path, if it has both.
    pub fn tree_and_document(&self, path: &PathBuf) -> (found: Option<(&Tree, &Document)>)
        ensures
            found is Some <==> self.opened(path_bytes(*path)) is Some,
            found matches Some(f) ==> self.opened(path_bytes(*path)) == Some((*f.0, *f.1)),
    {
        match (self.forest.get(path), self.open_docs.get(path)) {
            (Some(tree), Some(document)) => Some((&**tree, document)),
            _ => None,
        }
    }

    /// The syntax tree and the open document that a URI names.
    pub fn tree_and_document_for_uri(&self, uri: &str) -> (found: Option<(&Tree, &Document)>)
        ensures
            found is Some <==> self.opened_at(uri@) is Some,
            found matches Some(f) ==> self.opened_at(uri@) == Some((*f.0, *f.1)),
    {
        match uri_to_file_path(uri) {
            Some(path) => self.tree_and_document(&path),
            None => None,
        }
    }
}

proof fn lemma_value_at_index<V>(entries: Seq<(Seq<u8>, V)>, path: Seq<u8>)
    ensures
        index_at(entries, path) <= entries.len(),
        index_at(entries, path) < entries.len() ==> {
            &&& paths_equal(entries[index_at(entries, path) as int].0, path)
            &&& value_at(entries, path) == Some(entries[index_at(entries, path) as int].1)
        },
        index_at(entries, path) == entries.len() ==> value_at(entries, path) is None,
        forall|i: int|
            0 <= i < index_at(entries, path) ==> !paths_equal((#[trigger] entries[i]).0, path),
    decreases entries.len(),
{
    if entries.len() > 0 && !paths_equal(entries[0].0, path) {
        let rest = entries.drop_first();
        lemma_value_at_index(rest, path);
        assert forall|i: int| 0 <= i < index_at(entries, path) implies !paths_equal(
            (#[trigger] entries[i]).0,
            path,
        ) by {
            if i > 0 {
                assert(rest[i - 1] == entries[i]);
            }
        }
    }
}

/// Each path of a map has the value that it came in with, not that of another path.
pub proof fn law_each_path_has_its_value<V>(entries: Seq<(Seq<u8>, V)>, i: int)
    requires
        paths_distinct(entries),
        0 <= i < entries.len(),
    ensures
        value_at(entries, entries[i].0) == Some(entries[i].1),
{
    assert(forall|k: int|
        0 <= k < i ==> !paths_equal((#[trigger] entries[k]).0, entries[i].0));
    lemma_index_at(entries, entries[i].0, i);
    lemma_value_at_index(entries, entries[i].0);
}

/// A path that equals itself has the value that was last put at it.
pub proof fn law_value_put_is_found<V>(entries: Seq<(Seq<u8>, V)>, path: Seq<u8>, value: V)
    ensures
        paths_equal(path, path) ==> value_at(with_value(entries, path, value), path) == Some(value),
{
    let after = with_value(entries, path, value);
    let i = index_at(entries, path) as int;
    lemma_value_at_index(entries, path);
    if paths_equal(path, path) {
        assert forall|k: int| 0 <= k < i implies !paths_equal((#[trigger] after[k]).0, path) by {
            assert(after[k] == entries[k]);
        }
        lemma_index_at(after, path, i);
        lemma_value_at_index(after, path);
    }
}

/// A value put at a path leaves the values of all other paths as they are: of those that equal
/// neither it nor the path that it replaces the value of.
pub proof fn law_other_values_stay<V>(
    entries: Seq<(Seq<u8>, V)>,
    path: Seq<u8>,
    value: V,
    other: Seq<u8>,
)
    ensures
        !paths_equal(path, other) && (index_at(entries, path) < entries.len() ==> !paths_equal(
            entries[index_at(entries, path) as int].0,
            other,
        )) ==> value_at(with_value(entries, path, value), other) == value_at(entries, other),
{
    let after = with_value(entries, path, value);
    let i = index_at(entries, path) as int;
    lemma_value_at_index(entries, path);
    lemma_value_at_index(entries, other);
    let k = index_at(entries, other) as int;
    if !paths_equal(path, other) && (i < entries.len() ==> !paths_equal(entries[i].0, other)) {
        assert forall|j: int| 0 <= j < k implies !paths_equal((#[trigger] after[j]).0, other) by {
            assert(!paths_equal(entries[j].0, other));
        }
        if k < entries.len() {
            assert(after[k] == entries[k]);
            lemma_index_at(after, other, k);
        } else {
            assert forall|j: int| 0 <= j < after.len() implies !paths_equal(
                (#[trigger] after[j]).0,
                other,
            ) by {
                if j < entries.len() {
                    assert(!paths_equal(entries[j].0, other));
                }
            }
            lemma_index_at(after, other, after.len() as int);
        }
        lemma_value_at_index(after, other);
    }
}

/// The value of a path is that of the first entry whose path equals it, and a path that no entry
/// has the like of has none.
pub proof fn law_value_of_first_equal_path<V>(entries: Seq<(Seq<u8>, V)>, path: Seq<u8>, i: int)
    requires
        0 <= i <= entries.len(),
        forall|k: int| 0 <= k < i ==> !paths_equal((#[trigger] entries[k]).0, path),
        i < entries.len() ==> paths_equal(entries[i].0, path),
    ensures
        i < entries.len() ==> value_at(entries, path) == Some(entries[i].1),
        i == entries.len() ==> value_at(entries, path) is None,
{
    lemma_index_at(entries, path, i);
    lemma_value_at_index(entries, path);
}

/// A value put at a path replaces the value of the first entry whose path equals it, and touches
/// nothing else; where there is none, it comes behind all that was there.
pub proof fn law_value_is_put_in_place<V>(
    entries: Seq<(Seq<u8>, V)>,
    path: Seq<u8>,
    value: V,
    i: int,
)
    requires
        0 <= i <= entries.len(),
        forall|k: int| 0 <= k < i ==> !paths_equal((#[trigger] entries[k]).0, path),
        i < entries.len() ==> paths_equal(entries[i].0, path),
    ensures
        ({
            let after = with_value(entries, path, value);
            &&& i < entries.len() ==> after.len() == entries.len() && after[i] == (
                entries[i].0,
                value,
            )
            &&& i == entries.len() ==> after.len() == entries.len() + 1 && after[i] == (path, value)
            &&& forall|k: int| 0 <= k < entries.len() && k != i ==> #[trigger] after[k] == entries[k]
        }),
{
    lemma_index_at(entries, path, i);
}

/// A map has distinct paths: of two entries, the path of the first does not equal that of the
/// second.
pub proof fn law_distinct_paths<V>(entries: Seq<(Seq<u8>, V)>, i: int, j: int)
    requires
        paths_distinct(entries),
        0 <= i < j < entries.len(),
    ensures
        !paths_equal(entries[i].0, entries[j].0),
        paths_equal(entries[i].0, entries[i].0),
{
    assert(!paths_equal((entries[i]).0, (entries[j]).0));
}

/// What is open at a URI is the tree and the document that the project has at the very path that
/// the URI names; without a path, a tree or a document there is nothing.
pub proof fn law_open_at_uri(snapshot: Snapshot, uri: Seq<char>)
    ensures
        uri_file_path(uri) is None ==> snapshot.opened_at(uri) is None,
        uri_file_path(uri) matches Some(path) ==> {
            let tree = value_at(snapshot.forest.entries(), path);
            let document = value_at(snapshot.open_docs.entries(), path);
            &&& snapshot.opened_at(uri) == snapshot.opened(path)
            &&& tree is None ==> snapshot.opened(path) is None
            &&& document is None ==> snapshot.opened(path) is None
            &&& tree is Some && document is Some ==> snapshot.opened(path) == Some(
                (*tree->0, document->0),
            )
        },
{
}

} // verus!
