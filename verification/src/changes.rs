//! The edits of a rename, document by document.

use crate::account::{law_rest_of_name_stays, rename_account, renamed};
use crate::edits::{back_to_front, order_edits};
use crate::lsp::{Location, LocationView, TextEdit, TextEditView};
use crate::uri::{parse_uri, parsed_uri};
use vstd::prelude::*;

verus! {

/// The edits of the document that `uri` names.
#[derive(Debug, PartialEq, Eq)]
pub struct FileEdits {
    pub uri: String,
    pub edits: Vec<TextEdit>,
}

/// What the edits of a document are, as a mathematical value.
pub ghost struct FileEditsView {
    pub uri: Seq<char>,
    pub edits: Seq<TextEditView>,
}

impl DeepView for FileEdits {
    type V = FileEditsView;

    open spec fn deep_view(&self) -> FileEditsView {
        FileEditsView { uri: self.uri@, edits: self.edits.deep_view() }
    }
}

/// The edit that renames `account` to `new_name` at a place.
pub open spec fn edit_at(
    hit: (LocationView, Seq<char>),
    account: Seq<char>,
    new_name: Seq<char>,
) -> TextEditView {
    TextEditView { range: hit.0.range, new_text: renamed(hit.1, account, new_name) }
}

/// The URIs of places, each once, in the order in which they first occur.
pub open spec fn uris_of(hits: Seq<(LocationView, Seq<char>)>) -> Seq<Seq<char>>
    decreases hits.len(),
{
    if hits.len() == 0 {
        seq![]
    } else {
        let before = uris_of(hits.drop_last());
        let uri = hits.last().0.uri;
        if before.contains(uri) {
            before
        } else {
            before.push(uri)
        }
    }
}

/// The edits at the places in the document that `uri` names, in the order of the places.
pub open spec fn edits_in(
    hits: Seq<(LocationView, Seq<char>)>,
    uri: Seq<char>,
    account: Seq<char>,
    new_name: Seq<char>,
) -> Seq<TextEditView>
    decreases hits.len(),
{
    if hits.len() == 0 {
        seq![]
    } else {
        let before = edits_in(hits.drop_last(), uri, account, new_name);
        if hits.last().0.uri == uri {
            before.push(edit_at(hits.last(), account, new_name))
        } else {
            before
        }
    }
}

/// The edits at places, document by document.
pub open spec fn edits_by_uri(
    hits: Seq<(LocationView, Seq<char>)>,
    account: Seq<char>,
    new_name: Seq<char>,
) -> Seq<FileEditsView> {
    let uris = uris_of(hits);
    Seq::new(
        uris.len(),
        |i: int| FileEditsView { uri: uris[i], edits: edits_in(hits, uris[i], account, new_name) },
    )
}

/// Whether the name at each place starts with `account`.
pub open spec fn names_start_with(
    hits: Seq<(LocationView, Seq<char>)>,
    account: Seq<char>,
) -> bool {
    forall|i: int| 0 <= i < hits.len() ==> account.is_prefix_of((#[trigger] hits[i]).1)
}

proof fn lemma_uris_distinct(hits: Seq<(LocationView, Seq<char>)>)
    ensures
        uris_of(hits).no_duplicates(),
    decreases hits.len(),
{
    if hits.len() > 0 {
        lemma_uris_distinct(hits.drop_last());
    }
}

proof fn lemma_no_edits_elsewhere(
    hits: Seq<(LocationView, Seq<char>)>,
    uri: Seq<char>,
    account: Seq<char>,
    new_name: Seq<char>,
)
    requires
        !uris_of(hits).contains(uri),
    ensures
        edits_in(hits, uri, account, new_name) == Seq::<TextEditView>::empty(),
    decreases hits.len(),
{
    if hits.len() > 0 {
        let before = uris_of(hits.drop_last());
        let last = hits.last().0.uri;
        assert(before.push(last).last() == last);
        if before.contains(uri) {
            let i = choose|i: int| 0 <= i < before.len() && before[i] == uri;
            assert(before.push(last)[i] == uri);
        }
        lemma_no_edits_elsewhere(hits.drop_last(), uri, account, new_name);
    }
}

proof fn lemma_edit_of_known_uri(
    hits: Seq<(LocationView, Seq<char>)>,
    account: Seq<char>,
    new_name: Seq<char>,
    j: int,
)
    requires
        hits.len() > 0,
        0 <= j < uris_of(hits.drop_last()).len(),
        uris_of(hits.drop_last())[j] == hits.last().0.uri,
    ensures
        ({
            let before = edits_by_uri(hits.drop_last(), account, new_name);
            let edit = edit_at(hits.last(), account, new_name);
            let group = FileEditsView { uri: before[j].uri, edits: before[j].edits.push(edit) };
            edits_by_uri(hits, account, new_name) == before.update(j, group)
        }),
{
    let done = hits.drop_last();
    let before = edits_by_uri(done, account, new_name);
    let edit = edit_at(hits.last(), account, new_name);
    let group = FileEditsView { uri: before[j].uri, edits: before[j].edits.push(edit) };
    let after = edits_by_uri(hits, account, new_name);
    lemma_uris_distinct(done);
    assert(uris_of(hits) == uris_of(done));
    assert forall|k: int| 0 <= k < after.len() implies after[k] == before.update(j, group)[k] by {
        if k != j {
            assert(uris_of(done)[k] != uris_of(done)[j]);
        }
    }
    assert(after =~= before.update(j, group));
}

proof fn lemma_edit_of_new_uri(
    hits: Seq<(LocationView, Seq<char>)>,
    account: Seq<char>,
    new_name: Seq<char>,
)
    requires
        hits.len() > 0,
        !uris_of(hits.drop_last()).contains(hits.last().0.uri),
    ensures
        ({
            let before = edits_by_uri(hits.drop_last(), account, new_name);
            let edit = edit_at(hits.last(), account, new_name);
            let group = FileEditsView { uri: hits.last().0.uri, edits: seq![edit] };
            edits_by_uri(hits, account, new_name) == before.push(group)
        }),
{
    let done = hits.drop_last();
    let uri = hits.last().0.uri;
    let before = edits_by_uri(done, account, new_name);
    let edit = edit_at(hits.last(), account, new_name);
    let group = FileEditsView { uri, edits: seq![edit] };
    let after = edits_by_uri(hits, account, new_name);
    lemma_no_edits_elsewhere(done, uri, account, new_name);
    assert(edits_in(hits, uri, account, new_name) =~= seq![edit]);
    assert forall|k: int| 0 <= k < after.len() implies after[k] == before.push(group)[k] by {
        if k < before.len() {
            assert(uris_of(done)[k] != uri);
        }
    }
    assert(after =~= before.push(group));
}

/// Groups the edits at places by document.
pub fn group_edits(hits: &Vec<(Location, String)>, account: &str, new_name: &str) -> (groups: Vec<
    FileEdits,
>)
    requires
        names_start_with(hits.deep_view(), account@),
    ensures
        groups.deep_view() == edits_by_uri(hits.deep_view(), account@, new_name@),
{
    let ghost all = hits.deep_view();
    let mut groups: Vec<FileEdits> = Vec::new();
    let mut i: usize = 0;
    assert(groups.deep_view() =~= edits_by_uri(all.take(0), account@, new_name@));
    while i < hits.len()
        invariant
            all == hits.deep_view(),
            names_start_with(all, account@),
            i <= hits.len(),
            groups.deep_view() == edits_by_uri(all.take(i as int), account@, new_name@),
        decreases hits.len() - i,
    {
        let (location, name) = &hits[i];
        let ghost next = all.take(i + 1);
        let ghost before = groups.deep_view();
        let ghost uris = uris_of(all.take(i as int));
        proof {
            assert(all[i as int] == (location.deep_view(), name@));
            assert(next.drop_last() =~= all.take(i as int));
            assert(before.len() == uris.len());
            assert(forall|k: int| 0 <= k < before.len() ==> (#[trigger] before[k]).uri == uris[k]);
        }
        let new_text: String = rename_account(name, account, new_name);
        let edit: TextEdit = TextEdit { range: location.range, new_text };
        let ghost edit_view = edit_at(next.last(), account@, new_name@);
        let mut j: usize = 0;
        while j < groups.len() && groups[j].uri != location.uri
            invariant
                j <= groups.len(),
                forall|k: int| 0 <= k < j ==> (#[trigger] groups[k]).uri@ != location.uri@,
            decreases groups.len() - j,
        {
            j = j + 1;
        }
        if j < groups.len() {
            proof {
                assert(before[j as int].uri == location.uri@);
                lemma_edit_of_known_uri(next, account@, new_name@, j as int);
            }
            groups[j].edits.push(edit);
            proof {
                let group = groups[j as int].deep_view();
                assert(group.edits =~= before[j as int].edits.push(edit_view));
                assert(groups.deep_view() =~= before.update(j as int, group));
            }
        } else {
            proof {
                assert forall|k: int| 0 <= k < uris.len() implies uris[k] != location.uri@ by {
                    assert(before[k].uri == groups[k].uri@);
                }
                lemma_edit_of_new_uri(next, account@, new_name@);
            }
            let mut edits: Vec<TextEdit> = Vec::new();
            edits.push(edit);
            assert(edits.deep_view() =~= seq![edit_view]);
            groups.push(FileEdits { uri: location.uri.clone(), edits });
            assert(groups.deep_view() =~= before.push(
                FileEditsView { uri: location.uri@, edits: seq![edit_view] },
            ));
        }
        i = i + 1;
    }
    assert(all.take(all.len() as int) =~= all);
    groups
}

/// The index of the group of `uri`.
pub open spec fn group_index(groups: Seq<FileEditsView>, uri: Seq<char>) -> int {
    choose|i: int| 0 <= i < groups.len() && (#[trigger] groups[i]).uri == uri
}

/// Whether there is a group of `uri`.
pub open spec fn has_group(groups: Seq<FileEditsView>, uri: Seq<char>) -> bool {
    exists|i: int| 0 <= i < groups.len() && (#[trigger] groups[i]).uri == uri
}

/// The edits of groups, by URI.
pub open spec fn edits_map(groups: Seq<FileEditsView>) -> Map<Seq<char>, Seq<TextEditView>> {
    Map::new(
        |uri: Seq<char>| has_group(groups, uri),
        |uri: Seq<char>| groups[group_index(groups, uri)].edits,
    )
}

/// Whether no URI has two groups.
pub open spec fn uris_distinct(groups: Seq<FileEditsView>) -> bool {
    forall|i: int, j: int|
        0 <= i < j < groups.len() ==> (#[trigger] groups[i]).uri != (#[trigger] groups[j]).uri
}

/// The edits of a project, by the URI of the document.
#[derive(Debug, PartialEq, Eq)]
pub struct Changes {
    files: Vec<FileEdits>,
}

impl View for Changes {
    type V = Map<Seq<char>, Seq<TextEditView>>;

    closed spec fn view(&self) -> Map<Seq<char>, Seq<TextEditView>> {
        edits_map(self.files.deep_view())
    }
}

impl Changes {
    #[verifier::type_invariant]
    spec fn wf(&self) -> bool {
        uris_distinct(self.files.deep_view())
    }

    /// No edits.
    pub fn new() -> (changes: Changes)
        ensures
            changes@ == Map::<Seq<char>, Seq<TextEditView>>::empty(),
    {
        let changes = Changes { files: Vec::new() };
        assert(changes@ =~= Map::<Seq<char>, Seq<TextEditView>>::empty());
        changes
    }

    /// The index of the document that `uri` names, or the number of documents.
    fn position(&self, uri: &str) -> (index: usize)
        ensures
            index <= self.files.len(),
            index < self.files.len() ==> self.files[index as int].uri@ == uri@,
            index == self.files.len() ==> !has_group(self.files.deep_view(), uri@),
    {
        let uri: String = uri.to_owned();
        let mut i: usize = 0;
        while i < self.files.len() && self.files[i].uri != uri
            invariant
                i <= self.files.len(),
                forall|k: int| 0 <= k < i ==> (#[trigger] self.files[k]).uri@ != uri@,
            decreases self.files.len() - i,
        {
            i = i + 1;
        }
        proof {
            let groups = self.files.deep_view();
            assert(forall|k: int|
                0 <= k < groups.len() ==> (#[trigger] groups[k]).uri == self.files[k].uri@);
        }
        i
    }

    /// The number of documents.
    pub fn len(&self) -> (n: usize)
        ensures
            n == self@.len(),
    {
        proof {
            use_type_invariant(self);
            lemma_edits_map_len(self.files.deep_view());
        }
        self.files.len()
    }

    /// The edits of the document that `uri` names.
    pub fn get(&self, uri: &str) -> (edits: Option<&Vec<TextEdit>>)
        ensures
            edits is Some <==> self@.dom().contains(uri@),
            edits matches Some(e) ==> e.deep_view() == self@[uri@],
    {
        let i: usize = self.position(uri);
        if i < self.files.len() {
            proof {
                use_type_invariant(self);
                lemma_edits_map_at(self.files.deep_view(), i as int);
            }
            Some(&self.files[i].edits)
        } else {
            None
        }
    }

    /// Puts the edits of a document in place of those that it has.
    pub fn insert(&mut self, uri: String, edits: Vec<TextEdit>)
        ensures
            final(self)@ == old(self)@.insert(uri@, edits.deep_view()),
    {
        proof {
            use_type_invariant(&*self);
        }
        let ghost before = self.files.deep_view();
        let i: usize = self.position(&uri);
        let mut files: Vec<FileEdits> = Vec::new();
        std::mem::swap(&mut files, &mut self.files);
        let ghost group = FileEditsView { uri: uri@, edits: edits.deep_view() };
        if i < files.len() {
            files[i].edits = edits;
            proof {
                assert(files.deep_view() =~= before.update(i as int, group));
                lemma_edits_map_update(before, i as int, group);
            }
        } else {
            files.push(FileEdits { uri, edits });
            proof {
                assert(files.deep_view() =~= before.push(group));
                lemma_edits_map_push(before, group);
            }
        }
        self.files = files;
    }

    /// The documents with their edits; no document occurs twice.
    pub fn into_files(self) -> (files: Vec<FileEdits>)
        ensures
            uris_distinct(files.deep_view()),
            edits_map(files.deep_view()) == self@,
    {
        proof {
            use_type_invariant(&self);
        }
        self.files
    }
}

proof fn lemma_edits_map_at(groups: Seq<FileEditsView>, i: int)
    requires
        uris_distinct(groups),
        0 <= i < groups.len(),
    ensures
        group_index(groups, groups[i].uri) == i,
        edits_map(groups).dom().contains(groups[i].uri),
        edits_map(groups)[groups[i].uri] == groups[i].edits,
{
    assert(has_group(groups, groups[i].uri));
    let k = group_index(groups, groups[i].uri);
    assert(0 <= k < groups.len() && groups[k].uri == groups[i].uri);
}

proof fn lemma_edits_map_len(groups: Seq<FileEditsView>)
    requires
        uris_distinct(groups),
    ensures
        edits_map(groups).len() == groups.len(),
{
    let uris = groups.map_values(|g: FileEditsView| g.uri);
    assert(uris.no_duplicates()) by {
        assert forall|i: int, j: int|
            0 <= i < uris.len() && 0 <= j < uris.len() && i != j implies uris[i] != uris[j] by {
            assert(groups[i].uri != groups[j].uri);
        }
    }
    uris.unique_seq_to_set();
    assert forall|uri: Seq<char>| edits_map(groups).dom().contains(uri) <==> uris.to_set().contains(
        uri,
    ) by {
        if has_group(groups, uri) {
            let i = group_index(groups, uri);
            assert(uris[i] == uri);
        }
        if uris.contains(uri) {
            let i = choose|i: int| 0 <= i < uris.len() && uris[i] == uri;
            assert(groups[i].uri == uri);
        }
    }
    assert(edits_map(groups).dom() =~= uris.to_set());
}

proof fn lemma_edits_map_update(groups: Seq<FileEditsView>, i: int, group: FileEditsView)
    requires
        uris_distinct(groups),
        0 <= i < groups.len(),
        group.uri == groups[i].uri,
    ensures
        uris_distinct(groups.update(i, group)),
        edits_map(groups.update(i, group)) == edits_map(groups).insert(group.uri, group.edits),
{
    let after = groups.update(i, group);
    let left = edits_map(after);
    let right = edits_map(groups).insert(group.uri, group.edits);
    assert forall|k: int, l: int| 0 <= k < l < after.len() implies (#[trigger] after[k]).uri != (
    #[trigger] after[l]).uri by {
        assert(groups[k].uri != groups[l].uri);
    }
    assert forall|uri: Seq<char>| left.dom().contains(uri) <==> right.dom().contains(uri) by {
        if has_group(after, uri) {
            let k = group_index(after, uri);
            assert(groups[k].uri == uri);
        }
        if has_group(groups, uri) {
            let k = group_index(groups, uri);
            assert(after[k].uri == uri);
        }
        assert(after[i].uri == group.uri);
    }
    assert forall|uri: Seq<char>| left.dom().contains(uri) implies left[uri] == right[uri] by {
        let k = group_index(after, uri);
        lemma_edits_map_at(after, k);
        lemma_edits_map_at(groups, k);
        lemma_edits_map_at(groups, i);
    }
    assert(left =~= right);
}

proof fn lemma_edits_map_push(groups: Seq<FileEditsView>, group: FileEditsView)
    requires
        uris_distinct(groups),
        !has_group(groups, group.uri),
    ensures
        uris_distinct(groups.push(group)),
        edits_map(groups.push(group)) == edits_map(groups).insert(group.uri, group.edits),
{
    let after = groups.push(group);
    let left = edits_map(after);
    let right = edits_map(groups).insert(group.uri, group.edits);
    assert forall|k: int, l: int| 0 <= k < l < after.len() implies (#[trigger] after[k]).uri != (
    #[trigger] after[l]).uri by {
        assert(groups[k].uri != group.uri);
        if l < groups.len() {
            assert(groups[k].uri != groups[l].uri);
        }
    }
    assert forall|uri: Seq<char>| left.dom().contains(uri) <==> right.dom().contains(uri) by {
        if has_group(after, uri) {
            let k = group_index(after, uri);
            if k < groups.len() {
                assert(groups[k].uri == uri);
            }
        }
        if has_group(groups, uri) {
            let k = group_index(groups, uri);
            assert(after[k].uri == uri);
        }
        assert(after[groups.len() as int].uri == group.uri);
    }
    assert forall|uri: Seq<char>| left.dom().contains(uri) implies left[uri] == right[uri] by {
        let k = group_index(after, uri);
        lemma_edits_map_at(after, k);
        if k < groups.len() {
            lemma_edits_map_at(groups, k);
        }
    }
    assert(left =~= right);
}

/// The changes that groups give, each under the key that stands for its URI. A group without
/// key gives none, and the last of those with one key gives that key its edits.
pub open spec fn changes_from(
    groups: Seq<FileEditsView>,
    keys: Seq<Option<Seq<char>>>,
) -> Map<Seq<char>, Seq<TextEditView>>
    decreases groups.len(),
{
    if groups.len() == 0 {
        Map::empty()
    } else {
        let before = changes_from(groups.drop_last(), keys.drop_last());
        match keys.last() {
            Some(key) => before.insert(key, back_to_front(groups.last().edits)),
            None => before,
        }
    }
}

/// Collects the edits of groups, each group in the order in which its edits are sent.
pub fn collect_changes(groups: Vec<FileEdits>, keys: &Vec<Option<String>>) -> (changes: Changes)
    requires
        groups.len() == keys.len(),
    ensures
        changes@ == changes_from(groups.deep_view(), keys.deep_view()),
{
    let ghost all = groups@;
    let ghost views = groups.deep_view();
    let ghost names = keys.deep_view();
    let mut changes: Changes = Changes::new();
    let mut i: usize = 0;
    assert(views.take(0) =~= Seq::<FileEditsView>::empty());
    for group in it: groups.into_iter()
        invariant
            it.seq() == all,
            i == it.index(),
            all.len() == keys.len(),
            views.len() == all.len(),
            forall|k: int| 0 <= k < all.len() ==> #[trigger] views[k] == all[k].deep_view(),
            names == keys.deep_view(),
            changes@ == changes_from(views.take(i as int), names.take(i as int)),
    {
        proof {
            assert(views.take(i + 1).drop_last() =~= views.take(i as int));
            assert(names.take(i + 1).drop_last() =~= names.take(i as int));
            assert(views[i as int] == group.deep_view());
        }
        if let Some(key) = &keys[i] {
            changes.insert(key.clone(), order_edits(group.edits));
        }
        i = i + 1;
    }
    assert(views.take(views.len() as int) =~= views);
    assert(names.take(names.len() as int) =~= names);
    changes
}

/// The normal forms of the URIs of groups.
pub open spec fn keys_of(groups: Seq<FileEditsView>) -> Seq<Option<Seq<char>>> {
    groups.map_values(|g: FileEditsView| parsed_uri(g.uri))
}

/// The changes that rename `account` to `new_name` at places.
pub open spec fn renaming(
    hits: Seq<(LocationView, Seq<char>)>,
    account: Seq<char>,
    new_name: Seq<char>,
) -> Map<Seq<char>, Seq<TextEditView>> {
    let groups = edits_by_uri(hits, account, new_name);
    changes_from(groups, keys_of(groups))
}

/// The changes that rename `account` to `new_name` at places. The URI of a document is brought
/// into its normal form; a document whose URI has none is left out.
pub fn rename_at(hits: &Vec<(Location, String)>, account: &str, new_name: &str) -> (changes:
    Changes)
    requires
        names_start_with(hits.deep_view(), account@),
    ensures
        changes@ == renaming(hits.deep_view(), account@, new_name@),
{
    let groups: Vec<FileEdits> = group_edits(hits, account, new_name);
    let mut keys: Vec<Option<String>> = Vec::new();
    let mut i: usize = 0;
    while i < groups.len()
        invariant
            i <= groups.len(),
            keys.len() == i,
            forall|k: int|
                0 <= k < i ==> (#[trigger] keys[k]).deep_view() == parsed_uri(groups[k].uri@),
        decreases groups.len() - i,
    {
        keys.push(parse_uri(&groups[i].uri));
        i = i + 1;
    }
    assert(keys.deep_view() =~= keys_of(groups.deep_view()));
    collect_changes(groups, &keys)
}

/// The places in the document that `uri` names.
pub open spec fn hits_at(hits: Seq<(LocationView, Seq<char>)>, uri: Seq<char>) -> Seq<
    (LocationView, Seq<char>),
> {
    hits.filter(|h: (LocationView, Seq<char>)| h.0.uri == uri)
}

/// Each place in a document gets exactly one edit, in the order of the places.
pub proof fn law_one_edit_for_each_place(
    hits: Seq<(LocationView, Seq<char>)>,
    uri: Seq<char>,
    account: Seq<char>,
    new_name: Seq<char>,
)
    ensures
        edits_in(hits, uri, account, new_name) == hits_at(hits, uri).map_values(
            |h: (LocationView, Seq<char>)| edit_at(h, account, new_name),
        ),
    decreases hits.len(),
{
    reveal(Seq::filter);
    let edit = |h: (LocationView, Seq<char>)| edit_at(h, account, new_name);
    if hits.len() == 0 {
        assert(edits_in(hits, uri, account, new_name) =~= hits_at(hits, uri).map_values(edit));
    } else {
        law_one_edit_for_each_place(hits.drop_last(), uri, account, new_name);
        let before = hits_at(hits.drop_last(), uri);
        if hits.last().0.uri == uri {
            assert(before.push(hits.last()).map_values(edit) =~= before.map_values(edit).push(
                edit(hits.last()),
            ));
        }
        assert(edits_in(hits, uri, account, new_name) =~= hits_at(hits, uri).map_values(edit));
    }
}

/// The documents of a rename are those of the places, each once.
pub proof fn law_documents_are_those_of_places(hits: Seq<(LocationView, Seq<char>)>)
    ensures
        uris_of(hits).no_duplicates(),
        forall|uri: Seq<char>|
            uris_of(hits).contains(uri) <==> exists|i: int|
                0 <= i < hits.len() && (#[trigger] hits[i]).0.uri == uri,
    decreases hits.len(),
{
    lemma_uris_distinct(hits);
    if hits.len() > 0 {
        let fewer = hits.drop_last();
        let last = hits.last().0.uri;
        let before = uris_of(fewer);
        law_documents_are_those_of_places(fewer);
        assert forall|uri: Seq<char>|
            uris_of(hits).contains(uri) <==> exists|i: int|
                0 <= i < hits.len() && (#[trigger] hits[i]).0.uri == uri by {
            if uris_of(hits).contains(uri) {
                if before.contains(uri) {
                    let i = choose|i: int| 0 <= i < fewer.len() && (#[trigger] fewer[i]).0.uri == uri;
                    assert(hits[i].0.uri == uri);
                } else {
                    let k = choose|k: int| 0 <= k < uris_of(hits).len() && uris_of(hits)[k] == uri;
                    assert(k == before.len() || before[k] == uri);
                    assert(hits[hits.len() - 1].0.uri == uri);
                }
            }
            if exists|i: int| 0 <= i < hits.len() && (#[trigger] hits[i]).0.uri == uri {
                let i = choose|i: int| 0 <= i < hits.len() && (#[trigger] hits[i]).0.uri == uri;
                if i < fewer.len() {
                    assert(fewer[i].0.uri == uri);
                    assert(before.contains(uri));
                    let k = choose|k: int| 0 <= k < before.len() && before[k] == uri;
                    assert(uris_of(hits)[k] == uri);
                } else if !before.contains(last) {
                    assert(uris_of(hits)[before.len() as int] == uri);
                }
            }
        }
    }
}

proof fn lemma_changes_come_from_groups(
    groups: Seq<FileEditsView>,
    keys: Seq<Option<Seq<char>>>,
    key: Seq<char>,
) -> (g: int)
    requires
        groups.len() == keys.len(),
        changes_from(groups, keys).dom().contains(key),
    ensures
        0 <= g < groups.len(),
        keys[g] == Some(key),
        changes_from(groups, keys)[key] == back_to_front(groups[g].edits),
    decreases groups.len(),
{
    let n = groups.len() - 1;
    if keys.last() == Some(key) {
        n
    } else {
        lemma_changes_come_from_groups(groups.drop_last(), keys.drop_last(), key)
    }
}

proof fn lemma_groups_come_through(
    groups: Seq<FileEditsView>,
    keys: Seq<Option<Seq<char>>>,
    g: int,
)
    requires
        groups.len() == keys.len(),
        0 <= g < groups.len(),
        keys[g] is Some,
    ensures
        changes_from(groups, keys).dom().contains(keys[g]->0),
    decreases groups.len(),
{
    if g < groups.len() - 1 {
        lemma_groups_come_through(groups.drop_last(), keys.drop_last(), g);
    }
}

/// A rename edits nothing but the places: the edits under each key are those at the places of
/// one document, whose URI has the key as its normal form, from the back to the front.
pub proof fn law_edits_are_those_of_places(
    hits: Seq<(LocationView, Seq<char>)>,
    account: Seq<char>,
    new_name: Seq<char>,
    key: Seq<char>,
)
    ensures
        renaming(hits, account, new_name).dom().contains(key) ==> exists|uri: Seq<char>|
            uris_of(hits).contains(uri) && parsed_uri(uri) == Some(key) && renaming(
                hits,
                account,
                new_name,
            )[key] == back_to_front(#[trigger] edits_in(hits, uri, account, new_name)),
{
    let groups = edits_by_uri(hits, account, new_name);
    if renaming(hits, account, new_name).dom().contains(key) {
        let g = lemma_changes_come_from_groups(groups, keys_of(groups), key);
        let uri = uris_of(hits)[g];
        assert(groups[g].edits == edits_in(hits, uri, account, new_name));
        assert(uris_of(hits).contains(uri));
    }
}

/// Whether the URI of each place is its own normal form.
pub open spec fn uris_are_normal(hits: Seq<(LocationView, Seq<char>)>) -> bool {
    forall|i: int|
        0 <= i < hits.len() ==> parsed_uri((#[trigger] hits[i]).0.uri) == Some(hits[i].0.uri)
}

/// A rename reaches every place: where the URIs of the places are their own normal forms, each
/// document with a place has the edits of all of its places, from the back to the front, and no
/// other document has edits.
pub proof fn law_every_place_is_edited(
    hits: Seq<(LocationView, Seq<char>)>,
    account: Seq<char>,
    new_name: Seq<char>,
    uri: Seq<char>,
)
    ensures
        uris_are_normal(hits) ==> {
            let changes = renaming(hits, account, new_name);
            &&& changes.dom().contains(uri) <==> uris_of(hits).contains(uri)
            &&& uris_of(hits).contains(uri) ==> changes[uri] == back_to_front(
                edits_in(hits, uri, account, new_name),
            )
        },
{
    let groups = edits_by_uri(hits, account, new_name);
    let uris = uris_of(hits);
    law_documents_are_those_of_places(hits);
    if uris_are_normal(hits) {
        assert forall|g: int| 0 <= g < uris.len() implies parsed_uri(#[trigger] uris[g]) == Some(
            uris[g],
        ) by {
            assert(uris.contains(uris[g]));
            let i = choose|i: int| 0 <= i < hits.len() && (#[trigger] hits[i]).0.uri == uris[g];
            assert(parsed_uri(hits[i].0.uri) == Some(hits[i].0.uri));
        }
        if uris.contains(uri) {
            let g = choose|g: int| 0 <= g < uris.len() && uris[g] == uri;
            assert(keys_of(groups)[g] == parsed_uri(uris[g]));
            lemma_groups_come_through(groups, keys_of(groups), g);
        }
        if renaming(hits, account, new_name).dom().contains(uri) {
            let g = lemma_changes_come_from_groups(groups, keys_of(groups), uri);
            assert(keys_of(groups)[g] == parsed_uri(uris[g]));
            assert(uris[g] == uri);
            assert(groups[g].edits == edits_in(hits, uri, account, new_name));
        }
    }
}

pub(crate) proof fn lemma_place_has_edit(
    hits: Seq<(LocationView, Seq<char>)>,
    uri: Seq<char>,
    account: Seq<char>,
    new_name: Seq<char>,
    i: int,
)
    requires
        0 <= i < hits.len(),
        hits[i].0.uri == uri,
    ensures
        edits_in(hits, uri, account, new_name).len() > 0,
        edits_in(hits, uri, account, new_name).contains(edit_at(hits[i], account, new_name)),
    decreases hits.len(),
{
    let edits = edits_in(hits, uri, account, new_name);
    let edit = edit_at(hits[i], account, new_name);
    if i < hits.len() - 1 {
        let before = edits_in(hits.drop_last(), uri, account, new_name);
        lemma_place_has_edit(hits.drop_last(), uri, account, new_name, i);
        let k = choose|k: int| 0 <= k < before.len() && before[k] == edit;
        assert(edits[k] == edit);
    } else {
        assert(edits.last() == edit);
    }
}

pub(crate) proof fn lemma_edits_in_concat(
    one: Seq<(LocationView, Seq<char>)>,
    other: Seq<(LocationView, Seq<char>)>,
    uri: Seq<char>,
    account: Seq<char>,
    new_name: Seq<char>,
)
    ensures
        edits_in(one + other, uri, account, new_name) == edits_in(one, uri, account, new_name)
            + edits_in(other, uri, account, new_name),
    decreases other.len(),
{
    let left = edits_in(one, uri, account, new_name);
    if other.len() == 0 {
        assert(one + other =~= one);
        assert(left + edits_in(other, uri, account, new_name) =~= left);
    } else {
        lemma_edits_in_concat(one, other.drop_last(), uri, account, new_name);
        assert((one + other).drop_last() =~= one + other.drop_last());
        assert(edits_in(one + other, uri, account, new_name) =~= left + edits_in(
            other,
            uri,
            account,
            new_name,
        ));
    }
}

/// The edits of a document come under the normal form of its URI: where no other document has
/// the same normal form, they are the edits at all of its places, from the back to the front,
/// and they come at all if and only if the document has a place.
pub proof fn law_edits_of_a_document(
    hits: Seq<(LocationView, Seq<char>)>,
    account: Seq<char>,
    new_name: Seq<char>,
    uri: Seq<char>,
    key: Seq<char>,
)
    requires
        parsed_uri(uri) == Some(key),
        forall|i: int|
            0 <= i < hits.len() && parsed_uri((#[trigger] hits[i]).0.uri) == Some(key)
                ==> hits[i].0.uri == uri,
    ensures
        ({
            let changes = renaming(hits, account, new_name);
            let edits = edits_in(hits, uri, account, new_name);
            &&& changes.dom().contains(key) <==> edits.len() > 0
            &&& edits.len() > 0 ==> changes[key] == back_to_front(edits)
        }),
{
    let groups = edits_by_uri(hits, account, new_name);
    let uris = uris_of(hits);
    law_documents_are_those_of_places(hits);
    if edits_in(hits, uri, account, new_name).len() > 0 {
        if !uris.contains(uri) {
            lemma_no_edits_elsewhere(hits, uri, account, new_name);
        }
        let g = choose|g: int| 0 <= g < uris.len() && uris[g] == uri;
        assert(keys_of(groups)[g] == parsed_uri(uris[g]));
        lemma_groups_come_through(groups, keys_of(groups), g);
    }
    if renaming(hits, account, new_name).dom().contains(key) {
        let g = lemma_changes_come_from_groups(groups, keys_of(groups), key);
        assert(keys_of(groups)[g] == parsed_uri(uris[g]));
        assert(uris.contains(uris[g]));
        let i = choose|i: int| 0 <= i < hits.len() && (#[trigger] hits[i]).0.uri == uris[g];
        assert(uris[g] == uri);
        lemma_place_has_edit(hits, uri, account, new_name, i);
        assert(groups[g].edits == edits_in(hits, uri, account, new_name));
    }
}

/// The edits of a document come place by place: those at some places and then at others are those
/// at the one and then those at the other. A place in the document gives one edit, of its range,
/// which puts the new name in front of what follows the account there; any other place gives none.
pub proof fn law_edits_come_place_by_place(
    one: Seq<(LocationView, Seq<char>)>,
    other: Seq<(LocationView, Seq<char>)>,
    location: LocationView,
    rest: Seq<char>,
    uri: Seq<char>,
    account: Seq<char>,
    new_name: Seq<char>,
)
    ensures
        edits_in(one + other, uri, account, new_name) == edits_in(one, uri, account, new_name)
            + edits_in(other, uri, account, new_name),
        ({
            let edits = edits_in(seq![(location, account + rest)], uri, account, new_name);
            &&& location.uri == uri ==> edits.len() == 1 && edits[0].range == location.range
                && edits[0].new_text == new_name + rest
            &&& location.uri != uri ==> edits.len() == 0
        }),
        edits_in(seq![], uri, account, new_name).len() == 0,
{
    lemma_edits_in_concat(one, other, uri, account, new_name);
    let hits = seq![(location, account + rest)];
    reveal_with_fuel(edits_in, 2);
    assert(hits.drop_last() =~= Seq::<(LocationView, Seq<char>)>::empty());
    law_rest_of_name_stays(account, rest, new_name);
}

/// Edits are grouped by document: each document that has a place has one group, with the edits at
/// its places, and the groups come in the order in which their documents first have a place.
pub proof fn law_each_document_has_one_group(
    hits: Seq<(LocationView, Seq<char>)>,
    account: Seq<char>,
    new_name: Seq<char>,
) -> (firsts: Seq<int>)
    ensures
        ({
            let groups = edits_by_uri(hits, account, new_name);
            &&& groups.len() == firsts.len()
            &&& forall|g: int|
                0 <= g < groups.len() ==> {
                    &&& 0 <= #[trigger] firsts[g] < hits.len()
                    &&& groups[g].uri == hits[firsts[g]].0.uri
                    &&& groups[g].edits == edits_in(hits, groups[g].uri, account, new_name)
                    &&& forall|i: int|
                        0 <= i < firsts[g] ==> (#[trigger] hits[i]).0.uri != groups[g].uri
                }
            &&& forall|g: int, h: int|
                0 <= g < h < firsts.len() ==> #[trigger] firsts[g] < #[trigger] firsts[h]
            &&& forall|i: int|
                0 <= i < hits.len() ==> exists|g: int|
                    0 <= g < groups.len() && (#[trigger] groups[g]).uri == (
                    #[trigger] hits[i]).0.uri
        }),
{
    let groups = edits_by_uri(hits, account, new_name);
    let firsts = lemma_first_places(hits);
    law_documents_are_those_of_places(hits);
    assert forall|i: int| 0 <= i < hits.len() implies exists|g: int|
        0 <= g < groups.len() && (#[trigger] groups[g]).uri == (#[trigger] hits[i]).0.uri by {
        assert(uris_of(hits).contains(hits[i].0.uri));
        let g = choose|g: int| 0 <= g < uris_of(hits).len() && uris_of(hits)[g] == hits[i].0.uri;
        assert(groups[g].uri == hits[i].0.uri);
    }
    assert forall|g: int| 0 <= g < groups.len() implies {
        &&& 0 <= #[trigger] firsts[g] < hits.len()
        &&& groups[g].uri == hits[firsts[g]].0.uri
        &&& groups[g].edits == edits_in(hits, groups[g].uri, account, new_name)
        &&& forall|i: int| 0 <= i < firsts[g] ==> (#[trigger] hits[i]).0.uri != groups[g].uri
    } by {
        assert(groups[g].uri == uris_of(hits)[g]);
    }
    firsts
}

proof fn lemma_first_places(hits: Seq<(LocationView, Seq<char>)>) -> (firsts: Seq<int>)
    ensures
        firsts.len() == uris_of(hits).len(),
        forall|g: int|
            0 <= g < firsts.len() ==> 0 <= #[trigger] firsts[g] < hits.len()
                && hits[firsts[g]].0.uri == uris_of(hits)[g] && (forall|i: int|
                0 <= i < firsts[g] ==> (#[trigger] hits[i]).0.uri != uris_of(hits)[g]),
        forall|g: int, h: int|
            0 <= g < h < firsts.len() ==> #[trigger] firsts[g] < #[trigger] firsts[h],
    decreases hits.len(),
{
    if hits.len() == 0 {
        Seq::empty()
    } else {
        let fewer = hits.drop_last();
        let before = lemma_first_places(fewer);
        let n = hits.len() - 1;
        let uris = uris_of(fewer);
        let last = hits.last().0.uri;
        assert forall|g: int| 0 <= g < before.len() implies 0 <= #[trigger] before[g] < n
            && hits[before[g]].0.uri == uris[g] && (forall|i: int|
            0 <= i < before[g] ==> (#[trigger] hits[i]).0.uri != uris[g]) by {
            assert(fewer[before[g]] == hits[before[g]]);
            assert forall|i: int| 0 <= i < before[g] implies (#[trigger] hits[i]).0.uri
                != uris[g] by {
                assert(fewer[i] == hits[i]);
            }
        }
        if uris.contains(last) {
            before
        } else {
            let firsts = before.push(n);
            law_documents_are_those_of_places(fewer);
            assert forall|i: int| 0 <= i < n implies (#[trigger] hits[i]).0.uri != last by {
                assert(fewer[i] == hits[i]);
                if fewer[i].0.uri == last {
                    assert(uris.contains(last));
                }
            }
            assert forall|g: int| 0 <= g < firsts.len() implies 0 <= #[trigger] firsts[g]
                < hits.len() && hits[firsts[g]].0.uri == uris_of(hits)[g] && (forall|i: int|
                0 <= i < firsts[g] ==> (#[trigger] hits[i]).0.uri != uris_of(hits)[g]) by {
                if g < before.len() {
                    assert(firsts[g] == before[g]);
                }
            }
            assert forall|g: int, h: int| 0 <= g < h < firsts.len() implies #[trigger] firsts[g]
                < #[trigger] firsts[h] by {
                assert(firsts[g] == before[g]);
                if h < before.len() {
                    assert(firsts[h] == before[h]);
                }
            }
            firsts
        }
    }
}

/// Under each key stand the edits of the last group with that key, in the order in which they are
/// sent; a key that no group has is not there.
pub proof fn law_last_group_of_a_key(
    groups: Seq<FileEditsView>,
    keys: Seq<Option<Seq<char>>>,
    key: Seq<char>,
    g: int,
)
    requires
        groups.len() == keys.len(),
        -1 <= g < groups.len(),
        g >= 0 ==> keys[g] == Some(key),
        forall|h: int| g < h < keys.len() ==> #[trigger] keys[h] != Some(key),
    ensures
        g >= 0 ==> changes_from(groups, keys).dom().contains(key) && changes_from(groups, keys)[key]
            == back_to_front(groups[g].edits),
        g < 0 ==> !changes_from(groups, keys).dom().contains(key),
    decreases groups.len(),
{
    if groups.len() > 0 {
        let n = groups.len() - 1;
        if g < n {
            assert(keys[n] != Some(key));
            law_last_group_of_a_key(groups.drop_last(), keys.drop_last(), key, g);
        }
    }
}

/// The documents of a rename are those in which it has places, under the normal forms of their
/// URIs: a URI without one gives nothing.
pub proof fn law_documents_of_a_rename(
    hits: Seq<(LocationView, Seq<char>)>,
    account: Seq<char>,
    new_name: Seq<char>,
    key: Seq<char>,
)
    ensures
        renaming(hits, account, new_name).dom().contains(key) <==> exists|i: int|
            0 <= i < hits.len() && parsed_uri((#[trigger] hits[i]).0.uri) == Some(key),
{
    let groups = edits_by_uri(hits, account, new_name);
    let uris = uris_of(hits);
    law_documents_are_those_of_places(hits);
    if renaming(hits, account, new_name).dom().contains(key) {
        let g = lemma_changes_come_from_groups(groups, keys_of(groups), key);
        assert(keys_of(groups)[g] == parsed_uri(uris[g]));
        assert(uris.contains(uris[g]));
        let i = choose|i: int| 0 <= i < hits.len() && (#[trigger] hits[i]).0.uri == uris[g];
        assert(parsed_uri(hits[i].0.uri) == Some(key));
    }
    if exists|i: int| 0 <= i < hits.len() && parsed_uri((#[trigger] hits[i]).0.uri) == Some(key) {
        let i = choose|i: int|
            0 <= i < hits.len() && parsed_uri((#[trigger] hits[i]).0.uri) == Some(key);
        assert(uris.contains(hits[i].0.uri));
        let g = choose|g: int| 0 <= g < uris.len() && uris[g] == hits[i].0.uri;
        assert(keys_of(groups)[g] == parsed_uri(uris[g]));
        lemma_groups_come_through(groups, keys_of(groups), g);
    }
}

/// The edits of groups with different URIs are found under the URI of each, and there are no
/// others.
pub proof fn law_each_group_is_under_its_uri(groups: Seq<FileEditsView>, i: int, uri: Seq<char>)
    requires
        forall|k: int, l: int|
            0 <= k < l < groups.len() ==> (#[trigger] groups[k]).uri != (#[trigger] groups[l]).uri,
        0 <= i < groups.len(),
    ensures
        uris_distinct(groups),
        edits_map(groups).dom().contains(groups[i].uri),
        edits_map(groups)[groups[i].uri] == groups[i].edits,
        edits_map(groups).dom().contains(uri) ==> exists|k: int|
            0 <= k < groups.len() && (#[trigger] groups[k]).uri == uri,
{
    lemma_edits_map_at(groups, i);
}

/// Groups are distinct if no two have the same URI, and each is seen by all that it holds.
pub proof fn law_groups_are_seen_whole(groups: Seq<FileEditsView>, i: int, j: int, group: FileEdits)
    requires
        uris_distinct(groups),
        0 <= i < j < groups.len(),
    ensures
        groups[i].uri != groups[j].uri,
        group.deep_view().uri == group.uri@,
        group.deep_view().edits == group.edits.deep_view(),
{
}

} // verus!
