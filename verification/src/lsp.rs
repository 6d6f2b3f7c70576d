//! The protocol's plain values: places in documents, and edits of them.

use vstd::prelude::*;

verus! {

/// A place in a document: a zero-based line, and a zero-based offset on that line
/// counted in UTF-16 code units.
#[derive(Debug, Clone, Copy, PartialEq, Eq, Structural, Hash)]
pub struct Position {
    pub line: u32,
    pub character: u32,
}

/// A stretch of a document, from `start` up to but without `end`.
#[derive(Debug, Clone, Copy, PartialEq, Eq, Structural, Hash)]
pub struct Range {
    pub start: Position,
    pub end: Position,
}

impl Position {
    /// Whether this place comes before `other` in the document.
    pub open spec fn before(self, other: Position) -> bool {
        self.line < other.line || (self.line == other.line && self.character < other.character)
    }

    /// Tells whether this place comes before `other` in the document.
    pub fn is_before(&self, other: &Position) -> (earlier: bool)
        ensures
            earlier == self.before(*other),
    {
        self.line < other.line || (self.line == other.line && self.character < other.character)
    }
}

/// A stretch of the document that `uri` names.
#[derive(Debug, PartialEq, Eq)]
pub struct Location {
    pub uri: String,
    pub range: Range,
}

/// What a location is, as a mathematical value.
pub ghost struct LocationView {
    pub uri: Seq<char>,
    pub range: Range,
}

impl DeepView for Location {
    type V = LocationView;

    open spec fn deep_view(&self) -> LocationView {
        LocationView { uri: self.uri@, range: self.range }
    }
}

/// The replacement of a stretch of a document by a text.
#[derive(Debug, PartialEq, Eq)]
pub struct TextEdit {
    pub range: Range,
    pub new_text: String,
}

/// What an edit is, as a mathematical value.
pub ghost struct TextEditView {
    pub range: Range,
    pub new_text: Seq<char>,
}

impl DeepView for TextEdit {
    type V = TextEditView;

    open spec fn deep_view(&self) -> TextEditView {
        TextEditView { range: self.range, new_text: self.new_text@ }
    }
}

/// A place in the document that `uri` names, which a request is about.
#[derive(Debug, PartialEq, Eq)]
pub struct TextDocumentPositionParams {
    pub uri: String,
    pub position: Position,
}

/// What a rename is asked to do.
#[derive(Debug, PartialEq, Eq)]
pub struct RenameParams {
    pub text_document_position_params: TextDocumentPositionParams,
    pub new_name: String,
}

/// What a client offers for editing before a rename: a stretch of the document, and the text
/// to start from.
#[derive(Debug, PartialEq, Eq)]
pub struct PrepareRenamePlaceholder {
    pub range: Range,
    pub placeholder: String,
}

/// What an offer for a rename is, as a mathematical value.
pub ghost struct PlaceholderView {
    pub range: Range,
    pub placeholder: Seq<char>,
}

impl DeepView for PrepareRenamePlaceholder {
    type V = PlaceholderView;

    open spec fn deep_view(&self) -> PlaceholderView {
        PlaceholderView { range: self.range, placeholder: self.placeholder@ }
    }
}

/// A place on an earlier line comes first; on one line, the place with the smaller offset does.
pub proof fn law_places_are_ordered(one: Position, other: Position)
    ensures
        one.line < other.line ==> one.before(other) && !other.before(one),
        one.line == other.line ==> (one.before(other) <==> one.character < other.character),
{
}

/// A location, an edit and an offer are seen by all that they hold.
pub proof fn law_values_are_seen_whole(
    location: Location,
    edit: TextEdit,
    offer: PrepareRenamePlaceholder,
)
    ensures
        location.deep_view().uri == location.uri@,
        location.deep_view().range == location.range,
        edit.deep_view().range == edit.range,
        edit.deep_view().new_text == edit.new_text@,
        offer.deep_view().range == offer.range,
        offer.deep_view().placeholder == offer.placeholder@,
{
}

} // verus!
