//! Paths of files and the URIs that name them. How a path is read, and how it is spelled in a
//! URI, is fixed by the platform that the library is built for.

use gen_lsp_types::Uri;
use std::path::PathBuf;
use std::str::FromStr;
use vstd::prelude::*;

verus! {

/// A path of the file system.
#[verifier::external_type_specification]
#[verifier::external_body]
pub struct ExPathBuf(PathBuf);

/// The bytes that a path holds.
pub uninterp spec fn path_bytes(path: PathBuf) -> Seq<u8>;

/// Whether two paths are equal, which `std` decides component by component.
pub uninterp spec fn paths_equal(a: Seq<u8>, b: Seq<u8>) -> bool;

/// The `file` URI of a path.
pub uninterp spec fn file_uri(path: Seq<u8>) -> Option<Seq<char>>;

/// The path that a URI names.
pub uninterp spec fn uri_file_path(uri: Seq<char>) -> Option<Seq<u8>>;

/// The normal form of a URI.
pub uninterp spec fn parsed_uri(uri: Seq<char>) -> Option<Seq<char>>;

/// Calls `==` of `PathBuf`, and claims that it depends on the bytes of the paths alone, and that
/// a path equals itself.
#[verifier::external_body]
pub(crate) fn same_path(a: &PathBuf, b: &PathBuf) -> (same: bool)
    ensures
        same == paths_equal(path_bytes(*a), path_bytes(*b)),
        path_bytes(*a) == path_bytes(*b) ==> same,
{
    a == b
}

/// Calls `Uri::from_file_path`, and claims that the URI, and whether there is one, depends on
/// the bytes of the path alone.
#[verifier::external_body]
pub(crate) fn uri_from_file_path(path: &PathBuf) -> (uri: Option<String>)
    ensures
        uri.deep_view() == file_uri(path_bytes(*path)),
{
    Uri::from_file_path(path).ok().map(String::from)
}

/// Calls `Uri::to_file_path` on the URI that `uri` spells, and claims that the bytes of the
/// path, and whether there is one, depend on `uri` alone. The library is for systems with Unix
/// paths: on Windows, a build of `url` with debug assertions stops at a URI that names a drive
/// and no file on it, such as `file:///C:`.
#[verifier::external_body]
pub(crate) fn uri_to_file_path(uri: &str) -> (path: Option<PathBuf>)
    ensures
        path is Some <==> uri_file_path(uri@) is Some,
        path matches Some(p) ==> uri_file_path(uri@) == Some(path_bytes(p)),
{
    Uri::from_str(uri).ok()?.to_file_path().ok()
}

/// Calls `Uri::from_str`, and claims that the URI, and whether there is one, depends on `uri`
/// alone.
#[verifier::external_body]
pub(crate) fn parse_uri(uri: &str) -> (parsed: Option<String>)
    ensures
        parsed.deep_view() == parsed_uri(uri@),
{
    Uri::from_str(uri).ok().map(String::from)
}

} // verus!
