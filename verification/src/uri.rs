//! The URLs that the library reads, parsed by the `url` crate that `tower-lsp` re-exports.
use vstd::prelude::*;

use tower_lsp::lsp_types::Url;

verus! {

#[verifier::external_type_specification]
#[verifier::external_body]
pub struct ExUrl(Url);

/// What `Url::parse` makes of a text: `None` where it fails, else the URL's serialization,
/// scheme and path.
pub uninterp spec fn parsed_url(text: Seq<char>) -> Option<(Seq<char>, Seq<char>, Seq<char>)>;

/// What `Url::to_file_path` gives for the URL that `Url::parse` makes of a text, as text:
/// `None` where either call fails or the path is not UTF-8.
pub uninterp spec fn url_file_path(text: Seq<char>) -> Option<Seq<char>>;

/// The serialization of the URL that `Url::from_directory_path` makes of a path: `None`
/// where it fails (a relative path).
pub uninterp spec fn dir_path_url(path: Seq<char>) -> Option<Seq<char>>;

/// The serialization of the URL that `Url::from_file_path` makes of a path: `None` where it
/// fails (a relative path).
pub uninterp spec fn file_path_url(path: Seq<char>) -> Option<Seq<char>>;

/// Wraps `Url::parse` followed by `Url::as_str`, `Url::scheme` and `Url::path` on the
/// result: the serialization, scheme and path of the parsed URL, `None` where parsing fails.
#[verifier::external_body]
pub fn parse_url_parts(text: &str) -> (parts: Option<(String, String, String)>)
    ensures
        match parsed_url(text@) {
            None => parts is None,
            Some((url, scheme, path)) => parts matches Some((u, s, p)) && u@ == url && s@ == scheme
                && p@ == path,
        },
{
    Url::parse(text).ok().map(|url| (url.as_str().to_owned(), url.scheme().to_owned(), url.path().to_owned()))
}

/// Wraps `Url::parse` followed by `Url::to_file_path`, with the path turned into a `String`.
#[verifier::external_body]
pub fn url_to_file_path(text: &str) -> (path: Option<String>)
    ensures
        match url_file_path(text@) {
            None => path is None,
            Some(p) => path matches Some(q) && q@ == p,
        },
{
    Url::parse(text).ok().and_then(|url| url.to_file_path().ok()).and_then(|p| p.into_os_string().into_string().ok())
}

/// Wraps `Url::from_file_path`, giving the URL's serialization.
#[verifier::external_body]
pub fn file_path_to_url(path: &str) -> (url: Option<String>)
    ensures
        match file_path_url(path@) {
            None => url is None,
            Some(u) => url matches Some(v) && v@ == u,
        },
{
    Url::from_file_path(path).ok().map(String::from)
}

/// Wraps `Url::from_directory_path`, giving the URL's serialization.
#[verifier::external_body]
pub fn dir_path_to_url(path: &str) -> (url: Option<String>)
    ensures
        match dir_path_url(path@) {
            None => url is None,
            Some(u) => url matches Some(v) && v@ == u,
        },
{
    Url::from_directory_path(path).ok().map(String::from)
}

} // verus!
