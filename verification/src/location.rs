//! The path part of a repository URL, as the `url` crate reads it.

use url::ParseError;
use url::Url;
use vstd::prelude::*;

verus! {

/// The path of the URL that `Url::parse` reads from `input`, as `Url::path`
/// returns it; `None` where `Url::parse` reports an error.
pub uninterp spec fn url_path(input: Seq<char>) -> Option<Seq<char>>;

/// Parses `input` with `Url::parse` and returns what `Url::path` gives for
/// the parsed URL, or the parser's error.
///
/// Trusted: the result is the one that `url_path` names for `input`. Parsing
/// depends on the input text alone.
#[verifier::external_body]
pub(crate) fn parse_url_path(input: &str) -> (r: Result<String, ParseError>)
    ensures
        match r {
            Ok(path) => url_path(input@) == Some(path@),
            Err(_) => url_path(input@) is None,
        },
{
    match Url::parse(input) {
        Ok(parsed) => Ok(parsed.path().to_string()),
        Err(e) => Err(e),
    }
}

} // verus!
