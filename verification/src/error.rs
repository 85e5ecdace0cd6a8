//! Why no branch name or root folder could be given.

use url::ParseError;
use vstd::prelude::*;

verus! {

/// The error of the `url` crate's parser. Nothing is known of a value of it
/// but that the parser returned it.
#[verifier::external_type_specification]
#[verifier::external_body]
pub struct ExParseError(url::ParseError);

/// A failure to name the branch or the root folder.
#[derive(Debug, PartialEq, Eq)]
pub enum AppErr {
    /// The repository URL is no URL.
    Url(ParseError),
    /// The URL's path has no `trunk`, `branches` or `tags` folder.
    UnexpectedRepoLayout,
    /// Every folder behind `branches` or `tags` is blacklisted, or there is
    /// none.
    BranchNameNotFound,
    /// The relative path does not line up with the current directory.
    ParseError,
}

/// What a result says once its string is read as text.
pub open spec fn result_text(r: Result<String, AppErr>) -> Result<Seq<char>, AppErr> {
    match r {
        Ok(s) => Ok(s@),
        Err(e) => Err(e),
    }
}

} // verus!
