//! The errors of the crawler.

use vstd::prelude::*;

verus! {

/// The error type of the HTTP client; it is only carried, never inspected.
#[verifier::external_type_specification]
#[verifier::external_body]
pub struct ExClientError(reqwest::Error);

/// What can go wrong while crawling.
#[derive(Debug)]
pub enum SpiderError {
    /// The HTTP client could not be made.
    HatchError(reqwest::Error),
    /// A request failed.
    HttpError,
    /// A page could not be read as HTML.
    HttpParseError,
    /// A file could not be read or written.
    FileSystemError,
}

impl From<reqwest::Error> for SpiderError {
    fn from(error: reqwest::Error) -> (r: SpiderError) {
        SpiderError::HatchError(error)
    }
}

impl vstd::std_specs::convert::FromSpecImpl<reqwest::Error> for SpiderError {
    open spec fn obeys_from_spec() -> bool {
        true
    }

    open spec fn from_spec(error: reqwest::Error) -> SpiderError {
        SpiderError::HatchError(error)
    }
}

} // verus!
