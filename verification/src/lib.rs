//! A small search-engine crawler: it builds search requests, reads the
//! HTML pages that come back into a document tree, renders that tree and
//! collects the result records that the pages carry.

pub mod dom;
pub mod errors;
pub mod escape;
pub mod html;
pub mod page;
pub mod plan;
pub mod spider;
mod text;

use vstd::prelude::*;

verus! {

/// One search result, as a page describes it.
#[derive(Debug)]
pub struct Prey {
    pub url: String,
    pub title: String,
    pub content: Option<String>,
}

} // verus!
