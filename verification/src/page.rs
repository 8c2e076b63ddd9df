//! What the crawler makes of a search page: the page shown as a tree, and
//! the result records that it carries.

use vstd::prelude::*;
use crate::Prey;
use crate::dom::{
    TreeNode, collect_preys, has_record, height, lemma_preys_complete, preys_of, record_count,
    render_document, rendered,
};
use crate::errors::SpiderError;
use crate::html::{parse_html, parsed_html, outcome_view};

verus! {

/// Whether `shown` is what the crawler shows of a page that parsed as
/// `parsed`: the tree's text from the left margin (`None` only where the
/// tree is too deep for its indentation to be counted), or the parse error.
pub open spec fn shown_is(shown: Result<Option<String>, String>, parsed: Result<TreeNode, Seq<char>>) -> bool {
    match parsed {
        Ok(n) => shown matches Ok(o) && (o matches Some(s) ==> s@ == rendered(n, 0)) && (o is None
            <==> 4 * height(n) > usize::MAX),
        Err(e) => shown matches Err(m) && m@ == e,
    }
}

/// What is shown of a page that the parser read as `parsed`.
pub fn show_parsed(parsed: Result<TreeNode, String>) -> (shown: Result<Option<String>, String>)
    ensures
        shown_is(shown, outcome_view(parsed)),
{
    match parsed {
        Ok(n) => Ok(render_document(&n)),
        Err(e) => Err(e),
    }
}

/// What is shown of the page `html`: it is parsed as HTML, then its tree
/// is rendered. Reading the bytes never fails.
pub fn show_page(html: &[u8]) -> (shown: Result<Option<String>, String>)
    ensures
        shown is Ok,
        shown_is(shown, parsed_html(html@)),
{
    show_parsed(parse_html(html))
}

/// Whether `found` is what the crawler finds in a page that parsed as
/// `parsed`: the record values of the tree in document order, or the parse
/// error.
pub open spec fn found_is(found: Result<Vec<String>, String>, parsed: Result<TreeNode, Seq<char>>) -> bool {
    match parsed {
        Ok(n) => found matches Ok(v) && v.deep_view() == preys_of(n),
        Err(e) => found matches Err(m) && m@ == e,
    }
}

/// The record values of a page that the parser read as `parsed`.
pub fn preys_in_parsed(parsed: Result<TreeNode, String>) -> (found: Result<Vec<String>, String>)
    ensures
        found_is(found, outcome_view(parsed)),
{
    match parsed {
        Ok(n) => Ok(collect_preys(&n)),
        Err(e) => Err(e),
    }
}

/// The record values of the page `html`, in document order. Reading the
/// bytes never fails.
pub fn preys_in_page(html: &[u8]) -> (found: Result<Vec<String>, String>)
    ensures
        found is Ok,
        found_is(found, parsed_html(html@)),
{
    preys_in_parsed(parse_html(html))
}

/// What a request to the baidu engine yields once its page has been shown:
/// no records where the page parsed, a parse error where it did not.
pub fn baidu_outcome(shown: &Result<Option<String>, String>) -> (r: Result<Vec<Prey>, SpiderError>)
    ensures
        shown is Ok ==> (r matches Ok(v) && v@.len() == 0),
        shown is Err ==> r matches Err(SpiderError::HttpParseError),
{
    match shown {
        Ok(_) => Ok(Vec::new()),
        Err(_) => Err(SpiderError::HttpParseError),
    }
}

/// A page's records are found in full: as many as its tree has record
/// attributes, and a value is among them exactly where some element of the
/// tree carries it in a record attribute.
pub proof fn lemma_found_all_records(found: Result<Vec<String>, String>, n: TreeNode, v: Seq<char>)
    requires
        found_is(found, Ok(n)),
    ensures
        found matches Ok(r) && r.len() == record_count(n) && (r.deep_view().contains(v) <==> has_record(n, v)),
{
    lemma_preys_complete(n, v);
    if let Ok(r) = found {
        assert(r.deep_view().len() == r.len());
    }
}

} // verus!
