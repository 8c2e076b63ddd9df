//! Reading an HTML page into the library's document tree, with html5ever's
//! document parser.

use vstd::prelude::*;
use crate::dom::{Attribute, TreeNode, NodeKind};
use html5ever::driver::ParseOpts;
use html5ever::rcdom::Handle;
use html5ever::rcdom::NodeData as DomData;
use html5ever::rcdom::RcDom;
use html5ever::tendril::TendrilSink;
use html5ever::tree_builder::TreeBuilderOpts;
use html5ever::parse_document;
use std::io::Cursor;

verus! {

/// html5ever's node type, which a parsed document is made of; it only passes
/// through the conversion into [`TreeNode`].
#[verifier::external_type_specification]
#[verifier::external_body]
pub struct ExDomNode(html5ever::rcdom::Node);

/// html5ever's kinds of node, which only pass through the conversion into
/// [`NodeKind`].
#[verifier::external_type_specification]
#[verifier::external_body]
pub struct ExDomData(html5ever::rcdom::NodeData);

/// The outcome of html5ever's document parser on the bytes `html` (read as
/// UTF-8, with invalid sequences replaced), with the doctype dropped, as the
/// library's tree: the tree, or the text of the read error.
pub uninterp spec fn parsed_html(html: Seq<u8>) -> Result<TreeNode, Seq<char>>;

/// A parse outcome with its error text taken by its view.
pub open spec fn outcome_view(r: Result<TreeNode, String>) -> Result<TreeNode, Seq<char>> {
    match r {
        Ok(n) => Ok(n),
        Err(e) => Err(e@),
    }
}

/// Copies an html5ever node and its subtree into the library's tree, the
/// children in order. It is part of the conversion in [`parse_html`] and has
/// no contract of its own.
#[verifier::external_body]
fn node_from_handle(handle: &Handle) -> TreeNode {
    let children = handle.children.borrow().iter().map(node_from_handle).collect();
    TreeNode { data: data_from_dom(&handle.data), children }
}

/// Copies what an html5ever node is into the library's [`NodeKind`]: each
/// kind to the kind of the same name with its fields, element and attribute
/// names by their local part. It is part of the conversion in
/// [`parse_html`] and has no contract of its own.
#[verifier::external_body]
fn data_from_dom(data: &DomData) -> NodeKind {
    match data {
        DomData::Document => NodeKind::Document,
        DomData::Doctype { name, public_id, system_id } => NodeKind::Doctype { name: name.to_string(), public_id: public_id.to_string(), system_id: system_id.to_string() },
        DomData::Text { contents } => NodeKind::Text { contents: contents.borrow().to_string() },
        DomData::Comment { contents } => NodeKind::Comment { contents: contents.to_string() },
        DomData::Element { name, attrs, .. } => NodeKind::Element { name: name.local.to_string(), attrs: attrs.borrow().iter().map(|a| Attribute { name: a.name.local.to_string(), value: a.value.to_string() }).collect() },
        DomData::ProcessingInstruction { target, contents } => NodeKind::ProcessingInstruction { target: target.to_string(), contents: contents.to_string() },
    }
}

/// Parses `html` with `html5ever::parse_document` (UTF-8 input, doctype
/// dropped, other options at their defaults) and reads the document into the
/// library's tree. The contract claims only that the outcome is the one that
/// [`parsed_html`] names for these bytes (the parser is the same on the same
/// bytes; what tree it builds is html5ever's to say), and that reading never
/// fails: tendril's `read_from` fails only where the reader does, and a
/// `Cursor` over bytes in memory never does.
#[verifier::external_body]
pub(crate) fn parse_html(html: &[u8]) -> (dom: Result<TreeNode, String>)
    ensures
        dom is Ok,
        outcome_view(dom) == parsed_html(html@),
{
    let opts = ParseOpts { tree_builder: TreeBuilderOpts { drop_doctype: true, ..TreeBuilderOpts::default() }, ..ParseOpts::default() };
    let read = parse_document(RcDom::default(), opts).from_utf8().read_from(&mut Cursor::new(html));
    read.map(|dom| node_from_handle(&dom.document)).map_err(|e| e.to_string())
}

} // verus!
