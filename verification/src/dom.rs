//! The document tree that a parsed HTML page becomes, and the two walks
//! over it: collecting result records and rendering the tree as text.

use vstd::prelude::*;
use crate::escape::{escape_default, escaped, lemma_escaped_printable, printable};
use crate::text::push_char;

verus! {

/// The attribute whose values carry the result records of a page.
pub const PREY_ATTRIBUTE: &'static str = "data-tools";

/// An attribute of an element: its local name and its value.
#[derive(Debug)]
pub struct Attribute {
    pub name: String,
    pub value: String,
}

/// What a node of the document is.
#[derive(Debug)]
pub enum NodeKind {
    /// The document itself, the root of the tree.
    Document,
    /// A `DOCTYPE` with its name, public id and system id.
    Doctype { name: String, public_id: String, system_id: String },
    /// A text node.
    Text { contents: String },
    /// A comment.
    Comment { contents: String },
    /// An element with its local name and its attributes, in order.
    Element { name: String, attrs: Vec<Attribute> },
    /// A processing instruction.
    ProcessingInstruction { target: String, contents: String },
}

/// A node of the document tree with its children, in document order.
#[derive(Debug)]
pub struct TreeNode {
    pub data: NodeKind,
    pub children: Vec<TreeNode>,
}

/// The values of the record attributes among `attrs`, in order.
pub open spec fn prey_values(attrs: Seq<Attribute>) -> Seq<Seq<char>>
    decreases attrs.len(),
{
    if attrs.len() == 0 {
        seq![]
    } else {
        let rest = prey_values(attrs.drop_last());
        if attrs.last().name@ == PREY_ATTRIBUTE@ {
            rest.push(attrs.last().value@)
        } else {
            rest
        }
    }
}

/// The record values that a node itself carries (only elements carry any).
pub open spec fn own_preys(data: NodeKind) -> Seq<Seq<char>> {
    match data {
        NodeKind::Element { attrs, .. } => prey_values(attrs@),
        _ => seq![],
    }
}

/// The record values of a whole tree, in document order: the node's own,
/// then those of each child's subtree in turn.
pub open spec fn preys_of(node: TreeNode) -> Seq<Seq<char>>
    decreases node, 1nat,
{
    own_preys(node.data) + preys_of_all(node.children@)
}

/// The record values of a sequence of subtrees, one after the other.
pub open spec fn preys_of_all(nodes: Seq<TreeNode>) -> Seq<Seq<char>>
    decreases nodes, 0nat,
{
    if nodes.len() == 0 {
        seq![]
    } else {
        preys_of_all(nodes.drop_last()) + preys_of(nodes.last())
    }
}

/// Appends to `preys` the record values that `attrs` carry, in order.
fn collect_attr_preys(preys: &mut Vec<String>, attrs: &Vec<Attribute>)
    ensures
        final(preys).deep_view() == old(preys).deep_view() + prey_values(attrs@),
{
    let key = PREY_ATTRIBUTE.to_owned();
    let mut i: usize = 0;
    while i < attrs.len()
        invariant
            i <= attrs.len(),
            key@ == PREY_ATTRIBUTE@,
            preys.deep_view() == old(preys).deep_view() + prey_values(attrs@.take(i as int)),
        decreases attrs.len() - i,
    {
        let attr = &attrs[i];
        proof {
            assert(attrs@.take(i + 1).drop_last() =~= attrs@.take(i as int));
        }
        let ghost before = preys.deep_view();
        if attr.name == key {
            preys.push(attr.value.clone());
            assert(preys.deep_view() =~= before.push(attr.value@));
        }
        i = i + 1;
    }
    proof {
        assert(attrs@.take(attrs.len() as int) =~= attrs@);
    }
}

/// Collects the record values of the tree under `node` into `preys`: first
/// the values of the node's own record attributes, then, child by child,
/// those of each subtree, so that they come out in document order.
pub fn walk(preys: &mut Vec<String>, node: &TreeNode)
    ensures
        final(preys).deep_view() == old(preys).deep_view() + preys_of(*node),
    decreases node,
{
    match &node.data {
        NodeKind::Element { attrs, .. } => {
            collect_attr_preys(preys, attrs);
        },
        _ => {},
    }
    let ghost mid = preys.deep_view();
    let mut i: usize = 0;
    while i < node.children.len()
        invariant
            i <= node.children.len(),
            preys.deep_view() == mid + preys_of_all(node.children@.take(i as int)),
        decreases node.children.len() - i,
    {
        proof {
            assert(node.children@.take(i + 1).drop_last() =~= node.children@.take(i as int));
        }
        let ghost before = preys.deep_view();
        let mut p: Vec<String> = Vec::new();
        walk(&mut p, &node.children[i]);
        let ghost sub = p.deep_view();
        preys.append(&mut p);
        assert(preys.deep_view() =~= before + sub);
        i = i + 1;
    }
    proof {
        assert(node.children@.take(node.children.len() as int) =~= node.children@);
    }
}

/// `n` spaces.
pub open spec fn spaces(n: nat) -> Seq<char> {
    Seq::new(n, |i: int| ' ')
}

/// The attributes of an element as they are shown after its name:
/// ` name="value"` for each, in order.
pub open spec fn attrs_text(attrs: Seq<Attribute>) -> Seq<char>
    decreases attrs.len(),
{
    if attrs.len() == 0 {
        seq![]
    } else {
        let a = attrs.last();
        attrs_text(attrs.drop_last()) + " "@ + a.name@ + "=\""@ + a.value@ + "\""@
    }
}

/// The line that shows a node, without its indentation. A processing
/// instruction is shown as nothing at all, not even a line break.
pub open spec fn node_line(data: NodeKind) -> Seq<char> {
    match data {
        NodeKind::Document => "#Document\n"@,
        NodeKind::Doctype { name, public_id, system_id } => "<!DOCTYPE "@ + name@ + " \""@
            + public_id@ + "\" \""@ + system_id@ + "\">\n"@,
        NodeKind::Text { contents } => "#text: "@ + escaped(contents@) + "\n"@,
        NodeKind::Comment { contents } => "<!-- "@ + escaped(contents@) + " -->\n"@,
        NodeKind::Element { name, attrs } => "<"@ + name@ + attrs_text(attrs@) + ">\n"@,
        NodeKind::ProcessingInstruction { .. } => seq![],
    }
}

/// The text of a tree shown from `indent` on: the node's line after
/// `indent` spaces, then each child's subtree, four spaces further in.
pub open spec fn rendered(node: TreeNode, indent: nat) -> Seq<char>
    decreases node, 1nat,
{
    spaces(indent) + node_line(node.data) + rendered_all(node.children@, indent + 4)
}

/// The text of a sequence of subtrees shown at the same indentation.
pub open spec fn rendered_all(nodes: Seq<TreeNode>, indent: nat) -> Seq<char>
    decreases nodes, 0nat,
{
    if nodes.len() == 0 {
        seq![]
    } else {
        rendered_all(nodes.drop_last(), indent) + rendered(nodes.last(), indent)
    }
}

/// The number of levels of a tree: one for a leaf.
pub open spec fn height(node: TreeNode) -> nat
    decreases node, 1nat,
{
    1 + max_height(node.children@)
}

/// The greatest height among a sequence of subtrees (zero for none).
pub open spec fn max_height(nodes: Seq<TreeNode>) -> nat
    decreases nodes, 0nat,
{
    if nodes.len() == 0 {
        0
    } else {
        let a = max_height(nodes.drop_last());
        let b = height(nodes.last());
        if a >= b {
            a
        } else {
            b
        }
    }
}

proof fn lemma_max_height(nodes: Seq<TreeNode>, k: nat)
    ensures
        max_height(nodes) <= k <==> forall|i: int| 0 <= i < nodes.len() ==> #[trigger] height(nodes[i]) <= k,
    decreases nodes.len(),
{
    if nodes.len() > 0 {
        let init = nodes.drop_last();
        lemma_max_height(init, k);
        if max_height(nodes) <= k {
            assert forall|i: int| 0 <= i < nodes.len() implies #[trigger] height(nodes[i]) <= k by {
                if i < nodes.len() - 1 {
                    assert(init[i] == nodes[i]);
                    assert(height(init[i]) <= k);
                }
            }
        }
        if forall|i: int| 0 <= i < nodes.len() ==> #[trigger] height(nodes[i]) <= k {
            assert forall|i: int| 0 <= i < init.len() implies #[trigger] height(init[i]) <= k by {
                assert(init[i] == nodes[i]);
                assert(height(nodes[i]) <= k);
            }
            assert(height(nodes[nodes.len() - 1]) <= k);
        }
    }
}

fn push_spaces(out: &mut String, n: usize)
    ensures
        final(out)@ == old(out)@ + spaces(n as nat),
{
    let mut i: usize = 0;
    while i < n
        invariant
            i <= n,
            out@ == old(out)@ + spaces(i as nat),
        decreases n - i,
    {
        push_char(out, ' ');
        i = i + 1;
        assert(out@ =~= old(out)@ + spaces(i as nat));
    }
}

fn push_attrs(out: &mut String, attrs: &Vec<Attribute>)
    ensures
        final(out)@ == old(out)@ + attrs_text(attrs@),
{
    let mut i: usize = 0;
    while i < attrs.len()
        invariant
            i <= attrs.len(),
            out@ == old(out)@ + attrs_text(attrs@.take(i as int)),
        decreases attrs.len() - i,
    {
        proof {
            assert(attrs@.take(i + 1).drop_last() =~= attrs@.take(i as int));
        }
        let attr = &attrs[i];
        out.append(" ");
        out.append(attr.name.as_str());
        out.append("=\"");
        out.append(attr.value.as_str());
        out.append("\"");
        i = i + 1;
        assert(out@ =~= old(out)@ + attrs_text(attrs@.take(i as int)));
    }
    proof {
        assert(attrs@.take(attrs.len() as int) =~= attrs@);
    }
}

fn push_node_line(out: &mut String, data: &NodeKind)
    ensures
        final(out)@ == old(out)@ + node_line(*data),
{
    match data {
        NodeKind::Document => {
            out.append("#Document\n");
        },
        NodeKind::Doctype { name, public_id, system_id } => {
            out.append("<!DOCTYPE ");
            out.append(name.as_str());
            out.append(" \"");
            out.append(public_id.as_str());
            out.append("\" \"");
            out.append(system_id.as_str());
            out.append("\">\n");
        },
        NodeKind::Text { contents } => {
            out.append("#text: ");
            let e = escape_default(contents.as_str());
            out.append(e.as_str());
            out.append("\n");
        },
        NodeKind::Comment { contents } => {
            out.append("<!-- ");
            let e = escape_default(contents.as_str());
            out.append(e.as_str());
            out.append(" -->\n");
        },
        NodeKind::Element { name, attrs } => {
            out.append("<");
            out.append(name.as_str());
            push_attrs(out, attrs);
            out.append(">\n");
        },
        NodeKind::ProcessingInstruction { .. } => {},
    }
    assert(out@ =~= old(out)@ + node_line(*data));
}

/// Appends to `out` the text of the tree under `node`, shown from `indent`
/// on: each node on a line of its own, four spaces further in than its
/// parent, text and comments escaped.
pub fn walk_all(out: &mut String, indent: usize, node: &TreeNode)
    requires
        indent + 4 * height(*node) <= usize::MAX,
    ensures
        final(out)@ == old(out)@ + rendered(*node, indent as nat),
    decreases node,
{
    push_spaces(out, indent);
    push_node_line(out, &node.data);
    let ghost mid = out@;
    proof {
        lemma_max_height(node.children@, max_height(node.children@));
    }
    let mut i: usize = 0;
    while i < node.children.len()
        invariant
            i <= node.children.len(),
            indent + 4 * height(*node) <= usize::MAX,
            forall|j: int| 0 <= j < node.children.len() ==> #[trigger] height(node.children@[j]) <= max_height(node.children@),
            out@ == mid + rendered_all(node.children@.take(i as int), (indent + 4) as nat),
        decreases node.children.len() - i,
    {
        proof {
            assert(node.children@.take(i + 1).drop_last() =~= node.children@.take(i as int));
            assert(height(node.children@[i as int]) <= max_height(node.children@));
        }
        walk_all(out, indent + 4, &node.children[i]);
        i = i + 1;
    }
    proof {
        assert(node.children@.take(node.children.len() as int) =~= node.children@);
    }
    assert(out@ =~= old(out)@ + rendered(*node, indent as nat));
}

/// Whether a tree of this height can be shown with `room` columns of
/// indentation to spare: four per level.
fn fits_in(node: &TreeNode, room: usize) -> (b: bool)
    ensures
        b == (4 * height(*node) <= room),
    decreases node,
{
    if room < 4 {
        return false;
    }
    let ghost k: nat = ((room - 4) / 4) as nat;
    proof {
        lemma_max_height(node.children@, k);
    }
    let mut i: usize = 0;
    while i < node.children.len()
        invariant
            4 <= room,
            k == (room - 4) / 4,
            i <= node.children.len(),
            forall|j: int| 0 <= j < i ==> #[trigger] height(node.children@[j]) <= k,
            max_height(node.children@) <= k <==> forall|j: int|
                0 <= j < node.children.len() ==> #[trigger] height(node.children@[j]) <= k,
        decreases node.children.len() - i,
    {
        if !fits_in(&node.children[i], room - 4) {
            assert(height(node.children@[i as int]) > k);
            return false;
        }
        i = i + 1;
    }
    true
}

/// The text of a whole document tree, shown from the left margin; `None`
/// where the tree is too deep for its indentation to be counted in a `usize`.
pub fn render_document(node: &TreeNode) -> (r: Option<String>)
    ensures
        r matches Some(s) ==> s@ == rendered(*node, 0),
        r is None <==> 4 * height(*node) > usize::MAX,
{
    if fits_in(node, usize::MAX) {
        let mut out = String::new();
        walk_all(&mut out, 0, node);
        assert(out@ =~= rendered(*node, 0));
        Some(out)
    } else {
        None
    }
}

/// The record values carried by the tree under `node`, in document order.
pub fn collect_preys(node: &TreeNode) -> (preys: Vec<String>)
    ensures
        preys.deep_view() == preys_of(*node),
{
    let mut preys: Vec<String> = Vec::new();
    walk(&mut preys, node);
    assert(preys.deep_view() =~= preys_of(*node));
    preys
}

/// The number of line breaks in `s`.
pub open spec fn line_breaks(s: Seq<char>) -> nat
    decreases s.len(),
{
    if s.len() == 0 {
        0
    } else {
        line_breaks(s.drop_last()) + if s.last() == '\n' {
            1nat
        } else {
            0nat
        }
    }
}

/// Whether `s` holds no line break.
pub open spec fn unbroken(s: Seq<char>) -> bool {
    forall|i: int| 0 <= i < s.len() ==> s[i] != '\n'
}

/// Whether the fields that a node's line shows as they stand (names,
/// attribute values, doctype fields) hold no line break; text and comments
/// are escaped and need no such condition.
pub open spec fn data_unbroken(data: NodeKind) -> bool {
    match data {
        NodeKind::Doctype { name, public_id, system_id } => unbroken(name@) && unbroken(public_id@)
            && unbroken(system_id@),
        NodeKind::Element { name, attrs } => unbroken(name@) && forall|k: int|
            0 <= k < attrs@.len() ==> unbroken(#[trigger] attrs@[k].name@) && unbroken(
                attrs@[k].value@,
            ),
        _ => true,
    }
}

/// Whether every node of the tree is [`data_unbroken`].
pub open spec fn tree_unbroken(node: TreeNode) -> bool
    decreases node, 1nat,
{
    data_unbroken(node.data) && all_unbroken(node.children@)
}

/// Whether every tree of a sequence is [`tree_unbroken`].
pub open spec fn all_unbroken(nodes: Seq<TreeNode>) -> bool
    decreases nodes, 0nat,
{
    nodes.len() == 0 || (all_unbroken(nodes.drop_last()) && tree_unbroken(nodes.last()))
}

/// The number of nodes of a tree that are shown on a line: all but
/// processing instructions.
pub open spec fn shown_nodes(node: TreeNode) -> nat
    decreases node, 1nat,
{
    (if node.data is ProcessingInstruction {
        0nat
    } else {
        1nat
    }) + shown_nodes_all(node.children@)
}

/// [`shown_nodes`] summed over a sequence of trees.
pub open spec fn shown_nodes_all(nodes: Seq<TreeNode>) -> nat
    decreases nodes, 0nat,
{
    if nodes.len() == 0 {
        0
    } else {
        shown_nodes_all(nodes.drop_last()) + shown_nodes(nodes.last())
    }
}

proof fn lemma_breaks_concat(a: Seq<char>, b: Seq<char>)
    ensures
        line_breaks(a + b) == line_breaks(a) + line_breaks(b),
    decreases b.len(),
{
    if b.len() == 0 {
        assert(a + b =~= a);
    } else {
        lemma_breaks_concat(a, b.drop_last());
        assert((a + b).drop_last() =~= a + b.drop_last());
    }
}

proof fn lemma_breaks_none(s: Seq<char>)
    requires
        unbroken(s),
    ensures
        line_breaks(s) == 0,
    decreases s.len(),
{
    if s.len() > 0 {
        assert(unbroken(s.drop_last()));
        lemma_breaks_none(s.drop_last());
    }
}

proof fn lemma_breaks_last(s: Seq<char>)
    requires
        s.len() > 0,
        s.last() == '\n',
        unbroken(s.drop_last()),
    ensures
        line_breaks(s) == 1,
{
    lemma_breaks_none(s.drop_last());
}

proof fn lemma_printable_unbroken(s: Seq<char>)
    requires
        printable(s),
    ensures
        unbroken(s),
{
    assert forall|i: int| 0 <= i < s.len() implies s[i] != '\n' by {
        assert(0x20 <= (s[i] as u32));
    }
}

proof fn lemma_attrs_unbroken(attrs: Seq<Attribute>)
    requires
        forall|k: int| 0 <= k < attrs.len() ==> unbroken(#[trigger] attrs[k].name@) && unbroken(attrs[k].value@),
    ensures
        line_breaks(attrs_text(attrs)) == 0,
    decreases attrs.len(),
{
    if attrs.len() > 0 {
        let init = attrs.drop_last();
        let a = attrs.last();
        assert forall|k: int| 0 <= k < init.len() implies unbroken(#[trigger] init[k].name@) && unbroken(init[k].value@) by {
            assert(init[k] == attrs[k]);
        }
        lemma_attrs_unbroken(init);
        assert(unbroken(attrs[attrs.len() - 1].name@));
        reveal_strlit(" ");
        reveal_strlit("=\"");
        reveal_strlit("\"");
        let t = attrs_text(init) + " "@ + a.name@ + "=\""@ + a.value@ + "\""@;
        lemma_breaks_concat(attrs_text(init) + " "@ + a.name@ + "=\""@ + a.value@, "\""@);
        lemma_breaks_concat(attrs_text(init) + " "@ + a.name@ + "=\""@, a.value@);
        lemma_breaks_concat(attrs_text(init) + " "@ + a.name@, "=\""@);
        lemma_breaks_concat(attrs_text(init) + " "@, a.name@);
        lemma_breaks_concat(attrs_text(init), " "@);
        lemma_breaks_none(" "@);
        lemma_breaks_none("=\""@);
        lemma_breaks_none("\""@);
        lemma_breaks_none(a.name@);
        lemma_breaks_none(a.value@);
    }
}

proof fn lemma_node_line_breaks(data: NodeKind)
    requires
        data_unbroken(data),
    ensures
        line_breaks(node_line(data)) == if data is ProcessingInstruction {
            0nat
        } else {
            1nat
        },
{
    reveal_strlit("#Document\n");
    reveal_strlit("<!DOCTYPE ");
    reveal_strlit(" \"");
    reveal_strlit("\" \"");
    reveal_strlit("\">\n");
    reveal_strlit("#text: ");
    reveal_strlit("\n");
    reveal_strlit("<!-- ");
    reveal_strlit(" -->\n");
    reveal_strlit("<");
    reveal_strlit(">\n");
    match data {
        NodeKind::Document => {
            lemma_breaks_last("#Document\n"@);
        },
        NodeKind::Doctype { name, public_id, system_id } => {
            let a = "<!DOCTYPE "@ + name@;
            let b = a + " \""@ + public_id@;
            let c = b + "\" \""@ + system_id@;
            lemma_breaks_concat("<!DOCTYPE "@, name@);
            lemma_breaks_concat(a, " \""@);
            lemma_breaks_concat(a + " \""@, public_id@);
            lemma_breaks_concat(b, "\" \""@);
            lemma_breaks_concat(b + "\" \""@, system_id@);
            lemma_breaks_concat(c, "\">\n"@);
            lemma_breaks_none("<!DOCTYPE "@);
            lemma_breaks_none(" \""@);
            lemma_breaks_none("\" \""@);
            lemma_breaks_none(name@);
            lemma_breaks_none(public_id@);
            lemma_breaks_none(system_id@);
            lemma_breaks_last("\">\n"@);
        },
        NodeKind::Text { contents } => {
            lemma_escaped_printable(contents@);
            lemma_printable_unbroken(escaped(contents@));
            lemma_breaks_none(escaped(contents@));
            lemma_breaks_concat("#text: "@, escaped(contents@));
            lemma_breaks_concat("#text: "@ + escaped(contents@), "\n"@);
            lemma_breaks_none("#text: "@);
            lemma_breaks_last("\n"@);
        },
        NodeKind::Comment { contents } => {
            lemma_escaped_printable(contents@);
            lemma_printable_unbroken(escaped(contents@));
            lemma_breaks_none(escaped(contents@));
            lemma_breaks_concat("<!-- "@, escaped(contents@));
            lemma_breaks_concat("<!-- "@ + escaped(contents@), " -->\n"@);
            lemma_breaks_none("<!-- "@);
            lemma_breaks_last(" -->\n"@);
        },
        NodeKind::Element { name, attrs } => {
            lemma_attrs_unbroken(attrs@);
            lemma_breaks_concat("<"@, name@);
            lemma_breaks_concat("<"@ + name@, attrs_text(attrs@));
            lemma_breaks_concat("<"@ + name@ + attrs_text(attrs@), ">\n"@);
            lemma_breaks_none("<"@);
            lemma_breaks_none(name@);
            lemma_breaks_last(">\n"@);
        },
        NodeKind::ProcessingInstruction { .. } => {},
    }
}

/// One line per shown node: where no name, attribute or doctype field of
/// a tree holds a line break, its text, at any indentation, holds exactly
/// one line break for each node but processing instructions.
pub proof fn lemma_rendered_lines(node: TreeNode, indent: nat)
    requires
        tree_unbroken(node),
    ensures
        line_breaks(rendered(node, indent)) == shown_nodes(node),
    decreases node, 1nat,
{
    lemma_node_line_breaks(node.data);
    lemma_rendered_all_lines(node.children@, indent + 4);
    assert(unbroken(spaces(indent)));
    lemma_breaks_none(spaces(indent));
    lemma_breaks_concat(spaces(indent), node_line(node.data));
    lemma_breaks_concat(spaces(indent) + node_line(node.data), rendered_all(node.children@, indent + 4));
}

/// [`lemma_rendered_lines`] for a sequence of subtrees at one indentation.
pub proof fn lemma_rendered_all_lines(nodes: Seq<TreeNode>, indent: nat)
    requires
        all_unbroken(nodes),
    ensures
        line_breaks(rendered_all(nodes, indent)) == shown_nodes_all(nodes),
    decreases nodes, 0nat,
{
    if nodes.len() > 0 {
        lemma_rendered_all_lines(nodes.drop_last(), indent);
        lemma_rendered_lines(nodes.last(), indent);
        lemma_breaks_concat(rendered_all(nodes.drop_last(), indent), rendered(nodes.last(), indent));
    }
}

/// Whether `t` occurs in `s` as a contiguous stretch.
pub open spec fn occurs(t: Seq<char>, s: Seq<char>) -> bool {
    exists|k: int| 0 <= k && k + t.len() <= s.len() && #[trigger] s.subrange(k, k + t.len()) == t
}

/// How a record attribute with value `v` is shown after its element's name.
pub open spec fn record_text(v: Seq<char>) -> Seq<char> {
    " "@ + PREY_ATTRIBUTE@ + "=\""@ + v + "\""@
}

proof fn lemma_occurs_left(t: Seq<char>, a: Seq<char>, b: Seq<char>)
    requires
        occurs(t, a),
    ensures
        occurs(t, a + b),
{
    let k = choose|k: int| 0 <= k && k + t.len() <= a.len() && #[trigger] a.subrange(k, k + t.len()) == t;
    assert((a + b).subrange(k, k + t.len()) =~= a.subrange(k, k + t.len()));
}

proof fn lemma_occurs_right(t: Seq<char>, a: Seq<char>, b: Seq<char>)
    requires
        occurs(t, b),
    ensures
        occurs(t, a + b),
{
    let k = choose|k: int| 0 <= k && k + t.len() <= b.len() && #[trigger] b.subrange(k, k + t.len()) == t;
    let k2 = a.len() + k;
    assert((a + b).subrange(k2, k2 + t.len()) =~= b.subrange(k, k + t.len()));
}

proof fn lemma_occurs_self(t: Seq<char>)
    ensures
        occurs(t, t),
{
    let k: int = 0;
    assert(t.subrange(k, k + t.len()) =~= t);
}

proof fn lemma_attr_text_split(x: Seq<char>, a: Attribute)
    requires
        a.name@ == PREY_ATTRIBUTE@,
    ensures
        x + " "@ + a.name@ + "=\""@ + a.value@ + "\""@ == x + record_text(a.value@),
{
    let s1 = " "@;
    let s2 = "=\""@;
    let s3 = "\""@;
    let n = a.name@;
    let v = a.value@;
    assert(x + s1 + n + s2 + v + s3 =~= x + (s1 + n + s2 + v + s3));
}

proof fn lemma_attrs_show_records(attrs: Seq<Attribute>, v: Seq<char>)
    requires
        prey_values(attrs).contains(v),
    ensures
        occurs(record_text(v), attrs_text(attrs)),
    decreases attrs.len(),
{
    let init = attrs.drop_last();
    let a = attrs.last();
    let x = attrs_text(init);
    let tail = " "@ + a.name@ + "=\""@ + a.value@ + "\""@;
    assert(attrs_text(attrs) == x + " "@ + a.name@ + "=\""@ + a.value@ + "\""@);
    assert(x + " "@ + a.name@ + "=\""@ + a.value@ + "\""@ =~= x + tail);
    if prey_values(init).contains(v) {
        lemma_attrs_show_records(init, v);
        lemma_occurs_left(record_text(v), x, tail);
    } else {
        let rest = prey_values(init);
        assert(a.name@ == PREY_ATTRIBUTE@ && a.value@ == v) by {
            if a.name@ == PREY_ATTRIBUTE@ {
                let i = choose|i: int| 0 <= i < rest.push(a.value@).len() && rest.push(a.value@)[i] == v;
                if i < rest.len() {
                    assert(rest[i] == v);
                }
            }
        }
        lemma_attr_text_split(x, a);
        lemma_occurs_self(record_text(v));
        lemma_occurs_right(record_text(v), x, record_text(v));
    }
}

proof fn lemma_concat_contains<T>(a: Seq<T>, b: Seq<T>, v: T)
    requires
        (a + b).contains(v),
    ensures
        a.contains(v) || b.contains(v),
{
    let i = choose|i: int| 0 <= i < (a + b).len() && (a + b)[i] == v;
    if i < a.len() {
        assert(a[i] == v);
    } else {
        assert(b[i - a.len()] == v);
    }
}

/// Every record collected from a tree is shown in the tree's text, at any
/// indentation, as its attribute: ` data-tools="value"`.
pub proof fn lemma_records_shown(node: TreeNode, indent: nat, v: Seq<char>)
    requires
        preys_of(node).contains(v),
    ensures
        occurs(record_text(v), rendered(node, indent)),
    decreases node, 1nat,
{
    let head = spaces(indent) + node_line(node.data);
    let rest = rendered_all(node.children@, indent + 4);
    lemma_concat_contains(own_preys(node.data), preys_of_all(node.children@), v);
    if own_preys(node.data).contains(v) {
        match node.data {
            NodeKind::Element { name, attrs } => {
                lemma_attrs_show_records(attrs@, v);
                lemma_occurs_right(record_text(v), "<"@ + name@, attrs_text(attrs@));
                lemma_occurs_left(record_text(v), "<"@ + name@ + attrs_text(attrs@), ">\n"@);
                lemma_occurs_right(record_text(v), spaces(indent), node_line(node.data));
            },
            _ => {},
        }
        lemma_occurs_left(record_text(v), head, rest);
    } else {
        lemma_records_shown_all(node.children@, indent + 4, v);
        lemma_occurs_right(record_text(v), head, rest);
    }
}

/// [`lemma_records_shown`] for a sequence of subtrees at one indentation.
pub proof fn lemma_records_shown_all(nodes: Seq<TreeNode>, indent: nat, v: Seq<char>)
    requires
        preys_of_all(nodes).contains(v),
    ensures
        occurs(record_text(v), rendered_all(nodes, indent)),
    decreases nodes, 0nat,
{
    if nodes.len() > 0 {
        let a = rendered_all(nodes.drop_last(), indent);
        let b = rendered(nodes.last(), indent);
        lemma_concat_contains(preys_of_all(nodes.drop_last()), preys_of(nodes.last()), v);
        if preys_of_all(nodes.drop_last()).contains(v) {
            lemma_records_shown_all(nodes.drop_last(), indent, v);
            lemma_occurs_left(record_text(v), a, b);
        } else {
            lemma_records_shown(nodes.last(), indent, v);
            lemma_occurs_right(record_text(v), a, b);
        }
    }
}

/// A tree's lines in document order, each with its indentation relative to
/// the tree's root: the root's line at zero, each child's subtree four
/// columns further in.
pub open spec fn layout(node: TreeNode) -> Seq<(nat, Seq<char>)>
    decreases node, 1nat,
{
    seq![(0nat, node_line(node.data))] + shifted(layout_all(node.children@), 4)
}

/// The lines of a sequence of subtrees, one after the other.
pub open spec fn layout_all(nodes: Seq<TreeNode>) -> Seq<(nat, Seq<char>)>
    decreases nodes, 0nat,
{
    if nodes.len() == 0 {
        seq![]
    } else {
        layout_all(nodes.drop_last()) + layout(nodes.last())
    }
}

/// Lines with `k` more columns of indentation each.
pub open spec fn shifted(lines: Seq<(nat, Seq<char>)>, k: nat) -> Seq<(nat, Seq<char>)> {
    lines.map_values(|p: (nat, Seq<char>)| (p.0 + k, p.1))
}

/// Lines put together as text from `indent` on: each after its own
/// indentation plus `indent` spaces.
pub open spec fn assemble(lines: Seq<(nat, Seq<char>)>, indent: nat) -> Seq<char>
    decreases lines.len(),
{
    if lines.len() == 0 {
        seq![]
    } else {
        assemble(lines.drop_last(), indent) + spaces(indent + lines.last().0) + lines.last().1
    }
}

proof fn lemma_assemble_concat(a: Seq<(nat, Seq<char>)>, b: Seq<(nat, Seq<char>)>, indent: nat)
    ensures
        assemble(a + b, indent) == assemble(a, indent) + assemble(b, indent),
    decreases b.len(),
{
    if b.len() == 0 {
        assert(a + b =~= a);
        assert(assemble(a, indent) + assemble(b, indent) =~= assemble(a, indent));
    } else {
        lemma_assemble_concat(a, b.drop_last(), indent);
        assert((a + b).drop_last() =~= a + b.drop_last());
        assert((a + b).last() == b.last());
        let x = spaces(indent + b.last().0) + b.last().1;
        assert(assemble(a + b, indent) == assemble(a + b.drop_last(), indent) + spaces(indent + b.last().0) + b.last().1);
        assert(assemble(a + b, indent) =~= assemble(a, indent) + assemble(b.drop_last(), indent) + x);
        assert(assemble(b, indent) =~= assemble(b.drop_last(), indent) + x);
        assert(assemble(a + b, indent) =~= assemble(a, indent) + assemble(b, indent));
    }
}

proof fn lemma_assemble_shift(lines: Seq<(nat, Seq<char>)>, indent: nat, k: nat)
    ensures
        assemble(shifted(lines, k), indent) == assemble(lines, indent + k),
    decreases lines.len(),
{
    if lines.len() > 0 {
        lemma_assemble_shift(lines.drop_last(), indent, k);
        assert(shifted(lines, k).drop_last() =~= shifted(lines.drop_last(), k));
        assert(shifted(lines, k).last() == (lines.last().0 + k, lines.last().1));
        assert(indent + (lines.last().0 + k) == indent + k + lines.last().0);
    }
}

/// A tree's text is its lines put together: at any indentation, each node's
/// line after its indentation relative to the root plus the given one.
pub proof fn lemma_rendered_layout(node: TreeNode, indent: nat)
    ensures
        rendered(node, indent) == assemble(layout(node), indent),
    decreases node, 1nat,
{
    let head = seq![(0nat, node_line(node.data))];
    let rest = layout_all(node.children@);
    lemma_rendered_layout_all(node.children@, indent + 4);
    lemma_assemble_shift(rest, indent, 4);
    lemma_assemble_concat(head, shifted(rest, 4), indent);
    assert(head.drop_last() =~= Seq::<(nat, Seq<char>)>::empty());
    assert(head.last() == (0nat, node_line(node.data)));
    assert(assemble(head.drop_last(), indent) =~= Seq::<char>::empty());
    assert(assemble(head, indent) == assemble(head.drop_last(), indent) + spaces(indent + head.last().0) + head.last().1);
    assert(spaces(indent + head.last().0) == spaces(indent));
    assert(assemble(head, indent) =~= spaces(indent) + node_line(node.data));
    assert(rendered(node, indent) =~= assemble(layout(node), indent));
}

/// [`lemma_rendered_layout`] for a sequence of subtrees at one indentation.
pub proof fn lemma_rendered_layout_all(nodes: Seq<TreeNode>, indent: nat)
    ensures
        rendered_all(nodes, indent) == assemble(layout_all(nodes), indent),
    decreases nodes, 0nat,
{
    if nodes.len() > 0 {
        lemma_rendered_layout_all(nodes.drop_last(), indent);
        lemma_rendered_layout(nodes.last(), indent);
        lemma_assemble_concat(layout_all(nodes.drop_last()), layout(nodes.last()), indent);
    } else {
        assert(assemble(layout_all(nodes), indent) =~= Seq::<char>::empty());
    }
}

/// Shown `k` columns further in, a tree's text holds the same lines in the
/// same order, each indented by exactly `k` more spaces.
pub proof fn lemma_rendered_shift(node: TreeNode, indent: nat, k: nat)
    ensures
        rendered(node, indent) == assemble(layout(node), indent),
        rendered(node, indent + k) == assemble(shifted(layout(node), k), indent),
{
    lemma_rendered_layout(node, indent);
    lemma_rendered_layout(node, indent + k);
    lemma_assemble_shift(layout(node), indent, k);
}

/// How one attribute is shown after its element's name: ` name="value"`.
pub open spec fn attr_text(a: Attribute) -> Seq<char> {
    " "@ + a.name@ + "=\""@ + a.value@ + "\""@
}

/// The attributes of a single attribute's list are shown as that attribute,
/// whatever its name and value (an empty value included).
pub proof fn lemma_attrs_text_one(a: Attribute)
    ensures
        attrs_text(seq![a]) == attr_text(a),
{
    let one = seq![a];
    assert(one.drop_last() =~= Seq::<Attribute>::empty());
    assert(one.last() == a);
    assert(attrs_text(one.drop_last()) == Seq::<char>::empty());
    assert(attrs_text(one) == attrs_text(one.drop_last()) + " "@ + a.name@ + "=\""@ + a.value@ + "\""@);
    assert(attrs_text(one) =~= attr_text(a));
}

/// Showing two lists of attributes one after the other is showing the
/// joined list: no attribute is left out or moved.
pub proof fn lemma_attrs_text_concat(x: Seq<Attribute>, y: Seq<Attribute>)
    ensures
        attrs_text(x + y) == attrs_text(x) + attrs_text(y),
    decreases y.len(),
{
    if y.len() == 0 {
        assert(x + y =~= x);
        assert(attrs_text(x) + attrs_text(y) =~= attrs_text(x));
    } else {
        lemma_attrs_text_concat(x, y.drop_last());
        assert((x + y).drop_last() =~= x + y.drop_last());
        assert((x + y).last() == y.last());
        let a = y.last();
        assert(attrs_text(x + y) =~= attrs_text(x) + attrs_text(y));
    }
}

/// The line of an element shows every one of its attributes, in order, as
/// ` name="value"`, and its text is the sum of theirs: each attribute
/// contributes its name, its value and four more characters.
pub proof fn lemma_element_line_shows_attrs(name: String, attrs: Vec<Attribute>, k: int)
    requires
        0 <= k < attrs@.len(),
    ensures
        occurs(attr_text(attrs@[k]), node_line(NodeKind::Element { name, attrs })),
        attrs_text(attrs@) == attrs_text(attrs@.take(k)) + attr_text(attrs@[k]) + attrs_text(attrs@.skip(k + 1)),
{
    let l = attrs@;
    let a = l[k];
    assert(l =~= l.take(k) + seq![a] + l.skip(k + 1));
    lemma_attrs_text_concat(l.take(k) + seq![a], l.skip(k + 1));
    lemma_attrs_text_concat(l.take(k), seq![a]);
    lemma_attrs_text_one(a);
    lemma_occurs_self(attr_text(a));
    lemma_occurs_right(attr_text(a), attrs_text(l.take(k)), attr_text(a));
    lemma_occurs_left(attr_text(a), attrs_text(l.take(k)) + attr_text(a), attrs_text(l.skip(k + 1)));
    lemma_occurs_right(attr_text(a), "<"@ + name@, attrs_text(l));
    lemma_occurs_left(attr_text(a), "<"@ + name@ + attrs_text(l), ">\n"@);
}

/// How many characters the attributes take when shown: for each, its name,
/// its value and four more (a space, `=` and two quotes).
pub open spec fn attrs_width(attrs: Seq<Attribute>) -> nat
    decreases attrs.len(),
{
    if attrs.len() == 0 {
        0
    } else {
        attrs_width(attrs.drop_last()) + attrs.last().name@.len() + attrs.last().value@.len() + 4
    }
}

/// The attributes' text is as long as all of them shown in full.
pub proof fn lemma_attrs_text_len(attrs: Seq<Attribute>)
    ensures
        attrs_text(attrs).len() == attrs_width(attrs),
    decreases attrs.len(),
{
    reveal_strlit(" ");
    reveal_strlit("=\"");
    reveal_strlit("\"");
    if attrs.len() > 0 {
        lemma_attrs_text_len(attrs.drop_last());
    }
}

/// Whether some element of the tree under `node` has a record attribute
/// with value `v`.
pub open spec fn has_record(node: TreeNode, v: Seq<char>) -> bool
    decreases node, 1nat,
{
    carries_record(node.data, v) || any_has_record(node.children@, v)
}

/// Whether some tree of a sequence [`has_record`] `v`.
pub open spec fn any_has_record(nodes: Seq<TreeNode>, v: Seq<char>) -> bool
    decreases nodes, 0nat,
{
    nodes.len() > 0 && (any_has_record(nodes.drop_last(), v) || has_record(nodes.last(), v))
}

/// Whether a node is an element with a record attribute of value `v`.
pub open spec fn carries_record(data: NodeKind, v: Seq<char>) -> bool {
    match data {
        NodeKind::Element { attrs, .. } => exists|k: int|
            0 <= k < attrs@.len() && #[trigger] attrs@[k].name@ == PREY_ATTRIBUTE@ && attrs@[k].value@ == v,
        _ => false,
    }
}

/// The number of record attributes among `attrs`.
pub open spec fn record_attr_count(attrs: Seq<Attribute>) -> nat
    decreases attrs.len(),
{
    if attrs.len() == 0 {
        0
    } else {
        record_attr_count(attrs.drop_last()) + if attrs.last().name@ == PREY_ATTRIBUTE@ {
            1nat
        } else {
            0nat
        }
    }
}

/// The number of record attributes in the tree under `node`.
pub open spec fn record_count(node: TreeNode) -> nat
    decreases node, 1nat,
{
    (match node.data {
        NodeKind::Element { attrs, .. } => record_attr_count(attrs@),
        _ => 0,
    }) + record_count_all(node.children@)
}

/// [`record_count`] summed over a sequence of trees.
pub open spec fn record_count_all(nodes: Seq<TreeNode>) -> nat
    decreases nodes, 0nat,
{
    if nodes.len() == 0 {
        0
    } else {
        record_count_all(nodes.drop_last()) + record_count(nodes.last())
    }
}

proof fn lemma_prey_values_complete(attrs: Seq<Attribute>, v: Seq<char>)
    ensures
        prey_values(attrs).len() == record_attr_count(attrs),
        prey_values(attrs).contains(v) <==> exists|k: int|
            0 <= k < attrs.len() && #[trigger] attrs[k].name@ == PREY_ATTRIBUTE@ && attrs[k].value@ == v,
    decreases attrs.len(),
{
    if attrs.len() > 0 {
        let init = attrs.drop_last();
        let a = attrs.last();
        let rest = prey_values(init);
        lemma_prey_values_complete(init, v);
        if prey_values(attrs).contains(v) {
            let i = choose|i: int| 0 <= i < prey_values(attrs).len() && prey_values(attrs)[i] == v;
            if i < rest.len() {
                assert(rest[i] == v);
                assert(rest.contains(v));
                let k = choose|k: int| 0 <= k < init.len() && #[trigger] init[k].name@ == PREY_ATTRIBUTE@ && init[k].value@ == v;
                assert(attrs[k] == init[k]);
            } else {
                assert(a.name@ == PREY_ATTRIBUTE@ && a.value@ == v);
                assert(attrs[attrs.len() - 1] == a);
            }
        }
        if exists|k: int| 0 <= k < attrs.len() && #[trigger] attrs[k].name@ == PREY_ATTRIBUTE@ && attrs[k].value@ == v {
            let k = choose|k: int| 0 <= k < attrs.len() && #[trigger] attrs[k].name@ == PREY_ATTRIBUTE@ && attrs[k].value@ == v;
            if k < init.len() {
                assert(init[k] == attrs[k]);
                let i = choose|i: int| 0 <= i < rest.len() && rest[i] == v;
                assert(prey_values(attrs)[i] == v);
            } else {
                assert(prey_values(attrs) == rest.push(v));
                assert(prey_values(attrs)[rest.len() as int] == v);
            }
        }
    }
}

/// The records of a tree are all of its record values, none dropped: there
/// are as many as the tree has record attributes, and a value is among them
/// exactly where some element of the tree carries it in a record attribute.
pub proof fn lemma_preys_complete(node: TreeNode, v: Seq<char>)
    ensures
        preys_of(node).len() == record_count(node),
        preys_of(node).contains(v) <==> has_record(node, v),
    decreases node, 1nat,
{
    let own = own_preys(node.data);
    let rest = preys_of_all(node.children@);
    lemma_preys_complete_all(node.children@, v);
    let in_children = any_has_record(node.children@, v);
    match node.data {
        NodeKind::Element { attrs, .. } => {
            lemma_prey_values_complete(attrs@, v);
            assert(own == prey_values(attrs@));
            assert(has_record(node, v) == (carries_record(node.data, v) || in_children));
            assert(has_record(node, v) == (own.contains(v) || rest.contains(v)));
        },
        _ => {
            assert(own =~= Seq::<Seq<char>>::empty());
            assert(has_record(node, v) == (carries_record(node.data, v) || in_children));
            assert(!own.contains(v));
        },
    }
    if preys_of(node).contains(v) {
        lemma_concat_contains(own, rest, v);
    }
    if own.contains(v) {
        let i = choose|i: int| 0 <= i < own.len() && own[i] == v;
        assert(preys_of(node)[i] == v);
    }
    if rest.contains(v) {
        let i = choose|i: int| 0 <= i < rest.len() && rest[i] == v;
        assert(preys_of(node)[own.len() + i] == v);
    }
}

/// [`lemma_preys_complete`] for a sequence of subtrees.
pub proof fn lemma_preys_complete_all(nodes: Seq<TreeNode>, v: Seq<char>)
    ensures
        preys_of_all(nodes).len() == record_count_all(nodes),
        preys_of_all(nodes).contains(v) <==> any_has_record(nodes, v),
    decreases nodes, 0nat,
{
    if nodes.len() > 0 {
        let init = nodes.drop_last();
        let a = preys_of_all(init);
        let b = preys_of(nodes.last());
        lemma_preys_complete_all(init, v);
        lemma_preys_complete(nodes.last(), v);
        if preys_of_all(nodes).contains(v) {
            lemma_concat_contains(a, b, v);
        }
        if a.contains(v) {
            let j = choose|j: int| 0 <= j < a.len() && a[j] == v;
            assert(preys_of_all(nodes)[j] == v);
        }
        if b.contains(v) {
            let j = choose|j: int| 0 <= j < b.len() && b[j] == v;
            assert(preys_of_all(nodes)[a.len() + j] == v);
        }
    } else {
        assert(!preys_of_all(nodes).contains(v));
    }
}

/// A tree [`has_record`] `v` exactly where some element of it, at any
/// depth, carries a record attribute of value `v`: either the node itself,
/// or some child's subtree.
pub proof fn lemma_any_has_record(nodes: Seq<TreeNode>, v: Seq<char>)
    ensures
        any_has_record(nodes, v) <==> exists|i: int| 0 <= i < nodes.len() && #[trigger] has_record(nodes[i], v),
    decreases nodes.len(),
{
    if nodes.len() > 0 {
        let init = nodes.drop_last();
        lemma_any_has_record(init, v);
        if any_has_record(init, v) {
            let i = choose|i: int| 0 <= i < init.len() && #[trigger] has_record(init[i], v);
            assert(nodes[i] == init[i]);
        }
        if has_record(nodes.last(), v) {
            assert(has_record(nodes[nodes.len() - 1], v));
        }
        if exists|i: int| 0 <= i < nodes.len() && #[trigger] has_record(nodes[i], v) {
            let i = choose|i: int| 0 <= i < nodes.len() && #[trigger] has_record(nodes[i], v);
            if i < init.len() {
                assert(init[i] == nodes[i]);
            }
        }
    }
}

/// Adding a last child to a node adds that child's records after the
/// node's records, and its text after the node's text, four columns
/// further in: records and lines come in document order.
pub proof fn lemma_push_child(n1: TreeNode, n2: TreeNode, c: TreeNode, indent: nat)
    requires
        n2.data == n1.data,
        n2.children@ == n1.children@.push(c),
    ensures
        preys_of(n2) == preys_of(n1) + preys_of(c),
        rendered(n2, indent) == rendered(n1, indent) + rendered(c, indent + 4),
{
    let cs = n2.children@;
    assert(cs.drop_last() =~= n1.children@);
    assert(cs.last() == c);
    assert(preys_of(n2) =~= preys_of(n1) + preys_of(c));
    assert(rendered(n2, indent) =~= rendered(n1, indent) + rendered(c, indent + 4));
}

} // verus!
