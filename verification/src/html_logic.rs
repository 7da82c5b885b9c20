//! The document model, reading HTML into it, and the outline that `walk` prints.

use vstd::prelude::*;
use vstd::string::StringExecFns;
use crate::text::{trim, trimmed};
use crate::css_logic::strings_view;
use html5ever::parse_document;
use html5ever::driver::ParseOpts;
use html5ever::tendril::TendrilSink;
use markup5ever_rcdom::RcDom;
use markup5ever_rcdom::Node as RcNode;
use markup5ever_rcdom::NodeData as RcNodeData;
use std::rc::Rc;

verus! {

/// An attribute of an element: its local name and its value.
#[derive(Debug)]
pub struct Attribute {
    pub name: String,
    pub value: String,
}

impl View for Attribute {
    type V = (Seq<char>, Seq<char>);

    open spec fn view(&self) -> (Seq<char>, Seq<char>) {
        (self.name@, self.value@)
    }
}

impl Clone for Attribute {
    fn clone(&self) -> (a: Attribute)
        ensures
            a == *self,
    {
        Attribute { name: self.name.clone(), value: self.value.clone() }
    }
}

pub open spec fn attrs_view(v: Seq<Attribute>) -> Seq<(Seq<char>, Seq<char>)> {
    v.map_values(|a: Attribute| a@)
}

/// What a node of a document is.
#[derive(Debug)]
pub enum NodeData {
    /// The document itself, the root of the tree.
    Document,
    /// A `DOCTYPE`.
    Doctype,
    /// A text node.
    Text { contents: String },
    /// A comment.
    Comment { contents: String },
    /// An element with its local tag name and its attributes in document order.
    Element { name: String, attrs: Vec<Attribute> },
    /// A processing instruction.
    ProcessingInstruction,
}

/// The model of a node's data, with names and texts as character sequences.
pub enum SpecNodeData {
    Document,
    Doctype,
    Text(Seq<char>),
    Comment(Seq<char>),
    Element(Seq<char>, Seq<(Seq<char>, Seq<char>)>),
    ProcessingInstruction,
}

impl View for NodeData {
    type V = SpecNodeData;

    open spec fn view(&self) -> SpecNodeData {
        match self {
            NodeData::Document => SpecNodeData::Document,
            NodeData::Doctype => SpecNodeData::Doctype,
            NodeData::Text { contents } => SpecNodeData::Text(contents@),
            NodeData::Comment { contents } => SpecNodeData::Comment(contents@),
            NodeData::Element { name, attrs } => SpecNodeData::Element(name@, attrs_view(attrs@)),
            NodeData::ProcessingInstruction => SpecNodeData::ProcessingInstruction,
        }
    }
}

fn clone_attrs(attrs: &Vec<Attribute>) -> (r: Vec<Attribute>)
    ensures
        r@ == attrs@,
{
    let mut r: Vec<Attribute> = Vec::new();
    let mut i: usize = 0;
    while i < attrs.len()
        invariant
            i <= attrs.len(),
            r@ == attrs@.take(i as int),
        decreases attrs.len() - i,
    {
        r.push(attrs[i].clone());
        assert(attrs@.take(i + 1) =~= attrs@.take(i as int).push(attrs@[i as int]));
        i = i + 1;
    }
    assert(attrs@.take(attrs.len() as int) =~= attrs@);
    r
}

impl Clone for NodeData {
    fn clone(&self) -> (d: NodeData)
        ensures
            d@ == self@,
    {
        match self {
            NodeData::Document => NodeData::Document,
            NodeData::Doctype => NodeData::Doctype,
            NodeData::Text { contents } => NodeData::Text { contents: contents.clone() },
            NodeData::Comment { contents } => NodeData::Comment { contents: contents.clone() },
            NodeData::Element { name, attrs } => NodeData::Element { name: name.clone(), attrs: clone_attrs(attrs) },
            NodeData::ProcessingInstruction => NodeData::ProcessingInstruction,
        }
    }
}

/// A node of a document with its children in document order.
#[derive(Debug)]
pub struct Node {
    pub data: NodeData,
    pub children: Vec<Node>,
}

/// The node type of `markup5ever_rcdom`, made known so that the copy below can
/// take a handle to one; nothing inside it is visible.
#[verifier::external_type_specification]
#[verifier::external_body]
pub struct ExRcNode(RcNode);

/// The document that html5ever builds from an HTML text (it depends on the text alone).
pub uninterp spec fn html_document(html: Seq<char>) -> Node;

/// Copies an html5ever node and its descendants into the library's model, one node
/// for one node, keeping each element's local name and attributes, each text and
/// comment, and the order of children. No contract is stated for it.
#[verifier::external_body]
fn node_from_handle(handle: &Rc<RcNode>) -> Node {
    let data = match &handle.data {
        RcNodeData::Document => NodeData::Document,
        RcNodeData::Doctype { .. } => NodeData::Doctype,
        RcNodeData::Text { contents } => NodeData::Text { contents: contents.borrow().to_string() },
        RcNodeData::Comment { contents } => NodeData::Comment { contents: contents.to_string() },
        RcNodeData::Element { name, attrs, .. } => NodeData::Element {
            name: name.local.to_string(),
            attrs: attrs.borrow().iter().map(|a| Attribute { name: a.name.local.to_string(), value: a.value.to_string() }).collect(),
        },
        RcNodeData::ProcessingInstruction { .. } => NodeData::ProcessingInstruction,
    };
    Node { data, children: handle.children.borrow().iter().map(node_from_handle).collect() }
}

/// Parses an HTML document with html5ever (`parse_document` into an `RcDom`, fed
/// as UTF-8 bytes). The contract claims that the result is the named function of
/// the text and that its root is the document node (the one `RcDom::default`
/// creates, which the copy keeps); it states nothing else of the HTML parsing
/// algorithm. Reading from a byte slice cannot fail, so the call does not panic.
#[verifier::external_body]
pub fn parse_html(html_input: String) -> (dom: Node)
    ensures
        dom == html_document(html_input@),
        dom.data is Document,
{
    let dom = parse_document(RcDom::default(), ParseOpts::default())
        .from_utf8()
        .read_from(&mut html_input.as_bytes())
        .expect("Failed to parse html");
    node_from_handle(&dom.document)
}


// ---------------------------------------------------------------------------
// The outline of a document
// ---------------------------------------------------------------------------

/// `n` spaces.
pub open spec fn spaces(n: nat) -> Seq<char>
    decreases n,
{
    if n == 0 {
        Seq::empty()
    } else {
        spaces((n - 1) as nat).push(' ')
    }
}

/// The attributes of an element as the outline writes them: ` name="value"` each.
pub open spec fn attrs_text(attrs: Seq<(Seq<char>, Seq<char>)>) -> Seq<char>
    decreases attrs.len(),
{
    if attrs.len() == 0 {
        Seq::empty()
    } else {
        attrs_text(attrs.drop_last()) + seq![' '] + attrs.last().0 + seq!['=', '"'] + attrs.last().1 + seq!['"']
    }
}

/// The lines that the outline writes for one node at a given indentation: the
/// document as ` #Document`, a text as `#Text: "…"` with its white space trimmed
/// (nothing when only white space is left), a comment as its text without
/// indentation, an element as `<name>` followed by its attributes; nothing for a
/// doctype or a processing instruction.
pub open spec fn node_lines(data: SpecNodeData, indent: nat) -> Seq<Seq<char>> {
    match data {
        SpecNodeData::Document => seq![spaces(indent) + seq![' ', '#', 'D', 'o', 'c', 'u', 'm', 'e', 'n', 't']],
        SpecNodeData::Text(contents) => {
            let t = trimmed(contents);
            if t.len() == 0 {
                Seq::empty()
            } else {
                seq![spaces(indent) + seq!['#', 'T', 'e', 'x', 't', ':', ' ', '"'] + t + seq!['"']]
            }
        },
        SpecNodeData::Comment(contents) => seq![contents],
        SpecNodeData::Element(name, attrs) => seq![spaces(indent) + seq!['<'] + name + seq!['>'] + attrs_text(attrs)],
        _ => Seq::empty(),
    }
}

/// The outline of a node and its descendants: the node's own lines, then the
/// outline of each child in order, indented two spaces more.
pub open spec fn walk_lines(node: Node, indent: nat) -> Seq<Seq<char>>
    decreases node,
{
    node_lines(node.data@, indent) + children_lines(node.children@, indent + 2)
}

/// The outlines of a sequence of sibling nodes, one after the other.
pub open spec fn children_lines(cs: Seq<Node>, indent: nat) -> Seq<Seq<char>>
    decreases cs,
{
    if cs.len() == 0 {
        Seq::empty()
    } else {
        children_lines(cs.drop_last(), indent) + walk_lines(cs.last(), indent)
    }
}


/// How deep the tree below a node goes: 0 for a node without children.
pub open spec fn height(node: Node) -> nat
    decreases node,
{
    children_height(node.children@)
}

/// One more than the greatest height among sibling nodes; 0 where there are none.
pub open spec fn children_height(cs: Seq<Node>) -> nat
    decreases cs,
{
    if cs.len() == 0 {
        0
    } else {
        let a = children_height(cs.drop_last());
        let b = height(cs.last()) + 1;
        if a >= b { a } else { b }
    }
}

proof fn lemma_children_height(cs: Seq<Node>, i: int)
    requires
        0 <= i < cs.len(),
    ensures
        height(cs[i]) + 1 <= children_height(cs),
    decreases cs.len(),
{
    if i < cs.len() - 1 {
        lemma_children_height(cs.drop_last(), i);
    }
}

fn spaces_string(n: usize) -> (s: String)
    ensures
        s@ == spaces(n as nat),
{
    let mut s = String::new();
    let mut i: usize = 0;
    while i < n
        invariant
            i <= n,
            s@ == spaces(i as nat),
        decreases n - i,
    {
        proof {
            reveal_strlit(" ");
        }
        s.append(" ");
        i = i + 1;
    }
    s
}

fn attributes_text(attrs: &Vec<Attribute>) -> (s: String)
    ensures
        s@ == attrs_text(attrs_view(attrs@)),
{
    let mut s = String::new();
    let mut i: usize = 0;
    while i < attrs.len()
        invariant
            i <= attrs.len(),
            s@ == attrs_text(attrs_view(attrs@).take(i as int)),
        decreases attrs.len() - i,
    {
        proof {
            reveal_strlit(" ");
            reveal_strlit("=\"");
            reveal_strlit("\"");
            assert(attrs_view(attrs@).take(i + 1).drop_last() =~= attrs_view(attrs@).take(i as int));
        }
        s.append(" ");
        s.append(attrs[i].name.as_str());
        s.append("=\"");
        s.append(attrs[i].value.as_str());
        s.append("\"");
        i = i + 1;
    }
    assert(attrs_view(attrs@).take(attrs.len() as int) =~= attrs_view(attrs@));
    s
}

fn node_own_lines(data: &NodeData, indent: usize) -> (lines: Vec<String>)
    ensures
        strings_view(lines@) == node_lines(data@, indent as nat),
{
    match data {
        NodeData::Document => {
            let mut s = spaces_string(indent);
            proof {
                reveal_strlit(" #Document");
                assert(" #Document"@ =~= seq![' ', '#', 'D', 'o', 'c', 'u', 'm', 'e', 'n', 't']);
            }
            s.append(" #Document");
            let v = vec![s];
            assert(strings_view(v@) =~= node_lines(data@, indent as nat));
            v
        },
        NodeData::Text { contents } => {
            let t = trim(contents.as_str());
            if t.as_str().is_empty() {
                let v: Vec<String> = Vec::new();
                assert(strings_view(v@) =~= node_lines(data@, indent as nat));
                v
            } else {
                let mut s = spaces_string(indent);
                proof {
                    reveal_strlit("#Text: \"");
                    reveal_strlit("\"");
                    assert("#Text: \""@ =~= seq!['#', 'T', 'e', 'x', 't', ':', ' ', '"']);
                    assert("\""@ =~= seq!['"']);
                }
                s.append("#Text: \"");
                s.append(t.as_str());
                s.append("\"");
                let v = vec![s];
                assert(strings_view(v@) =~= node_lines(data@, indent as nat));
                v
            }
        },
        NodeData::Comment { contents } => {
            let v = vec![contents.clone()];
            assert(strings_view(v@) =~= node_lines(data@, indent as nat));
            v
        },
        NodeData::Element { name, attrs } => {
            let mut s = spaces_string(indent);
            proof {
                reveal_strlit("<");
                reveal_strlit(">");
                assert("<"@ =~= seq!['<']);
                assert(">"@ =~= seq!['>']);
            }
            s.append("<");
            s.append(name.as_str());
            s.append(">");
            let a = attributes_text(attrs);
            s.append(a.as_str());
            let v = vec![s];
            assert(strings_view(v@) =~= node_lines(data@, indent as nat));
            v
        },
        _ => {
            let v: Vec<String> = Vec::new();
            assert(strings_view(v@) =~= node_lines(data@, indent as nat));
            v
        },
    }
}

/// The outline of a node and its descendants, one line per entry, ready to be
/// printed; children are indented two spaces more than their parent.
pub fn walk(node: &Node, indent: usize) -> (lines: Vec<String>)
    requires
        indent + 2 * height(*node) <= usize::MAX,
    ensures
        strings_view(lines@) == walk_lines(*node, indent as nat),
    decreases node,
{
    let mut out = node_own_lines(&node.data, indent);
    let mut i: usize = 0;
    while i < node.children.len()
        invariant
            i <= node.children.len(),
            indent + 2 * height(*node) <= usize::MAX,
            strings_view(out@) == node_lines(node.data@, indent as nat) + children_lines(node.children@.take(i as int), indent as nat + 2),
        decreases node.children.len() - i,
    {
        proof {
            lemma_children_height(node.children@, i as int);
        }
        let ghost before = strings_view(out@);
        let mut sub = walk(&node.children[i], indent + 2);
        let ghost sub_view = strings_view(sub@);
        out.append(&mut sub);
        proof {
            assert(node.children@.take(i + 1).drop_last() =~= node.children@.take(i as int));
            assert(strings_view(out@) =~= before + sub_view);
        }
        i = i + 1;
    }
    assert(node.children@.take(node.children.len() as int) =~= node.children@);
    out
}


/// Whether `walk` can indent the outline of `node` from `indent` on without the
/// indentation overflowing a `usize`: `indent + 2 * height(node)` fits.
pub fn walk_fits(node: &Node, indent: usize) -> (ok: bool)
    ensures
        ok == (indent + 2 * height(*node) <= usize::MAX),
    decreases node,
{
    let mut i: usize = 0;
    while i < node.children.len()
        invariant
            i <= node.children.len(),
            indent + 2 * children_height(node.children@.take(i as int)) <= usize::MAX,
        decreases node.children.len() - i,
    {
        assert(node.children@.take(i + 1).drop_last() =~= node.children@.take(i as int));
        assert(node.children@.take(i + 1).last() == node.children@[i as int]);
        proof {
            lemma_children_height(node.children@, i as int);
        }
        if indent > usize::MAX - 2 {
            return false;
        }
        if !walk_fits(&node.children[i], indent + 2) {
            return false;
        }
        i = i + 1;
    }
    assert(node.children@.take(node.children.len() as int) =~= node.children@);
    true
}

} // verus!
