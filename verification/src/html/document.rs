//! The document that a scan yields: the emitted nodes as children of
//! `body`, inside a fixed shell.

use vstd::prelude::*;
use vstd::utf8::*;
use crate::html::scan::{body_nodes, Node};
use crate::html::slices::span_text;
use crate::html::tree::{DocView, TreeView};

verus! {

/// An element without attributes.
pub open spec fn element(name: Seq<char>, children: Seq<TreeView>) -> TreeView {
    TreeView::Tag { name: name, attrs: Seq::empty(), children: children }
}

/// The tree node that stands for `node` of the input `bytes`.
pub open spec fn node_view(bytes: Seq<u8>, node: Node) -> TreeView {
    match node {
        Node::Text(span) => TreeView::Text(span_text(bytes, span.start, span.end)),
        Node::Element(span) => element(span_text(bytes, span.start, span.end), Seq::empty()),
    }
}

/// The trees that stand for `nodes` of the input `bytes`, in order.
pub open spec fn nodes_view(bytes: Seq<u8>, nodes: Seq<Node>) -> Seq<TreeView> {
    nodes.map_values(|node: Node| node_view(bytes, node))
}

/// The name of the root element.
pub open spec fn html_name() -> Seq<char> {
    seq!['h', 't', 'm', 'l']
}

/// The name of the root's first child, which stays empty.
pub open spec fn head_name() -> Seq<char> {
    seq!['h', 'e', 'a', 'd']
}

/// The name of the root's second child, which holds what was scanned.
pub open spec fn body_name() -> Seq<char> {
    seq!['b', 'o', 'd', 'y']
}

/// The document with the given children of `body`: no doctype, and a
/// root `html` that holds an empty `head` and `body`.
pub open spec fn shell(body: Seq<TreeView>) -> DocView {
    DocView {
        doc_type: None,
        root: element(
            html_name(),
            seq![element(head_name(), Seq::empty()), element(body_name(), body)],
        ),
    }
}

/// The children of `body` in a document of the scanner's shape.
pub open spec fn body_children(doc: DocView) -> Seq<TreeView> {
    doc.root->children[1]->children
}

/// The document that scanning the bytes `bytes` yields.
pub open spec fn document(bytes: Seq<u8>) -> DocView {
    shell(nodes_view(bytes, body_nodes(bytes)))
}

/// The document that scanning the text `text` yields.
pub open spec fn parse(text: Seq<char>) -> DocView {
    document(encode_utf8(text))
}

} // verus!
