//! Rendering what a scan produced: the text runs and tag names of the
//! input come back, inside the fixed shell.

use vstd::prelude::*;
use vstd::utf8::*;
use crate::html::document::{
    body_name, element, head_name, html_name, node_view, nodes_view, parse, shell,
};
use crate::html::render::{
    closing_tag, lemma_render_empty_element, lemma_render_trees_push, opening_tag, render_attrs,
    render_doc, render_tree, render_trees,
};
use crate::html::scan::{body_nodes, Node};
use crate::html::slices::span_text;
use crate::html::tree::TreeView;

verus! {

/// A node in markup: a text run as it stands, an element as an opening
/// and a closing tag of its name.
pub open spec fn node_markup(bytes: Seq<u8>, node: Node) -> Seq<char> {
    match node {
        Node::Text(span) => span_text(bytes, span.start, span.end),
        Node::Element(span) => opening_tag(span_text(bytes, span.start, span.end), Seq::empty())
            + closing_tag(span_text(bytes, span.start, span.end)),
    }
}

/// The nodes in markup, one after the other.
pub open spec fn nodes_markup(bytes: Seq<u8>, nodes: Seq<Node>) -> Seq<char>
    decreases nodes.len(),
{
    if nodes.len() == 0 {
        Seq::empty()
    } else {
        nodes_markup(bytes, nodes.drop_last()) + node_markup(bytes, nodes.last())
    }
}

/// What a rendering of a scanned document begins with:
/// `<html><head></head><body>`.
pub open spec fn shell_opening() -> Seq<char> {
    opening_tag(html_name(), Seq::empty()) + opening_tag(head_name(), Seq::empty()) + closing_tag(
        head_name(),
    ) + opening_tag(body_name(), Seq::empty())
}

/// What a rendering of a scanned document ends with: `</body></html>`.
pub open spec fn shell_closing() -> Seq<char> {
    closing_tag(body_name()) + closing_tag(html_name())
}

/// The shell, character by character.
pub proof fn lemma_shell_markup()
    ensures
        shell_opening() == "<html><head></head><body>"@,
        shell_closing() == "</body></html>"@,
{
    reveal_strlit("<html><head></head><body>");
    reveal_strlit("</body></html>");
    assert(render_attrs(Seq::empty()) =~= Seq::empty());
    assert(opening_tag(html_name(), Seq::empty()) =~= seq!['<', 'h', 't', 'm', 'l', '>']);
    assert(opening_tag(head_name(), Seq::empty()) =~= seq!['<', 'h', 'e', 'a', 'd', '>']);
    assert(opening_tag(body_name(), Seq::empty()) =~= seq!['<', 'b', 'o', 'd', 'y', '>']);
    assert(closing_tag(html_name()) =~= seq!['<', '/', 'h', 't', 'm', 'l', '>']);
    assert(closing_tag(head_name()) =~= seq!['<', '/', 'h', 'e', 'a', 'd', '>']);
    assert(closing_tag(body_name()) =~= seq!['<', '/', 'b', 'o', 'd', 'y', '>']);
    assert(shell_opening() =~= "<html><head></head><body>"@);
    assert(shell_closing() =~= "</body></html>"@);
}

/// Rendering the trees of scanned nodes gives the nodes' markup.
pub proof fn lemma_render_nodes(bytes: Seq<u8>, nodes: Seq<Node>)
    ensures
        render_trees(nodes_view(bytes, nodes)) == nodes_markup(bytes, nodes),
    decreases nodes.len(),
{
    if nodes.len() > 0 {
        let trees = nodes_view(bytes, nodes);
        lemma_render_nodes(bytes, nodes.drop_last());
        assert(trees.drop_last() =~= nodes_view(bytes, nodes.drop_last()));
        assert(trees.last() == node_view(bytes, nodes.last()));
        assert(render_trees(trees) == render_trees(trees.drop_last()) + render_tree(trees.last()));
        match nodes.last() {
            Node::Text(span) => {
                assert(render_tree(trees.last()) == node_markup(bytes, nodes.last()));
            },
            Node::Element(span) => {
                lemma_render_empty_element(span_text(bytes, span.start, span.end));
            },
        }
    } else {
        assert(nodes_view(bytes, nodes).len() == 0);
    }
}

/// A document of the scanner's shape renders to the fixed shell around
/// the rendering of the children of `body`.
pub proof fn lemma_render_shell(body: Seq<TreeView>)
    ensures
        render_doc(shell(body)) == shell_opening() + render_trees(body) + shell_closing(),
{
    let none = Seq::<TreeView>::empty();
    let head_tree = element(head_name(), none);
    let body_tree = element(body_name(), body);
    let top = none.push(head_tree).push(body_tree);
    let inner = render_tree(head_tree) + render_tree(body_tree);
    lemma_render_empty_element(head_name());
    lemma_render_trees_push(none, head_tree);
    lemma_render_trees_push(none.push(head_tree), body_tree);
    assert(render_trees(none) =~= Seq::empty());
    assert(render_trees(top) =~= inner);
    assert(seq![head_tree, body_tree] =~= top);
    assert(render_tree(shell(body).root) == opening_tag(html_name(), Seq::empty()) + inner
        + closing_tag(html_name()));
    assert(render_doc(shell(body)) =~= render_tree(shell(body).root));
    assert(opening_tag(html_name(), Seq::empty()) + inner + closing_tag(html_name())
        =~= shell_opening() + render_trees(body) + shell_closing());
}

/// Scanning a text and rendering the result gives the fixed shell around
/// the markup of the scanned nodes: every text run as it stands in the
/// input and every element under the name it has in the input, in input
/// order.
pub proof fn lemma_render_parse(text: Seq<char>)
    ensures
        render_doc(parse(text)) == shell_opening() + nodes_markup(
            encode_utf8(text),
            body_nodes(encode_utf8(text)),
        ) + shell_closing(),
{
    let bytes = encode_utf8(text);
    lemma_render_nodes(bytes, body_nodes(bytes));
    lemma_render_shell(nodes_view(bytes, body_nodes(bytes)));
}

} // verus!
