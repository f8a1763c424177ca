//! What holds of every scan: the shape of the body, what becomes of the
//! text at the end of the input, and what white space does to a tag.

use vstd::prelude::*;
use vstd::utf8::*;
use crate::html::document::{body_children, node_view, nodes_view, parse, shell};
use crate::html::encoding::{
    lemma_char_number, lemma_decode_concat, lemma_encode_ascii_char, lemma_encode_concat,
    lemma_encode_nonempty, lemma_encoding_lacks_byte,
};
use crate::html::runs::{
    lemma_flags_nest, lemma_nodes_view_of_prefix, lemma_run_without_brackets, lemma_scan_of_prefix,
};
use crate::html::scan::{
    body_nodes, clear_flags, is_space, lemma_scan_wf, node_wf, on_greater_than, scan, step, Node,
    ScanState, Span, GREATER_THAN, LESS_THAN,
};
use crate::html::slices::{lemma_char_span_valid, lemma_span_text_nonempty, span_text};
use crate::html::tree::TreeView;

verus! {

/// Every node that a scan emits is a non-empty range of the input whose
/// two ends lie on character boundaries: taking the node's text out of
/// the input never splits a character, whatever the input holds.
pub proof fn lemma_nodes_are_char_spans(text: Seq<char>)
    ensures
        forall|i: int|
            0 <= i < body_nodes(encode_utf8(text)).len() ==> node_wf(
                encode_utf8(text),
                #[trigger] body_nodes(encode_utf8(text))[i],
            ),
{
    let bytes = encode_utf8(text);
    encode_utf8_valid_utf8(text);
    lemma_scan_wf(bytes, bytes.len() as int);
}

/// Text runs and elements alternate: the nodes at even positions are
/// text runs, those at odd positions are elements.
pub proof fn lemma_body_alternates(text: Seq<char>)
    ensures
        forall|i: int|
            0 <= i < body_nodes(encode_utf8(text)).len() ==> ((#[trigger] body_nodes(
                encode_utf8(text),
            )[i]) is Text <==> i % 2 == 0),
{
    let bytes = encode_utf8(text);
    encode_utf8_valid_utf8(text);
    lemma_scan_wf(bytes, bytes.len() as int);
}

/// Each node ends at or before the start of every text run behind it.
pub open spec fn in_input_order(nodes: Seq<Node>) -> bool {
    forall|i: int, j: int|
        #![trigger nodes[i], nodes[j]]
        0 <= i < j < nodes.len() && nodes[j] is Text ==> nodes[i].span().end
            <= nodes[j].span().start
}

proof fn lemma_scan_in_input_order(bytes: Seq<u8>, n: int)
    requires
        0 <= n,
    ensures
        in_input_order(scan(bytes, n).nodes),
        forall|i: int|
            0 <= i < scan(bytes, n).nodes.len() ==> (#[trigger] scan(bytes, n).nodes[i]).span().end
                <= scan(bytes, n).text.start,
        scan(bytes, n).text.start <= scan(bytes, n).text.end <= n,
        scan(bytes, n).name.end <= n,
    decreases n,
{
    if n > 0 {
        let s = scan(bytes, n - 1);
        let t = scan(bytes, n);
        lemma_scan_in_input_order(bytes, n - 1);
        lemma_flags_nest(bytes, n - 1);
        if t.nodes != s.nodes {
            let run = Node::Text(s.text);
            assert(t.nodes == s.nodes.push(run).push(Node::Element(t.name)));
            assert forall|i: int| 0 <= i < t.nodes.len() implies (#[trigger] t.nodes[i]).span().end
                <= t.text.start by {
                if i < s.nodes.len() {
                    assert(t.nodes[i] == s.nodes[i]);
                }
            }
            assert forall|i: int, j: int|
                #![trigger t.nodes[i], t.nodes[j]]
                0 <= i < j < t.nodes.len() && t.nodes[j] is Text implies t.nodes[i].span().end
                <= t.nodes[j].span().start by {
                if j < s.nodes.len() {
                    assert(t.nodes[i] == s.nodes[i]);
                    assert(t.nodes[j] == s.nodes[j]);
                } else {
                    assert(j == s.nodes.len());
                    assert(t.nodes[i] == s.nodes[i]);
                }
            }
        }
    }
}

/// The nodes stand in input order: each node ends at or before the
/// start of every text run behind it, so the text runs follow each other
/// in the input without overlap.
pub proof fn lemma_body_in_input_order(bytes: Seq<u8>)
    ensures
        in_input_order(body_nodes(bytes)),
{
    let s = scan(bytes, bytes.len() as int);
    let nodes = body_nodes(bytes);
    lemma_scan_in_input_order(bytes, bytes.len() as int);
    assert forall|i: int, j: int|
        #![trigger nodes[i], nodes[j]]
        0 <= i < j < nodes.len() && nodes[j] is Text implies nodes[i].span().end
        <= nodes[j].span().start by {
        assert(nodes[i] == s.nodes[i]);
        if j < s.nodes.len() {
            assert(nodes[j] == s.nodes[j]);
        }
    }
}

/// The children of `body` are the trees of the scanned nodes.
pub proof fn lemma_body_children(text: Seq<char>)
    ensures
        body_children(parse(text)) == nodes_view(
            encode_utf8(text),
            body_nodes(encode_utf8(text)),
        ),
        body_children(parse(text)).len() == body_nodes(encode_utf8(text)).len(),
{
}

/// The tree is flat: every child of `body` is a text node with at least
/// one character, or an element with a name of at least one character,
/// no attribute and no child.
pub proof fn lemma_body_is_flat(text: Seq<char>)
    ensures
        forall|i: int|
            0 <= i < body_children(parse(text)).len() ==> match #[trigger] body_children(
                parse(text),
            )[i] {
                TreeView::Text(run) => run.len() > 0,
                TreeView::Tag { name, attrs, children } => name.len() > 0 && attrs.len() == 0
                    && children.len() == 0,
                _ => false,
            },
{
    let bytes = encode_utf8(text);
    let nodes = body_nodes(bytes);
    encode_utf8_valid_utf8(text);
    lemma_nodes_are_char_spans(text);
    lemma_body_children(text);
    assert forall|i: int| 0 <= i < nodes.len() implies match #[trigger] nodes_view(bytes, nodes)[i] {
        TreeView::Text(run) => run.len() > 0,
        TreeView::Tag { name, attrs, children } => name.len() > 0 && attrs.len() == 0
            && children.len() == 0,
        _ => false,
    } by {
        assert(node_wf(bytes, nodes[i]));
        lemma_span_text_nonempty(bytes, nodes[i].span().start, nodes[i].span().end);
    }
}

/// The nodes alternate in the tree too: the children of `body` at even
/// positions are text nodes, those at odd positions are elements.
pub proof fn lemma_body_children_alternate(text: Seq<char>)
    ensures
        forall|i: int|
            0 <= i < body_children(parse(text)).len() ==> ((#[trigger] body_children(
                parse(text),
            )[i]) is Text <==> i % 2 == 0),
{
    let bytes = encode_utf8(text);
    let nodes = body_nodes(bytes);
    lemma_body_alternates(text);
    lemma_body_children(text);
    assert forall|i: int| 0 <= i < nodes.len() implies ((#[trigger] nodes_view(bytes, nodes)[i]) is Text
        <==> i % 2 == 0) by {
        assert(nodes[i] is Text <==> i % 2 == 0);
    }
}

/// The text run that is pending when the input `bytes` ends.
pub open spec fn pending_text(bytes: Seq<u8>) -> Span {
    scan(bytes, bytes.len() as int).text
}

/// A text run that is pending when the input ends is flushed: it is the
/// last node of the body.
pub proof fn lemma_pending_text_is_flushed(bytes: Seq<u8>)
    requires
        !pending_text(bytes).is_empty(),
    ensures
        body_nodes(bytes).len() > 0,
        body_nodes(bytes).last() == Node::Text(pending_text(bytes)),
        nodes_view(bytes, body_nodes(bytes)).last() == TreeView::Text(
            span_text(bytes, pending_text(bytes).start, pending_text(bytes).end),
        ),
{
}

/// With no text run pending when the input ends, the end of the input
/// adds no node.
pub proof fn lemma_nothing_pending_nothing_flushed(bytes: Seq<u8>)
    requires
        pending_text(bytes).is_empty(),
    ensures
        body_nodes(bytes) == scan(bytes, bytes.len() as int).nodes,
{
}

/// Where the pending text run lies after `n` bytes.  It starts at the
/// start of the input or at a `>`; it ends at the last `<` behind its
/// start, or at its start where there is none.  So it is empty exactly
/// if no `<` stands behind its start.
pub proof fn lemma_pending_text_span(bytes: Seq<u8>, n: int)
    requires
        0 <= n,
    ensures
        0 <= scan(bytes, n).text.start <= scan(bytes, n).text.end,
        n > 0 ==> scan(bytes, n).text.end < n,
        scan(bytes, n).text.start > 0 ==> bytes[scan(bytes, n).text.start] == GREATER_THAN,
        !scan(bytes, n).text.is_empty() ==> bytes[scan(bytes, n).text.end] == LESS_THAN,
        forall|i: int| scan(bytes, n).text.end < i < n ==> #[trigger] bytes[i] != LESS_THAN,
    decreases n,
{
    if n > 0 {
        lemma_pending_text_span(bytes, n - 1);
        lemma_flags_nest(bytes, n - 1);
    }
}

/// The text holds neither `<` nor `>`.
pub open spec fn has_no_bracket(text: Seq<char>) -> bool {
    forall|j: int| 0 <= j < text.len() ==> #[trigger] text[j] != '<' && text[j] != '>'
}

/// A text without brackets is encoded without bracket bytes.
proof fn lemma_no_bracket_bytes(text: Seq<char>)
    requires
        has_no_bracket(text),
    ensures
        forall|i: int|
            0 <= i < encode_utf8(text).len() ==> #[trigger] encode_utf8(text)[i] != LESS_THAN
                && encode_utf8(text)[i] != GREATER_THAN,
{
    assert forall|j: int| 0 <= j < text.len() implies #[trigger] text[j] as u32 != LESS_THAN
        && text[j] as u32 != GREATER_THAN by {
        lemma_char_number(text[j], '<');
        lemma_char_number(text[j], '>');
    }
    lemma_encoding_lacks_byte(text, LESS_THAN);
    lemma_encoding_lacks_byte(text, GREATER_THAN);
}

/// The trees of the nodes that the scan of `text` has emitted when
/// `text` ends, before the end of the input flushes anything.
pub open spec fn emitted(text: Seq<char>) -> Seq<TreeView> {
    nodes_view(encode_utf8(text), scan(encode_utf8(text), encode_utf8(text).len() as int).nodes)
}

/// What of `text` lies behind the start of the text run that is pending
/// when `text` ends: all of `text` from the `>` of the tag that was
/// closed last, or all of `text` where no tag was closed.
pub open spec fn unflushed(text: Seq<char>) -> Seq<char> {
    span_text(
        encode_utf8(text),
        pending_text(encode_utf8(text)).start,
        encode_utf8(text).len() as int,
    )
}

/// Text at the end of the input is lost unless a `<` follows it: where
/// `tail` holds no bracket, the document of `text + tail` is that of
/// `text`.
pub proof fn lemma_trailing_text_is_dropped(text: Seq<char>, tail: Seq<char>)
    requires
        has_no_bracket(tail),
    ensures
        parse(text + tail) == parse(text),
{
    let head = encode_utf8(text);
    let more = encode_utf8(tail);
    let bytes = head + more;
    let n = head.len() as int;
    lemma_encode_concat(text, tail);
    lemma_no_bracket_bytes(tail);
    lemma_scan_of_prefix(bytes, head, n);
    assert forall|i: int| n <= i < bytes.len() implies #[trigger] bytes[i] != LESS_THAN && bytes[i]
        != GREATER_THAN by {
        assert(bytes[i] == more[i - n]);
    }
    lemma_run_without_brackets(bytes, n, bytes.len() as int);
    assert(body_nodes(bytes) == body_nodes(head));
    lemma_nodes_are_char_spans(text);
    lemma_nodes_view_of_prefix(head, more, body_nodes(head));
}

/// Text at the end of the input is flushed once a `<` follows it: where
/// `tail` and `rest` hold no bracket, the last node of the document of
/// `text + tail + "<" + rest` is the text run that holds `tail` behind
/// what of `text` was not flushed, and the nodes before it are those
/// that the scan of `text` had emitted.
pub proof fn lemma_trailing_text_is_flushed(text: Seq<char>, tail: Seq<char>, rest: Seq<char>)
    requires
        has_no_bracket(tail),
        has_no_bracket(rest),
        unflushed(text).len() + tail.len() > 0,
    ensures
        parse(text + tail + seq!['<'] + rest) == shell(
            emitted(text).push(TreeView::Text(unflushed(text) + tail)),
        ),
{
    let head = encode_utf8(text);
    let middle = encode_utf8(tail);
    let last = encode_utf8(rest);
    let more = middle + seq![LESS_THAN] + last;
    let bytes = encode_utf8(text + tail + seq!['<'] + rest);
    let n = head.len() as int;
    let less = n + middle.len();
    let s = scan(head, n);

    lemma_encode_concat(text, tail);
    lemma_encode_concat(text + tail, seq!['<']);
    lemma_encode_concat(text + tail + seq!['<'], rest);
    lemma_encode_ascii_char('<');
    assert(bytes =~= head + more);
    lemma_no_bracket_bytes(tail);
    lemma_no_bracket_bytes(rest);
    encode_utf8_valid_utf8(text);
    encode_utf8_valid_utf8(tail);
    lemma_scan_wf(head, n);

    lemma_scan_of_prefix(bytes, head, n);
    assert forall|i: int| n <= i < less implies #[trigger] bytes[i] != LESS_THAN && bytes[i]
        != GREATER_THAN by {
        assert(bytes[i] == middle[i - n]);
    }
    lemma_run_without_brackets(bytes, n, less);
    lemma_flags_nest(bytes, less);
    assert(bytes[less] == LESS_THAN);
    assert(scan(bytes, less + 1) == step(scan(bytes, less), less, bytes[less]));
    assert forall|i: int| less + 1 <= i < bytes.len() implies #[trigger] bytes[i] != LESS_THAN
        && bytes[i] != GREATER_THAN by {
        assert(bytes[i] == last[i - less - 1]);
    }
    lemma_run_without_brackets(bytes, less + 1, bytes.len() as int);

    let start = s.text.start;
    if tail.len() > 0 {
        lemma_encode_nonempty(tail);
    }
    assert(start < less);
    let run = Node::Text(Span { start: start, end: less });
    assert(body_nodes(bytes) == s.nodes.push(run));

    is_char_boundary_start_end_of_seq(head);
    lemma_char_span_valid(head, start, n);
    assert(bytes.subrange(start, less) =~= head.subrange(start, n) + middle);
    lemma_decode_concat(head.subrange(start, n), middle);
    encode_utf8_decode_utf8(tail);
    assert(node_view(bytes, run) == TreeView::Text(unflushed(text) + tail));

    lemma_nodes_view_of_prefix(head, more, s.nodes);
    assert(nodes_view(bytes, s.nodes.push(run)) =~= emitted(text).push(
        TreeView::Text(unflushed(text) + tail),
    ));
}

/// White space right behind the `<` that begins a tag abandons the tag:
/// the flags are cleared, and all that is left of the `<` is that the
/// pending text run ends at it.
pub proof fn lemma_space_abandons_tag(bytes: Seq<u8>, less: int)
    requires
        0 <= less,
        !scan(bytes, less).name_issued,
        bytes[less] == LESS_THAN,
        is_space(bytes[less + 1]),
    ensures
        scan(bytes, less + 2) == clear_flags(
            ScanState {
                text: Span { start: scan(bytes, less).text.start, end: less },
                ..scan(bytes, less)
            },
        ),
{
    lemma_flags_nest(bytes, less);
    assert(scan(bytes, less + 1) == step(scan(bytes, less), less, bytes[less]));
    assert(scan(bytes, less + 2) == step(scan(bytes, less + 1), less + 1, bytes[less + 1]));
}

/// White space between the name of a tag and its `>` changes nothing of
/// what the `>` emits: the nodes are those that a `>` in the place of
/// the white space would have given.
pub proof fn lemma_space_before_greater_than(bytes: Seq<u8>, space: int)
    requires
        0 <= space,
        scan(bytes, space).open_tag,
        scan(bytes, space).name_issued,
        !scan(bytes, space).name_closed,
        is_space(bytes[space]),
        bytes[space + 1] == GREATER_THAN,
    ensures
        scan(bytes, space + 2).nodes == on_greater_than(scan(bytes, space), space).nodes,
        scan(bytes, space + 2).name == on_greater_than(scan(bytes, space), space).name,
{
    lemma_flags_nest(bytes, space);
    assert(scan(bytes, space + 1) == step(scan(bytes, space), space, bytes[space]));
    assert(scan(bytes, space + 2) == step(scan(bytes, space + 1), space + 1, bytes[space + 1]));
}

/// Only a `>` emits an element: input without `>` gives none, however
/// many tags it opens.
pub proof fn lemma_no_element_without_greater_than(bytes: Seq<u8>)
    requires
        forall|i: int| 0 <= i < bytes.len() ==> #[trigger] bytes[i] != GREATER_THAN,
    ensures
        scan(bytes, bytes.len() as int).nodes.len() == 0,
        forall|i: int| 0 <= i < body_nodes(bytes).len() ==> (#[trigger] body_nodes(bytes)[i]) is Text,
{
    lemma_no_nodes_without_greater_than(bytes, bytes.len() as int);
}

proof fn lemma_no_nodes_without_greater_than(bytes: Seq<u8>, n: int)
    requires
        0 <= n <= bytes.len(),
        forall|i: int| 0 <= i < bytes.len() ==> #[trigger] bytes[i] != GREATER_THAN,
    ensures
        scan(bytes, n).nodes.len() == 0,
    decreases n,
{
    if n > 0 {
        lemma_no_nodes_without_greater_than(bytes, n - 1);
        assert(bytes[n - 1] != GREATER_THAN);
    }
}

} // verus!
