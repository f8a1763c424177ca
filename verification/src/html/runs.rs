//! How the scanner moves over a run of bytes of one kind, and over a
//! whole tag.

use vstd::prelude::*;
use crate::html::document::{node_view, nodes_view};
use crate::html::scan::{
    is_space, node_wf, scan, step, Node, ScanState, Span, GREATER_THAN, LESS_THAN, SLASH,
};
use crate::html::slices::span_text;

verus! {

/// The byte may begin a tag name: it is no white space, bracket or
/// slash.
pub open spec fn begins_name(byte: u8) -> bool {
    !is_space(byte) && byte != LESS_THAN && byte != GREATER_THAN && byte != SLASH
}

/// The byte may stand inside a tag name: it is no white space or
/// bracket.
pub open spec fn continues_name(byte: u8) -> bool {
    !is_space(byte) && byte != LESS_THAN && byte != GREATER_THAN
}

/// No flag of `s` is set: the scan is outside a tag.
pub open spec fn outside_tag(s: ScanState) -> bool {
    !s.open_tag && !s.name_issued && !s.name_closed && !s.inside_quote
}

/// No byte sets the quote flag, a name is closed only after it has
/// begun, and it begins only inside a tag.
pub proof fn lemma_flags_nest(bytes: Seq<u8>, n: int)
    ensures
        !scan(bytes, n).inside_quote,
        scan(bytes, n).name_closed ==> scan(bytes, n).name_issued,
        scan(bytes, n).name_issued ==> scan(bytes, n).open_tag,
    decreases n,
{
    if n > 0 {
        lemma_flags_nest(bytes, n - 1);
    }
}

/// The state after `n` bytes depends on those `n` bytes only.
pub proof fn lemma_scan_of_prefix(a: Seq<u8>, b: Seq<u8>, n: int)
    requires
        forall|i: int| 0 <= i < n ==> a[i] == b[i],
    ensures
        scan(a, n) == scan(b, n),
    decreases n,
{
    if n > 0 {
        lemma_scan_of_prefix(a, b, n - 1);
    }
}

/// Bytes other than `<` and `>` leave the pending text run and the
/// emitted nodes as they are.
pub proof fn lemma_run_without_brackets(bytes: Seq<u8>, from: int, to: int)
    requires
        0 <= from <= to,
        forall|i: int|
            from <= i < to ==> #[trigger] bytes[i] != LESS_THAN && bytes[i] != GREATER_THAN,
    ensures
        scan(bytes, to).text == scan(bytes, from).text,
        scan(bytes, to).nodes == scan(bytes, from).nodes,
    decreases to - from,
{
    if from < to {
        lemma_run_without_brackets(bytes, from, to - 1);
        assert(bytes[to - 1] != LESS_THAN && bytes[to - 1] != GREATER_THAN);
    }
}

/// Outside a tag, bytes other than `<` leave the whole state as it is.
pub proof fn lemma_run_of_text(bytes: Seq<u8>, from: int, to: int)
    requires
        0 <= from <= to,
        !scan(bytes, from).open_tag,
        forall|i: int| from <= i < to ==> #[trigger] bytes[i] != LESS_THAN,
    ensures
        scan(bytes, to) == scan(bytes, from),
    decreases to - from,
{
    if from < to {
        lemma_run_of_text(bytes, from, to - 1);
        lemma_flags_nest(bytes, from);
        assert(bytes[to - 1] != LESS_THAN);
    }
}

/// Inside a tag that has no name yet, a byte that begins a name and any
/// number of bytes that continue it begin the name span at the first of
/// them and change nothing else.
pub proof fn lemma_run_of_name(bytes: Seq<u8>, from: int, to: int)
    requires
        0 <= from < to,
        scan(bytes, from).open_tag,
        !scan(bytes, from).name_issued,
        begins_name(bytes[from]),
        forall|i: int| from < i < to ==> continues_name(#[trigger] bytes[i]),
    ensures
        scan(bytes, to) == (ScanState {
            name_issued: true,
            name: Span { start: from, end: from },
            ..scan(bytes, from)
        }),
    decreases to - from,
{
    lemma_flags_nest(bytes, from);
    if from + 1 < to {
        lemma_run_of_name(bytes, from, to - 1);
        assert(continues_name(bytes[to - 1]));
    }
}

/// The bytes `less..=greater` are a tag with a name and nothing else:
/// `<`, a byte that begins a name, bytes that continue it, and `>`.
pub open spec fn is_plain_tag(bytes: Seq<u8>, less: int, greater: int) -> bool {
    &&& 0 <= less
    &&& less + 1 < greater
    &&& bytes[less] == LESS_THAN
    &&& begins_name(bytes[less + 1])
    &&& forall|i: int| less + 1 < i < greater ==> continues_name(#[trigger] bytes[i])
    &&& bytes[greater] == GREATER_THAN
}

/// The state after a plain tag that began outside a tag in state `s`.
pub open spec fn after_plain_tag(s: ScanState, less: int, greater: int) -> ScanState {
    ScanState {
        open_tag: false,
        name_issued: false,
        name_closed: false,
        inside_quote: false,
        text: Span { start: greater, end: greater },
        name: Span { start: less + 1, end: greater },
        nodes: if s.text.start == less {
            s.nodes
        } else {
            s.nodes.push(Node::Text(Span { start: s.text.start, end: less })).push(
                Node::Element(Span { start: less + 1, end: greater }),
            )
        },
    }
}

/// A plain tag that begins outside a tag emits the text run that was
/// pending up to its `<`, if that is not empty, and then the element
/// named by the bytes between its brackets; the next text run starts at
/// its `>`.
pub proof fn lemma_plain_tag(bytes: Seq<u8>, less: int, greater: int)
    requires
        is_plain_tag(bytes, less, greater),
        !scan(bytes, less).open_tag,
    ensures
        scan(bytes, greater + 1) == after_plain_tag(scan(bytes, less), less, greater),
{
    lemma_flags_nest(bytes, less);
    let opened = scan(bytes, less + 1);
    assert(opened == step(scan(bytes, less), less, bytes[less]));
    lemma_run_of_name(bytes, less + 1, greater);
    assert(scan(bytes, greater + 1) == step(scan(bytes, greater), greater, bytes[greater]));
}

/// The text of a span of `head` is the same in `head + tail`.
pub proof fn lemma_span_text_of_prefix(head: Seq<u8>, tail: Seq<u8>, start: int, end: int)
    requires
        0 <= start <= end <= head.len(),
    ensures
        span_text(head + tail, start, end) == span_text(head, start, end),
{
    assert((head + tail).subrange(start, end) =~= head.subrange(start, end));
}

/// The trees of nodes of `head` are the same in `head + tail`.
pub proof fn lemma_nodes_view_of_prefix(head: Seq<u8>, tail: Seq<u8>, nodes: Seq<Node>)
    requires
        forall|i: int| 0 <= i < nodes.len() ==> node_wf(head, #[trigger] nodes[i]),
    ensures
        nodes_view(head + tail, nodes) == nodes_view(head, nodes),
{
    assert forall|i: int| 0 <= i < nodes.len() implies node_view(head + tail, nodes[i])
        == node_view(head, nodes[i]) by {
        assert(node_wf(head, nodes[i]));
        lemma_span_text_of_prefix(head, tail, nodes[i].span().start, nodes[i].span().end);
    }
    assert(nodes_view(head + tail, nodes) =~= nodes_view(head, nodes));
}

} // verus!
