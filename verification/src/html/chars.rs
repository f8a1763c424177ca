//! The scan in terms of characters.
//!
//! The scanner reads bytes, but all it tells apart are five characters
//! of one byte each.  So the same machine, run over the characters of
//! the text with character offsets in its spans, yields the same
//! document, and no encoding needs to be looked at to know what a scan
//! returns.

use vstd::prelude::*;
use vstd::utf8::*;
use crate::html::document::{element, nodes_view, parse, shell};
use crate::html::encoding::{
    lemma_char_number, lemma_encode_char, lemma_encode_concat, lemma_encode_nonempty,
    lemma_encode_one,
};
use crate::html::runs::lemma_flags_nest;
use crate::html::scan::{
    advance, finish, initial, kind_of, scan, step, Kind, Node, ScanState, Span,
};
use crate::html::slices::span_text;
use crate::html::tree::{DocView, TreeView};

verus! {

/// The kind of a character.
pub open spec fn kind_of_char(c: char) -> Kind {
    if c == '\n' || c == '\t' || c == ' ' {
        Kind::Space
    } else if c == '<' {
        Kind::LessThan
    } else if c == '>' {
        Kind::GreaterThan
    } else if c == '/' {
        Kind::Slash
    } else {
        Kind::Other
    }
}

/// The state after reading the first `n` characters of `text`, with
/// character offsets in its spans.
pub open spec fn scan_chars(text: Seq<char>, n: int) -> ScanState
    decreases n,
{
    if n <= 0 {
        initial()
    } else {
        advance(scan_chars(text, n - 1), n - 1, kind_of_char(text[n - 1]))
    }
}

/// The tree node that stands for `node` of the text `text`, where the
/// span of `node` holds character offsets.
pub open spec fn chars_of(text: Seq<char>, node: Node) -> TreeView {
    match node {
        Node::Text(span) => TreeView::Text(text.subrange(span.start, span.end)),
        Node::Element(span) => element(text.subrange(span.start, span.end), Seq::empty()),
    }
}

/// The document that scanning the characters of `text` yields.
pub open spec fn parse_chars(text: Seq<char>) -> DocView {
    shell(
        finish(scan_chars(text, text.len() as int)).map_values(|node: Node| chars_of(text, node)),
    )
}

/// The byte offset of the character offset `k` of `text`: the length of
/// the encoding of the first `k` characters.
pub open spec fn offset(text: Seq<char>, k: int) -> int {
    encode_utf8(text.take(k)).len() as int
}

/// The span of character offsets as a span of byte offsets.
pub open spec fn span_offsets(text: Seq<char>, span: Span) -> Span {
    Span { start: offset(text, span.start), end: offset(text, span.end) }
}

/// The node with its span of character offsets as a span of byte
/// offsets.
pub open spec fn node_offsets(text: Seq<char>, node: Node) -> Node {
    match node {
        Node::Text(span) => Node::Text(span_offsets(text, span)),
        Node::Element(span) => Node::Element(span_offsets(text, span)),
    }
}

/// The state `s` over the characters of `text` as a state over its
/// bytes: every character offset becomes the byte offset of that
/// character.
pub open spec fn state_offsets(text: Seq<char>, s: ScanState) -> ScanState {
    ScanState {
        text: span_offsets(text, s.text),
        name: span_offsets(text, s.name),
        nodes: s.nodes.map_values(|node: Node| node_offsets(text, node)),
        ..s
    }
}

/// The span holds character offsets of a text of `n` characters.
pub open spec fn span_within(span: Span, n: int) -> bool {
    0 <= span.start <= span.end <= n
}

/// The spans of a state over characters lie within the `n` characters
/// read.
pub open spec fn chars_wf(s: ScanState, n: int) -> bool {
    &&& span_within(s.text, n)
    &&& span_within(s.name, n)
    &&& forall|i: int| 0 <= i < s.nodes.len() ==> span_within((#[trigger] s.nodes[i]).span(), n)
}

/// The characters `from..to` of a text are encoded by the bytes between
/// the byte offsets of `from` and `to`, and a later character has a
/// later byte offset.
pub proof fn lemma_offsets(text: Seq<char>, from: int, to: int)
    requires
        0 <= from <= to <= text.len(),
    ensures
        0 <= offset(text, from) <= offset(text, to) <= encode_utf8(text).len(),
        from < to ==> offset(text, from) < offset(text, to),
        offset(text, 0) == 0,
        offset(text, text.len() as int) == encode_utf8(text).len(),
        encode_utf8(text).subrange(offset(text, from), offset(text, to)) == encode_utf8(
            text.subrange(from, to),
        ),
        span_text(encode_utf8(text), offset(text, from), offset(text, to)) == text.subrange(
            from,
            to,
        ),
{
    let before = text.take(from);
    let part = text.subrange(from, to);
    let after = text.skip(to);
    assert(text.take(to) =~= before + part);
    assert(text =~= before + part + after);
    assert(text.take(0) =~= Seq::<char>::empty());
    assert(text.take(text.len() as int) =~= text);
    lemma_encode_concat(before, part);
    lemma_encode_concat(before + part, after);
    if from < to {
        lemma_encode_nonempty(part);
    }
    assert(encode_utf8(text).subrange(offset(text, from), offset(text, to)) =~= encode_utf8(part));
    encode_utf8_decode_utf8(part);
}

/// The first byte of a character is of the character's kind, and its
/// other bytes are of no kind that the scanner tells apart.
proof fn lemma_kind_of_bytes(c: char)
    ensures
        kind_of(encode_scalar(c as u32)[0]) == kind_of_char(c),
        forall|i: int|
            0 < i < encode_scalar(c as u32).len() ==> kind_of(#[trigger] encode_scalar(c as u32)[i])
                == Kind::Other,
{
    lemma_encode_char(c);
    lemma_char_number(c, '\n');
    lemma_char_number(c, '\t');
    lemma_char_number(c, ' ');
    lemma_char_number(c, '<');
    lemma_char_number(c, '>');
    lemma_char_number(c, '/');
}

/// Reading something at the byte offset of a character moves the state
/// over the bytes as reading it at the character's offset moves the
/// state over the characters.
proof fn lemma_advance_offsets(text: Seq<char>, s: ScanState, k: int, kind: Kind)
    requires
        0 <= k < text.len(),
        chars_wf(s, k),
    ensures
        advance(state_offsets(text, s), offset(text, k), kind) == state_offsets(
            text,
            advance(s, k, kind),
        ),
        chars_wf(advance(s, k, kind), k + 1),
{
    let t = advance(s, k, kind);
    lemma_offsets(text, s.text.start, s.text.end);
    let moved = advance(state_offsets(text, s), offset(text, k), kind);
    if t.nodes != s.nodes {
        let name = t.name;
        assert(t.nodes == s.nodes.push(Node::Text(s.text)).push(Node::Element(name)));
        assert(t.nodes.map_values(|node: Node| node_offsets(text, node)) =~= s.nodes.map_values(
            |node: Node| node_offsets(text, node),
        ).push(node_offsets(text, Node::Text(s.text))).push(
            node_offsets(text, Node::Element(name)),
        ));
        assert forall|i: int| 0 <= i < t.nodes.len() implies span_within(
            (#[trigger] t.nodes[i]).span(),
            k + 1,
        ) by {
            if i < s.nodes.len() {
                assert(t.nodes[i] == s.nodes[i]);
            }
        }
    }
    assert(moved.nodes == state_offsets(text, t).nodes);
}

/// Outside a tag, and inside one whose name has begun, bytes of no kind
/// leave the state as it is.
proof fn lemma_run_of_other(bytes: Seq<u8>, from: int, to: int)
    requires
        0 <= from <= to,
        !(scan(bytes, from).open_tag && !scan(bytes, from).name_issued),
        forall|i: int| from <= i < to ==> kind_of(#[trigger] bytes[i]) == Kind::Other,
    ensures
        scan(bytes, to) == scan(bytes, from),
    decreases to - from,
{
    if from < to {
        lemma_run_of_other(bytes, from, to - 1);
        assert(kind_of(bytes[to - 1]) == Kind::Other);
    }
}

/// After the bytes of the first `k` characters, the scan of the bytes is
/// where the scan of the characters is after `k` characters.
pub proof fn lemma_scan_is_scan_chars(text: Seq<char>, k: int)
    requires
        0 <= k <= text.len(),
    ensures
        scan(encode_utf8(text), offset(text, k)) == state_offsets(text, scan_chars(text, k)),
        chars_wf(scan_chars(text, k), k),
    decreases k,
{
    let bytes = encode_utf8(text);
    if k == 0 {
        lemma_offsets(text, 0, 0);
        assert(state_offsets(text, initial()).nodes =~= initial().nodes);
    } else {
        let c = text[k - 1];
        let s = scan_chars(text, k - 1);
        let from = offset(text, k - 1);
        let to = offset(text, k);
        lemma_scan_is_scan_chars(text, k - 1);
        lemma_offsets(text, k - 1, k);
        assert(text.subrange(k - 1, k) =~= seq![c]);
        lemma_encode_one(c);
        lemma_kind_of_bytes(c);
        assert(bytes.subrange(from, to) == encode_scalar(c as u32));
        assert(bytes[from] == bytes.subrange(from, to)[0]);
        assert(scan(bytes, from + 1) == step(scan(bytes, from), from, bytes[from]));
        lemma_advance_offsets(text, s, k - 1, kind_of_char(c));
        assert forall|i: int| from + 1 <= i < to implies kind_of(#[trigger] bytes[i])
            == Kind::Other by {
            assert(bytes[i] == bytes.subrange(from, to)[i - from]);
        }
        if from + 1 < to {
            lemma_encode_char(c);
            lemma_flags_nest(bytes, from);
            assert(kind_of(bytes[from]) == Kind::Other);
            lemma_run_of_other(bytes, from + 1, to);
        }
    }
}

/// Scanning the bytes of a text and scanning its characters yield the
/// same document.
pub proof fn lemma_parse_is_parse_chars(text: Seq<char>)
    ensures
        parse(text) == parse_chars(text),
{
    let bytes = encode_utf8(text);
    let n = text.len() as int;
    let s = scan_chars(text, n);
    let nodes = finish(s);
    lemma_scan_is_scan_chars(text, n);
    lemma_offsets(text, n, n);
    lemma_offsets(text, s.text.start, s.text.end);
    let in_bytes = nodes.map_values(|node: Node| node_offsets(text, node));
    assert(finish(state_offsets(text, s)) =~= in_bytes);
    assert forall|i: int| 0 <= i < nodes.len() implies nodes_view(bytes, in_bytes)[i] == chars_of(
        text,
        nodes[i],
    ) by {
        if i < s.nodes.len() {
            assert(nodes[i] == s.nodes[i]);
        }
        lemma_offsets(text, nodes[i].span().start, nodes[i].span().end);
    }
    assert(nodes_view(bytes, in_bytes) =~= nodes.map_values(|node: Node| chars_of(text, node)));
}

} // verus!
