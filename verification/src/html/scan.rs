//! The scanner as a state machine over the bytes of the input.
//!
//! The machine reads one byte at a time and never looks back.  Its state
//! is a handful of flags, two spans of byte offsets (the pending text run
//! and the current tag name) and the nodes it has emitted so far.  The
//! nodes are spans too: every text run and every tag name is a range of
//! the input, never a copy.  There is no stack of open elements: each
//! element is emitted without children, as a sibling of the others.

use vstd::prelude::*;
use vstd::utf8::*;
use crate::html::slices::{is_char_span, lemma_boundary_after_ascii, lemma_boundary_at_ascii};

verus! {

/// The line feed, one of the three bytes of white space.
pub const NEWLINE: u8 = 0x0a;

/// The tab, one of the three bytes of white space.
pub const TAB: u8 = 0x09;

/// The space, one of the three bytes of white space.
pub const SPACE: u8 = 0x20;

/// The byte `/`.
pub const SLASH: u8 = 0x2f;

/// The byte `<`.
pub const LESS_THAN: u8 = 0x3c;

/// The byte `>`.
pub const GREATER_THAN: u8 = 0x3e;

/// The byte offsets `start..end` of the input.
pub struct Span {
    pub start: int,
    pub end: int,
}

impl Span {
    /// The span holds no byte.
    pub open spec fn is_empty(self) -> bool {
        self.start == self.end
    }
}

/// A node as the scanner emits it: a text run, or an element of which
/// only the name is kept.
pub enum Node {
    Text(Span),
    Element(Span),
}

impl Node {
    /// The range of the input that the node holds: the text of a text
    /// run, the name of an element.
    pub open spec fn span(self) -> Span {
        match self {
            Node::Text(span) => span,
            Node::Element(span) => span,
        }
    }
}

/// The state of the scan between two bytes.
pub struct ScanState {
    /// A `<` was read and the tag is neither closed nor abandoned.
    pub open_tag: bool,
    /// The first byte of the open tag's name was read.
    pub name_issued: bool,
    /// White space after the name has closed the open tag's name span.
    pub name_closed: bool,
    /// Reserved for quoted attribute values; no byte sets it.
    pub inside_quote: bool,
    /// The pending text run: from the start of the input or the `>`
    /// that closed the last tag, to the `<` that was read last.
    pub text: Span,
    /// The name span: from the byte that began a name last, to where
    /// white space or `>` closed it last.
    pub name: Span,
    /// The nodes emitted so far, in input order.
    pub nodes: Seq<Node>,
}

/// The byte is white space.
pub open spec fn is_space(byte: u8) -> bool {
    byte == NEWLINE || byte == TAB || byte == SPACE
}

/// The state before the first byte: no flag set, both spans empty at
/// the start of the input, no node emitted.
pub open spec fn initial() -> ScanState {
    ScanState {
        open_tag: false,
        name_issued: false,
        name_closed: false,
        inside_quote: false,
        text: Span { start: 0, end: 0 },
        name: Span { start: 0, end: 0 },
        nodes: Seq::empty(),
    }
}

/// `s` with every flag cleared; spans and nodes stay.
pub open spec fn clear_flags(s: ScanState) -> ScanState {
    ScanState { open_tag: false, name_issued: false, name_closed: false, inside_quote: false, ..s }
}

/// White space at offset `p`.  Inside a tag it closes the name span if a
/// name has begun, and abandons the tag if none has.
pub open spec fn on_space(s: ScanState, p: int) -> ScanState {
    if !s.open_tag {
        s
    } else if s.name_issued {
        ScanState { name_closed: true, name: Span { start: s.name.start, end: p }, ..s }
    } else {
        clear_flags(s)
    }
}

/// `<` at offset `p`: a tag opens and the pending text run ends here.
pub open spec fn on_less_than(s: ScanState, p: int) -> ScanState {
    ScanState { open_tag: true, text: Span { start: s.text.start, end: p }, ..s }
}

/// The name of the open tag when `>` at offset `p` closes it: the span
/// that white space closed, or else the span from the name's start to
/// `p`.  A tag in which no name has begun takes the start of the name
/// that began last, or the start of the input where none has: its name
/// is what stands from there to `p`, and is never empty.
pub open spec fn closing_name(s: ScanState, p: int) -> Span {
    if s.name_closed {
        s.name
    } else {
        Span { start: s.name.start, end: p }
    }
}

/// `>` at offset `p`.  Outside a tag it does nothing.  It closes an open
/// tag: where a text run is pending, the run is emitted and the element
/// right behind it; where none is, nothing is emitted.  Either way the
/// next text run starts at `p` and the flags are cleared.
pub open spec fn on_greater_than(s: ScanState, p: int) -> ScanState {
    if !s.open_tag {
        s
    } else {
        let name = closing_name(s, p);
        ScanState {
            open_tag: false,
            name_issued: false,
            name_closed: false,
            inside_quote: false,
            text: Span { start: p, end: p },
            name: name,
            nodes: if s.text.is_empty() {
                s.nodes
            } else {
                s.nodes.push(Node::Text(s.text)).push(Node::Element(name))
            },
        }
    }
}

/// Any other byte at offset `p`: the first one inside a tag begins the
/// name span.
pub open spec fn on_other(s: ScanState, p: int) -> ScanState {
    if s.open_tag && !s.name_issued {
        ScanState { name_issued: true, name: Span { start: p, end: p }, ..s }
    } else {
        s
    }
}

/// What the scanner tells apart in what it reads.
pub enum Kind {
    Space,
    LessThan,
    GreaterThan,
    Slash,
    Other,
}

/// The kind of a byte.
pub open spec fn kind_of(byte: u8) -> Kind {
    if is_space(byte) {
        Kind::Space
    } else if byte == LESS_THAN {
        Kind::LessThan
    } else if byte == GREATER_THAN {
        Kind::GreaterThan
    } else if byte == SLASH {
        Kind::Slash
    } else {
        Kind::Other
    }
}

/// The state after reading something of kind `kind` at offset `p` in
/// state `s`.  Inside a quoted value nothing is told apart; a slash
/// changes nothing.
pub open spec fn advance(s: ScanState, p: int, kind: Kind) -> ScanState {
    if s.inside_quote {
        s
    } else {
        match kind {
            Kind::Space => on_space(s, p),
            Kind::LessThan => on_less_than(s, p),
            Kind::GreaterThan => on_greater_than(s, p),
            Kind::Slash => s,
            Kind::Other => on_other(s, p),
        }
    }
}

/// The state after reading `byte` at offset `p` in state `s`.
pub open spec fn step(s: ScanState, p: int, byte: u8) -> ScanState {
    advance(s, p, kind_of(byte))
}

/// The state after reading the first `n` bytes of `bytes`.
pub open spec fn scan(bytes: Seq<u8>, n: int) -> ScanState
    decreases n,
{
    if n <= 0 {
        initial()
    } else {
        step(scan(bytes, n - 1), n - 1, bytes[n - 1])
    }
}

/// The nodes once the input has ended in state `s`: a non-empty pending
/// text run is emitted, an unfinished tag is not.
pub open spec fn finish(s: ScanState) -> Seq<Node> {
    if s.text.is_empty() {
        s.nodes
    } else {
        s.nodes.push(Node::Text(s.text))
    }
}

/// All nodes that scanning `bytes` emits, in input order.
pub open spec fn body_nodes(bytes: Seq<u8>) -> Seq<Node> {
    finish(scan(bytes, bytes.len() as int))
}

/// A node's span lies on character boundaries of `bytes` and is not
/// empty.
pub open spec fn node_wf(bytes: Seq<u8>, node: Node) -> bool {
    &&& is_char_span(bytes, node.span().start, node.span().end)
    &&& !node.span().is_empty()
}

/// Text runs and elements alternate, starting with a text run and ending
/// with an element.
pub open spec fn alternating(nodes: Seq<Node>) -> bool {
    &&& nodes.len() % 2 == 0
    &&& forall|i: int| 0 <= i < nodes.len() ==> ((#[trigger] nodes[i]) is Text <==> i % 2 == 0)
}

/// What holds of the state after the first `p` bytes of valid UTF-8:
/// the flags nest, both spans and the span of every node lie on
/// character boundaries, no node is empty, and the nodes alternate.
/// (Where a tag is open and has no name yet, the byte before is `<` or
/// `/`, so a name that begins next begins on a character boundary.)
pub open spec fn state_wf(bytes: Seq<u8>, p: int, s: ScanState) -> bool {
    &&& !s.inside_quote
    &&& s.name_closed ==> s.name_issued
    &&& s.name_issued ==> s.open_tag
    &&& s.open_tag ==> p > 0
    &&& s.open_tag && !s.name_issued ==> bytes[p - 1] < 0x80
    &&& p > 0 ==> s.name.start < p
    &&& s.name_closed ==> s.name.start < s.name.end
    &&& s.text.end <= p
    &&& s.name.end <= p
    &&& is_char_span(bytes, s.text.start, s.text.end)
    &&& is_char_span(bytes, s.name.start, s.name.end)
    &&& alternating(s.nodes)
    &&& forall|i: int| 0 <= i < s.nodes.len() ==> node_wf(bytes, #[trigger] s.nodes[i])
}

/// One byte keeps the state well formed.
pub proof fn lemma_step_wf(bytes: Seq<u8>, p: int, s: ScanState)
    requires
        valid_utf8(bytes),
        0 <= p < bytes.len(),
        state_wf(bytes, p, s),
    ensures
        state_wf(bytes, p + 1, step(s, p, bytes[p])),
{
    let byte = bytes[p];
    let t = step(s, p, byte);
    if byte < 0x80 {
        lemma_boundary_at_ascii(bytes, p);
    }
    if s.open_tag && !s.name_issued {
        lemma_boundary_after_ascii(bytes, p - 1);
    }
    if byte == GREATER_THAN && s.open_tag {
        let name = closing_name(s, p);
        assert(node_wf(bytes, Node::Element(name)));
        if !s.text.is_empty() {
            assert(node_wf(bytes, Node::Text(s.text)));
            assert forall|i: int| 0 <= i < t.nodes.len() implies node_wf(
                bytes,
                #[trigger] t.nodes[i],
            ) by {
                if i < s.nodes.len() {
                    assert(t.nodes[i] == s.nodes[i]);
                }
            }
            assert forall|i: int| 0 <= i < t.nodes.len() implies ((#[trigger] t.nodes[i]) is Text
                <==> i % 2 == 0) by {
                if i < s.nodes.len() {
                    assert(t.nodes[i] == s.nodes[i]);
                }
            }
        }
    }
}

/// The state after any prefix of valid UTF-8 is well formed.
pub proof fn lemma_scan_wf(bytes: Seq<u8>, n: int)
    requires
        valid_utf8(bytes),
        0 <= n <= bytes.len(),
    ensures
        state_wf(bytes, n, scan(bytes, n)),
    decreases n,
{
    if n > 0 {
        lemma_scan_wf(bytes, n - 1);
        lemma_step_wf(bytes, n - 1, scan(bytes, n - 1));
    } else {
        is_char_boundary_start_end_of_seq(bytes);
    }
}

} // verus!
