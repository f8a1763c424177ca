//! The scanner itself: one pass over the bytes of the input.

use vstd::prelude::*;
use vstd::string::StringSliceAdditionalSpecFns;
use vstd::utf8::*;
use crate::html::chars::{lemma_parse_is_parse_chars, parse_chars};
use crate::html::document::{body_name, element, head_name, html_name, node_view, nodes_view, parse};
use crate::html::flags::HtmlFlags;
use crate::html::scan::{
    body_nodes, lemma_scan_wf, lemma_step_wf, scan, state_wf, step, ScanState, GREATER_THAN,
    LESS_THAN, NEWLINE, SLASH, SPACE, TAB,
};
use crate::html::slices::{lemma_span_text_nonempty, slice, span_text};
use crate::html::tree::{lemma_tag_view, trees_view, HtmlDoc, HtmlTree};

verus! {

/// The flag register and the four cursors of a running scan hold what the
/// state `s` holds.
spec fn cursors_agree(
    s: ScanState,
    flags: HtmlFlags,
    from: usize,
    to: usize,
    from_n: usize,
    to_n: usize,
) -> bool {
    &&& flags@.len() == 8
    &&& flags.open_tag() == s.open_tag
    &&& flags.name_issued() == s.name_issued
    &&& flags.inside_quote() == s.inside_quote
    &&& from == s.text.start
    &&& to == s.text.end
    &&& from_n == s.name.start
    &&& to_n == s.name.end
}

/// The tag name held by a running scan is the text of the name span once
/// white space has closed it, and is empty until then.
spec fn name_agrees(bytes: Seq<u8>, s: ScanState, tag_name: Seq<char>) -> bool {
    if s.name_closed {
        tag_name == span_text(bytes, s.name.start, s.name.end)
    } else {
        tag_name.len() == 0
    }
}

/// The trees collected by a running scan are the nodes of the state `s`.
spec fn nodes_agree(bytes: Seq<u8>, s: ScanState, body: Seq<HtmlTree>) -> bool {
    &&& body.len() == s.nodes.len()
    &&& forall|i: int| 0 <= i < body.len() ==> (#[trigger] body[i])@ == node_view(bytes, s.nodes[i])
}

/// An element without attributes.
fn new_element<'a>(name: &'a str, children: Vec<HtmlTree<'a>>) -> (tree: HtmlTree<'a>)
    ensures
        tree@ == element(name@, trees_view(children@)),
{
    let tree = HtmlTree::Tag { name: name, attrs: Vec::new(), children: children };
    proof {
        lemma_tag_view(tree);
        assert(tree@->attrs =~= Seq::empty());
    }
    tree
}

/// Scans `input` once, byte by byte, and returns the document.
///
/// The document is a root `html` with an empty `head` and a `body`; the
/// children of `body` are the text runs and elements that the scan
/// emitted, in input order, each borrowed from `input`.  Every input is
/// scanned to its end: each range that is borrowed is proved to lie on
/// character boundaries, so no input can make the scan fail.
///
/// The result is stated twice: as the document of the scan over the
/// bytes of `input`, which is what this function runs, and as the
/// document of the same scan over its characters, which is the same.
pub fn parse_html<'a>(input: &'a str) -> (doc: HtmlDoc<'a>)
    ensures
        doc@ == parse(input@),
        doc@ == parse_chars(input@),
{
    let b = input.as_bytes();
    let sz = b.len();
    let ghost bytes = input.spec_bytes();

    let mut from: usize = 0;
    let mut to: usize = 0;

    let mut from_n: usize = 0;
    let mut to_n: usize = 0;

    let mut tag_name: &'a str = "";

    let mut flags = HtmlFlags::new();

    let mut body: Vec<HtmlTree<'a>> = Vec::new();

    proof {
        broadcast use encode_utf8_valid_utf8;

        reveal_strlit("");
        lemma_scan_wf(bytes, 0);
    }

    for p in 0..sz
        invariant
            bytes == input.spec_bytes(),
            b@ == bytes,
            sz == bytes.len(),
            valid_utf8(bytes),
            state_wf(bytes, p as int, scan(bytes, p as int)),
            cursors_agree(scan(bytes, p as int), flags, from, to, from_n, to_n),
            name_agrees(bytes, scan(bytes, p as int), tag_name@),
            nodes_agree(bytes, scan(bytes, p as int), body@),
    {
        let ghost s = scan(bytes, p as int);
        let byte = b[p];
        proof {
            reveal_strlit("");
            lemma_step_wf(bytes, p as int, s);
            assert(scan(bytes, p + 1) == step(s, p as int, byte));
            if s.name_closed {
                lemma_span_text_nonempty(bytes, s.name.start, s.name.end);
            }
        }
        if !flags.get_inside_quote() {
            match byte {
                NEWLINE | TAB | SPACE => {
                    if flags.get_open_tag() {
                        if flags.get_name_issued() {
                            to_n = p;
                            tag_name = slice(input, from_n, to_n);
                            proof {
                                lemma_span_text_nonempty(bytes, from_n as int, to_n as int);
                            }
                        } else {
                            flags.reset();
                        }
                    }
                },
                LESS_THAN => {
                    flags.set_open_tag(true);
                    to = p;
                },
                GREATER_THAN => {
                    if flags.get_open_tag() {
                        if tag_name.is_empty() {
                            to_n = p;
                            tag_name = slice(input, from_n, to_n);
                        }
                        if from != to {
                            let ghost before = body@;
                            body.push(HtmlTree::Text(slice(input, from, to)));
                            body.push(new_element(tag_name, Vec::new()));
                            proof {
                                let t = step(s, p as int, byte);
                                assert(trees_view(Seq::<HtmlTree>::empty()) =~= Seq::empty());
                                assert forall|i: int| 0 <= i < body@.len() implies (#[trigger] body@[i])@
                                    == node_view(bytes, t.nodes[i]) by {
                                    if i < before.len() {
                                        assert(body@[i] == before[i]);
                                    }
                                }
                            }
                        }
                        from = p;
                        to = p;

                        // The next tag gets a name of its own.
                        flags.reset();
                        tag_name = "";
                    }
                },
                SLASH => {},
                _ => {
                    if flags.get_open_tag() && !flags.get_name_issued() {
                        flags.set_name_issued(true);
                        from_n = p;
                        to_n = p;
                    }
                },
            }
        }
    }

    let ghost emitted = body@;
    if from != to {
        body.push(HtmlTree::Text(slice(input, from, to)));
    }
    proof {
        let nodes = body_nodes(bytes);
        assert forall|i: int| 0 <= i < body@.len() implies (#[trigger] body@[i])@ == node_view(
            bytes,
            nodes[i],
        ) by {
            if i < emitted.len() {
                assert(body@[i] == emitted[i]);
            }
        }
        assert(trees_view(body@) =~= nodes_view(bytes, nodes));
    }
    let ghost body_view = trees_view(body@);
    let mut top: Vec<HtmlTree<'a>> = Vec::new();
    top.push(new_element("head", Vec::new()));
    top.push(new_element("body", body));
    let doc = HtmlDoc { doc_type: None, root: new_element("html", top) };
    proof {
        reveal_strlit("html");
        reveal_strlit("head");
        reveal_strlit("body");
        assert("html"@ =~= html_name());
        assert("head"@ =~= head_name());
        assert("body"@ =~= body_name());
        assert(trees_view(Seq::<HtmlTree>::empty()) =~= Seq::empty());
        assert(trees_view(top@) =~= seq![
            element(head_name(), Seq::empty()),
            element(body_name(), body_view),
        ]);
        lemma_parse_is_parse_chars(input@);
    }
    doc
}

} // verus!
