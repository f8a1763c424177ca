//! Simple markup: text runs and plain tags in turn.  For such input the
//! scan and the rendering of its result are known in closed form.

use vstd::prelude::*;
use vstd::utf8::*;
use crate::html::document::{element, node_view, nodes_view, parse, shell};
use crate::html::encoding::{
    lemma_char_number, lemma_encode_ascii_char, lemma_encode_concat, lemma_encode_nonempty,
    lemma_encoding_lacks_byte, lemma_first_byte,
};
use crate::html::laws::{
    emitted, has_no_bracket, lemma_trailing_text_is_dropped, lemma_trailing_text_is_flushed,
    unflushed,
};
use crate::html::render::{
    closing_tag, lemma_render_empty_element, lemma_render_trees_concat, lemma_render_trees_push,
    opening_tag, render_doc, render_trees,
};
use crate::html::round_trip::{lemma_render_shell, shell_closing, shell_opening};
use crate::html::runs::{
    after_plain_tag, begins_name, continues_name, is_plain_tag, lemma_nodes_view_of_prefix,
    lemma_plain_tag, lemma_run_of_text, lemma_scan_of_prefix, outside_tag,
};
use crate::html::scan::{
    lemma_scan_wf, scan, Node, Span, GREATER_THAN, LESS_THAN, NEWLINE, SPACE, TAB,
};
use crate::html::tree::TreeView;

verus! {

/// A text run and the name of the tag that follows it.
pub struct Piece {
    pub text: Seq<char>,
    pub name: Seq<char>,
}

/// The character is a line feed, a tab or a space.
pub open spec fn is_space_char(c: char) -> bool {
    c == '\n' || c == '\t' || c == ' '
}

/// A text run of simple markup holds no `<`.
pub open spec fn is_plain_text(text: Seq<char>) -> bool {
    forall|j: int| 0 <= j < text.len() ==> #[trigger] text[j] != '<'
}

/// A tag name of simple markup has at least one character, does not
/// begin with `/`, and holds neither white space nor a bracket.
pub open spec fn is_tag_name(name: Seq<char>) -> bool {
    &&& name.len() > 0
    &&& name[0] != '/'
    &&& forall|j: int|
        0 <= j < name.len() ==> !is_space_char(#[trigger] name[j]) && name[j] != '<' && name[j]
            != '>'
}

/// Every piece has a plain text and a tag name.
pub open spec fn is_simple(pieces: Seq<Piece>) -> bool {
    forall|i: int|
        0 <= i < pieces.len() ==> is_plain_text((#[trigger] pieces[i]).text) && is_tag_name(
            pieces[i].name,
        )
}

/// The piece as input: its text, then its tag.
pub open spec fn piece_markup(piece: Piece) -> Seq<char> {
    piece.text + seq!['<'] + piece.name + seq!['>']
}

/// The pieces as input, one after the other.
pub open spec fn simple_markup(pieces: Seq<Piece>) -> Seq<char>
    decreases pieces.len(),
{
    if pieces.len() == 0 {
        Seq::empty()
    } else {
        simple_markup(pieces.drop_last()) + piece_markup(pieces.last())
    }
}

/// The text run that the scan makes of `text`: `text` itself where no
/// tag stands before it, and `text` behind the `>` of the tag before it
/// where one does.
pub open spec fn run_of(text: Seq<char>, first: bool) -> Seq<char> {
    if first {
        text
    } else {
        seq!['>'] + text
    }
}

/// The text run that the scan emits for a piece.
pub open spec fn piece_run(piece: Piece, first: bool) -> Seq<char> {
    run_of(piece.text, first)
}

/// The trees that the scan emits for a piece: its text run and its
/// element.  A first piece without text gives nothing.
pub open spec fn piece_trees(piece: Piece, first: bool) -> Seq<TreeView> {
    if piece_run(piece, first).len() == 0 {
        Seq::empty()
    } else {
        seq![TreeView::Text(piece_run(piece, first)), element(piece.name, Seq::empty())]
    }
}

/// The trees that the scan emits for the pieces.
pub open spec fn simple_trees(pieces: Seq<Piece>) -> Seq<TreeView>
    decreases pieces.len(),
{
    if pieces.len() == 0 {
        Seq::empty()
    } else {
        simple_trees(pieces.drop_last()) + piece_trees(pieces.last(), pieces.len() == 1)
    }
}

/// What the trees of a piece render to: the text run, then an opening
/// and a closing tag of the name.
pub open spec fn piece_rendering(piece: Piece, first: bool) -> Seq<char> {
    if piece_run(piece, first).len() == 0 {
        Seq::empty()
    } else {
        piece_run(piece, first) + opening_tag(piece.name, Seq::empty()) + closing_tag(piece.name)
    }
}

/// What the trees of the pieces render to.
pub open spec fn simple_rendering(pieces: Seq<Piece>) -> Seq<char>
    decreases pieces.len(),
{
    if pieces.len() == 0 {
        Seq::empty()
    } else {
        simple_rendering(pieces.drop_last()) + piece_rendering(pieces.last(), pieces.len() == 1)
    }
}

/// Plain text is encoded without the byte `<`.
proof fn lemma_plain_text_bytes(text: Seq<char>)
    requires
        is_plain_text(text),
    ensures
        forall|i: int|
            0 <= i < encode_utf8(text).len() ==> #[trigger] encode_utf8(text)[i] != LESS_THAN,
{
    assert forall|j: int| 0 <= j < text.len() implies #[trigger] text[j] as u32 != LESS_THAN by {
        lemma_char_number(text[j], '<');
    }
    lemma_encoding_lacks_byte(text, LESS_THAN);
}

/// The encoding of a tag name begins with a byte that begins a name, and
/// goes on with bytes that continue it.
proof fn lemma_tag_name_bytes(name: Seq<char>)
    requires
        is_tag_name(name),
    ensures
        encode_utf8(name).len() > 0,
        begins_name(encode_utf8(name)[0]),
        forall|i: int|
            0 <= i < encode_utf8(name).len() ==> continues_name(#[trigger] encode_utf8(name)[i]),
{
    assert forall|j: int| 0 <= j < name.len() implies #[trigger] name[j] as u32 != NEWLINE
        && name[j] as u32 != TAB && name[j] as u32 != SPACE && name[j] as u32 != LESS_THAN
        && name[j] as u32 != GREATER_THAN by {
        lemma_char_number(name[j], '\n');
        lemma_char_number(name[j], '\t');
        lemma_char_number(name[j], ' ');
        lemma_char_number(name[j], '<');
        lemma_char_number(name[j], '>');
    }
    lemma_encoding_lacks_byte(name, NEWLINE);
    lemma_encoding_lacks_byte(name, TAB);
    lemma_encoding_lacks_byte(name, SPACE);
    lemma_encoding_lacks_byte(name, LESS_THAN);
    lemma_encoding_lacks_byte(name, GREATER_THAN);
    lemma_first_byte(name);
    lemma_char_number(name[0], '/');
    assert(continues_name(encode_utf8(name)[0]));
}

/// The encoding of a piece: the bytes of its text, `<`, the bytes of its
/// name, `>`.
proof fn lemma_piece_bytes(piece: Piece)
    ensures
        encode_utf8(piece_markup(piece)) == encode_utf8(piece.text) + seq![LESS_THAN]
            + encode_utf8(piece.name) + seq![GREATER_THAN],
{
    lemma_encode_ascii_char('<');
    lemma_encode_ascii_char('>');
    lemma_encode_concat(piece.text, seq!['<']);
    lemma_encode_concat(piece.text + seq!['<'], piece.name);
    lemma_encode_concat(piece.text + seq!['<'] + piece.name, seq!['>']);
}

/// The state in which the scan of simple markup ends: outside a tag,
/// with no text run pending, at the `>` of the last tag; and the trees
/// of the nodes it has emitted.
pub proof fn lemma_scan_simple_markup(pieces: Seq<Piece>)
    requires
        is_simple(pieces),
    ensures
        ({
            let bytes = encode_utf8(simple_markup(pieces));
            let s = scan(bytes, bytes.len() as int);
            &&& outside_tag(s)
            &&& pieces.len() == 0 ==> bytes.len() == 0 && s.text == Span { start: 0, end: 0 }
            &&& pieces.len() > 0 ==> bytes.len() > 0 && bytes.last() == GREATER_THAN && s.text
                == Span { start: bytes.len() - 1, end: bytes.len() - 1 }
            &&& nodes_view(bytes, s.nodes) == simple_trees(pieces)
        }),
    decreases pieces.len(),
{
    let bytes = encode_utf8(simple_markup(pieces));
    if pieces.len() == 0 {
        assert(nodes_view(bytes, scan(bytes, 0).nodes) =~= simple_trees(pieces));
    } else {
        let before = pieces.drop_last();
        let piece = pieces.last();
        let first = pieces.len() == 1;
        assert(is_simple(before)) by {
            assert forall|i: int| 0 <= i < before.len() implies is_plain_text(
                (#[trigger] before[i]).text,
            ) && is_tag_name(before[i].name) by {
                assert(before[i] == pieces[i]);
            }
        }
        lemma_scan_simple_markup(before);

        let head = encode_utf8(simple_markup(before));
        let run = encode_utf8(piece.text);
        let name = encode_utf8(piece.name);
        let more = run + seq![LESS_THAN] + name + seq![GREATER_THAN];
        let n = head.len() as int;
        let less = n + run.len();
        let greater = less + 1 + name.len();
        let s = scan(head, n);

        lemma_piece_bytes(piece);
        lemma_encode_concat(simple_markup(before), piece_markup(piece));
        assert(bytes == head + more);
        assert(bytes.len() == greater + 1);
        lemma_plain_text_bytes(piece.text);
        lemma_tag_name_bytes(piece.name);
        encode_utf8_valid_utf8(simple_markup(before));
        lemma_scan_wf(head, n);

        lemma_scan_of_prefix(bytes, head, n);
        assert forall|i: int| n <= i < less implies #[trigger] bytes[i] != LESS_THAN by {
            assert(bytes[i] == run[i - n]);
        }
        lemma_run_of_text(bytes, n, less);
        assert(is_plain_tag(bytes, less, greater)) by {
            assert(bytes[less] == LESS_THAN);
            assert(bytes[less + 1] == name[0]);
            assert(bytes[greater] == GREATER_THAN);
            assert forall|i: int| less + 1 < i < greater implies continues_name(
                #[trigger] bytes[i],
            ) by {
                assert(bytes[i] == name[i - less - 1]);
            }
        }
        lemma_plain_tag(bytes, less, greater);
        let t = scan(bytes, greater + 1);
        assert(t == after_plain_tag(s, less, greater));

        if piece.text.len() > 0 {
            lemma_encode_nonempty(piece.text);
        }
        let text_node = Node::Text(Span { start: s.text.start, end: less });
        let element_node = Node::Element(Span { start: less + 1, end: greater });
        lemma_nodes_view_of_prefix(head, more, s.nodes);
        assert(bytes.subrange(less + 1, greater) =~= name);
        encode_utf8_decode_utf8(piece.name);
        assert(node_view(bytes, element_node) == element(piece.name, Seq::empty()));
        if first {
            assert(bytes.subrange(0, less) =~= run);
            encode_utf8_decode_utf8(piece.text);
            assert(simple_trees(before) =~= Seq::<TreeView>::empty());
        } else {
            lemma_encode_ascii_char('>');
            lemma_encode_concat(seq!['>'], piece.text);
            assert(bytes.subrange(n - 1, less) =~= seq![GREATER_THAN] + run);
            encode_utf8_decode_utf8(seq!['>'] + piece.text);
        }
        if piece_run(piece, first).len() > 0 {
            assert(node_view(bytes, text_node) == TreeView::Text(piece_run(piece, first)));
            assert(t.nodes == s.nodes.push(text_node).push(element_node));
            assert(nodes_view(bytes, t.nodes) =~= nodes_view(bytes, s.nodes) + piece_trees(
                piece,
                first,
            ));
        } else {
            assert(t.nodes == s.nodes);
            assert(nodes_view(bytes, t.nodes) =~= nodes_view(bytes, s.nodes) + piece_trees(
                piece,
                first,
            ));
        }
    }
}

/// Scanning simple markup gives, for each piece in turn, its text run
/// and an element of its name.  The text run of a later piece begins
/// with the `>` of the tag before it, and a first piece without text
/// gives nothing.
pub proof fn lemma_parse_simple_markup(pieces: Seq<Piece>)
    requires
        is_simple(pieces),
    ensures
        parse(simple_markup(pieces)) == shell(simple_trees(pieces)),
{
    lemma_scan_simple_markup(pieces);
}

/// The trees of the pieces render to the rendering of the pieces.
pub proof fn lemma_render_simple_trees(pieces: Seq<Piece>)
    ensures
        render_trees(simple_trees(pieces)) == simple_rendering(pieces),
    decreases pieces.len(),
{
    if pieces.len() == 0 {
    } else {
        let piece = pieces.last();
        let first = pieces.len() == 1;
        let trees = piece_trees(piece, first);
        lemma_render_simple_trees(pieces.drop_last());
        lemma_render_trees_concat(simple_trees(pieces.drop_last()), trees);
        if piece_run(piece, first).len() > 0 {
            let text_tree = TreeView::Text(piece_run(piece, first));
            let element_tree = element(piece.name, Seq::empty());
            let none = Seq::<TreeView>::empty();
            assert(trees =~= none.push(text_tree).push(element_tree));
            lemma_render_trees_push(none, text_tree);
            lemma_render_trees_push(none.push(text_tree), element_tree);
            lemma_render_empty_element(piece.name);
            assert(render_trees(none) =~= Seq::empty());
            assert(render_trees(trees) =~= piece_rendering(piece, first));
        } else {
            assert(render_trees(trees) =~= piece_rendering(piece, first));
        }
    }
}

/// Scanning simple markup and rendering the result gives back every
/// text run and every tag name of the input, in input order, inside the
/// fixed shell: each text run as it stands (a later one behind the `>`
/// of the tag before it), each name as an opening and a closing tag.
pub proof fn lemma_render_parse_simple_markup(pieces: Seq<Piece>)
    requires
        is_simple(pieces),
    ensures
        render_doc(parse(simple_markup(pieces))) == shell_opening() + simple_rendering(pieces)
            + shell_closing(),
{
    lemma_parse_simple_markup(pieces);
    lemma_render_simple_trees(pieces);
    lemma_render_shell(simple_trees(pieces));
}

/// Text behind simple markup is lost where no `<` follows it.
pub proof fn lemma_parse_simple_markup_and_text(pieces: Seq<Piece>, tail: Seq<char>)
    requires
        is_simple(pieces),
        has_no_bracket(tail),
    ensures
        parse(simple_markup(pieces) + tail) == shell(simple_trees(pieces)),
{
    lemma_trailing_text_is_dropped(simple_markup(pieces), tail);
    lemma_parse_simple_markup(pieces);
}

/// Text behind simple markup is the last text run once a `<` follows
/// it, whatever stands behind that `<` short of a bracket.
pub proof fn lemma_parse_simple_markup_and_open_tag(
    pieces: Seq<Piece>,
    tail: Seq<char>,
    rest: Seq<char>,
)
    requires
        is_simple(pieces),
        has_no_bracket(tail),
        has_no_bracket(rest),
        run_of(tail, pieces.len() == 0).len() > 0,
    ensures
        parse(simple_markup(pieces) + tail + seq!['<'] + rest) == shell(
            simple_trees(pieces).push(TreeView::Text(run_of(tail, pieces.len() == 0))),
        ),
{
    let text = simple_markup(pieces);
    let bytes = encode_utf8(text);
    let n = bytes.len() as int;
    lemma_scan_simple_markup(pieces);
    assert(emitted(text) == simple_trees(pieces));
    if pieces.len() == 0 {
        assert(bytes.subrange(0, 0) =~= Seq::<u8>::empty());
        assert(unflushed(text) =~= Seq::<char>::empty());
        assert(unflushed(text) + tail =~= tail);
    } else {
        lemma_encode_ascii_char('>');
        assert(bytes.subrange(n - 1, n) =~= seq![GREATER_THAN]);
        encode_utf8_decode_utf8(seq!['>']);
        assert(unflushed(text) == seq!['>']);
    }
    lemma_trailing_text_is_flushed(text, tail, rest);
}

} // verus!
