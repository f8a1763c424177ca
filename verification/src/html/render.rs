//! Rendering a document tree back to markup.

use vstd::prelude::*;
use vstd::string::StringExecFns;
use crate::html::tree::{
    attrs_view, lemma_tag_view, trees_view, Attribute, AttributeView, DocView, HtmlDoc, HtmlTree,
    TreeView,
};

verus! {

/// An attribute in markup: a space, the name and, if there is a value,
/// `=` and the value.
pub open spec fn render_attr(attr: AttributeView) -> Seq<char> {
    seq![' '] + attr.name + match attr.value {
        Some(value) => seq!['='] + value,
        None => Seq::empty(),
    }
}

/// The attributes in markup, one after the other.
pub open spec fn render_attrs(attrs: Seq<AttributeView>) -> Seq<char>
    decreases attrs.len(),
{
    if attrs.len() == 0 {
        Seq::empty()
    } else {
        render_attrs(attrs.drop_last()) + render_attr(attrs.last())
    }
}

/// An opening tag: `<`, the name, the attributes, `>`.
pub open spec fn opening_tag(name: Seq<char>, attrs: Seq<AttributeView>) -> Seq<char> {
    seq!['<'] + name + render_attrs(attrs) + seq!['>']
}

/// A closing tag: `</`, the name, `>`.
pub open spec fn closing_tag(name: Seq<char>) -> Seq<char> {
    seq!['<', '/'] + name + seq!['>']
}

/// A tree in markup.  An element is its opening tag, its children and
/// its closing tag; a text node is its text as it stands; the two
/// raw-text nodes render nothing.
pub open spec fn render_tree(tree: TreeView) -> Seq<char>
    decreases tree,
{
    match tree {
        TreeView::Tag { name, attrs, children } => opening_tag(name, attrs) + render_trees(
            children,
        ) + closing_tag(name),
        TreeView::Text(text) => text,
        TreeView::Script(_) => Seq::empty(),
        TreeView::Style(_) => Seq::empty(),
    }
}

/// The trees in markup, one after the other.
pub open spec fn render_trees(trees: Seq<TreeView>) -> Seq<char>
    decreases trees,
{
    if trees.len() == 0 {
        Seq::empty()
    } else {
        render_trees(trees.drop_last()) + render_tree(trees.last())
    }
}

/// The doctype line, or nothing where the document has no doctype.
pub open spec fn render_doc_type(doc_type: Option<Seq<char>>) -> Seq<char> {
    match doc_type {
        Some(value) => seq!['<', '!', 'D', 'O', 'C', 'T', 'Y', 'P', 'E', ' '] + value + seq!['>'],
        None => Seq::empty(),
    }
}

/// A document in markup: the doctype line, then the tree.
pub open spec fn render_doc(doc: DocView) -> Seq<char> {
    render_doc_type(doc.doc_type) + render_tree(doc.root)
}

/// Rendering one more attribute appends it to what was rendered.
pub proof fn lemma_render_attrs_push(attrs: Seq<AttributeView>, attr: AttributeView)
    ensures
        render_attrs(attrs.push(attr)) == render_attrs(attrs) + render_attr(attr),
{
    assert(attrs.push(attr).drop_last() =~= attrs);
}

/// Rendering one more tree appends it to what was rendered.
pub proof fn lemma_render_trees_push(trees: Seq<TreeView>, tree: TreeView)
    ensures
        render_trees(trees.push(tree)) == render_trees(trees) + render_tree(tree),
{
    assert(trees.push(tree).drop_last() =~= trees);
}

/// An element without attributes and children renders to its opening
/// and its closing tag.
pub proof fn lemma_render_empty_element(name: Seq<char>)
    ensures
        render_tree(
            TreeView::Tag { name: name, attrs: Seq::empty(), children: Seq::empty() },
        ) == opening_tag(name, Seq::empty()) + closing_tag(name),
{
    assert(render_trees(Seq::empty()) =~= Seq::empty());
    assert(opening_tag(name, Seq::empty()) + Seq::empty() + closing_tag(name) =~= opening_tag(
        name,
        Seq::empty(),
    ) + closing_tag(name));
}

/// Rendering trees put together gives the renderings put together.
pub proof fn lemma_render_trees_concat(a: Seq<TreeView>, b: Seq<TreeView>)
    ensures
        render_trees(a + b) == render_trees(a) + render_trees(b),
    decreases b.len(),
{
    if b.len() == 0 {
        assert(a + b =~= a);
        assert(render_trees(a) + render_trees(b) =~= render_trees(a));
    } else {
        lemma_render_trees_concat(a, b.drop_last());
        assert((a + b).drop_last() =~= a + b.drop_last());
        assert((a + b).last() == b.last());
        assert(render_trees(a + b) =~= render_trees(a) + render_trees(b));
    }
}

/// Appends the attribute in markup to `out`.
fn render_attr_into(attr: &Attribute<'_>, out: &mut String)
    ensures
        final(out)@ == old(out)@ + render_attr(attr@),
{
    proof {
        reveal_strlit(" ");
        reveal_strlit("=");
    }
    out.append(" ");
    out.append(attr.name);
    if let Some(value) = attr.value {
        out.append("=");
        out.append(value);
    }
    assert(out@ =~= old(out)@ + render_attr(attr@));
}

/// Appends the tree in markup to `out`.
fn render_into(tree: &HtmlTree<'_>, out: &mut String)
    ensures
        final(out)@ == old(out)@ + render_tree(tree@),
    decreases tree,
{
    match tree {
        HtmlTree::Tag { name, attrs, children } => {
            let ghost start = out@;
            let ghost open = seq!['<'] + name@;
            let ghost close = closing_tag(name@);
            proof {
                reveal_strlit("<");
                reveal_strlit(">");
                reveal_strlit("</");
                lemma_tag_view(*tree);
            }
            out.append("<");
            out.append(name);
            assert(out@ =~= start + open + render_attrs(attrs_view(attrs@).take(0)));
            for i in 0..attrs.len()
                invariant
                    out@ == start + open + render_attrs(attrs_view(attrs@).take(i as int)),
            {
                let ghost done = attrs_view(attrs@).take(i as int);
                render_attr_into(&attrs[i], out);
                proof {
                    lemma_render_attrs_push(done, attrs[i as int]@);
                    assert(attrs_view(attrs@).take(i + 1) =~= done.push(attrs[i as int]@));
                    assert(out@ =~= start + open + render_attrs(attrs_view(attrs@).take(i + 1)));
                }
            }
            assert(attrs_view(attrs@).take(attrs.len() as int) =~= attrs_view(attrs@));
            out.append(">");
            let ghost head = open + render_attrs(attrs_view(attrs@)) + seq!['>'];
            assert(out@ =~= start + head + render_trees(trees_view(children@).take(0)));
            for i in 0..children.len()
                invariant
                    tree is Tag,
                    tree->children == children,
                    out@ == start + head + render_trees(trees_view(children@).take(i as int)),
            {
                let ghost done = trees_view(children@).take(i as int);
                render_into(&children[i], out);
                proof {
                    lemma_render_trees_push(done, children[i as int]@);
                    assert(trees_view(children@).take(i + 1) =~= done.push(children[i as int]@));
                    assert(out@ =~= start + head + render_trees(
                        trees_view(children@).take(i + 1),
                    ));
                }
            }
            assert(trees_view(children@).take(children.len() as int) =~= trees_view(children@));
            let ghost inner = start + head + render_trees(trees_view(children@));
            out.append("</");
            out.append(name);
            out.append(">");
            assert(out@ =~= inner + close);
            assert(head =~= opening_tag(name@, attrs_view(attrs@)));
            assert(out@ =~= start + render_tree(tree@));
        },
        HtmlTree::Text(text) => {
            out.append(text);
        },
        HtmlTree::Script(_) => {},
        HtmlTree::Style(_) => {},
    }
}

impl HtmlDoc<'_> {
    /// The document as markup, without any escaping.
    pub fn fixed_format(&self) -> (markup: String)
        ensures
            markup@ == render_doc(self@),
    {
        let mut sb = String::new();
        if let Some(v) = self.doc_type {
            proof {
                reveal_strlit("<!DOCTYPE ");
                reveal_strlit(">");
            }
            sb.append("<!DOCTYPE ");
            sb.append(v);
            sb.append(">");
            assert(sb@ =~= render_doc_type(self@.doc_type));
        }
        render_into(&self.root, &mut sb);

        sb
    }
}

} // verus!
