//! The document tree and its mathematical model.
//!
//! The tree borrows every string from the input that was scanned.  Its
//! model holds the same strings as sequences of characters.

use vstd::prelude::*;

verus! {

/// A name with an optional value, both borrowed from the scanned input.
#[derive(Debug)]
pub struct Attribute<'a> {
    pub name: &'a str,
    pub value: Option<&'a str>,
}

/// A node of the document tree.
#[derive(Debug)]
pub enum HtmlTree<'a> {
    /// An element: its name, its attributes and its children, in
    /// document order.
    Tag { name: &'a str, attrs: Vec<Attribute<'a>>, children: Vec<HtmlTree<'a>> },
    /// Raw script text.
    Script(&'a str),
    /// Raw style text.
    Style(&'a str),
    /// Literal character data.
    Text(&'a str),
}

/// A document: an optional doctype and the root of the tree.
#[derive(Debug)]
pub struct HtmlDoc<'a> {
    pub doc_type: Option<&'a str>,
    pub root: HtmlTree<'a>,
}

/// Model of an [`Attribute`].
pub struct AttributeView {
    pub name: Seq<char>,
    pub value: Option<Seq<char>>,
}

/// Model of an [`HtmlTree`].
pub enum TreeView {
    Tag { name: Seq<char>, attrs: Seq<AttributeView>, children: Seq<TreeView> },
    Script(Seq<char>),
    Style(Seq<char>),
    Text(Seq<char>),
}

/// Model of an [`HtmlDoc`].
pub struct DocView {
    pub doc_type: Option<Seq<char>>,
    pub root: TreeView,
}

impl<'a> View for Attribute<'a> {
    type V = AttributeView;

    open spec fn view(&self) -> AttributeView {
        AttributeView {
            name: self.name@,
            value: match self.value {
                Some(value) => Some(value@),
                None => None,
            },
        }
    }
}

/// The models of a sequence of attributes, in order.
pub open spec fn attrs_view(attrs: Seq<Attribute>) -> Seq<AttributeView> {
    Seq::new(attrs.len(), |i: int| attrs[i]@)
}

impl<'a> View for HtmlTree<'a> {
    type V = TreeView;

    open spec fn view(&self) -> TreeView
        decreases self,
    {
        match self {
            HtmlTree::Tag { name, attrs, children } => TreeView::Tag {
                name: name@,
                attrs: attrs_view(attrs@),
                // The models of the children, in order.  The test on `i`
                // is there for the definition to terminate; see
                // `trees_view` and `lemma_tag_view`.
                children: Seq::new(
                    children@.len(),
                    |i: int|
                        if 0 <= i < children@.len() {
                            children@[i]@
                        } else {
                            TreeView::Text(Seq::empty())
                        },
                ),
            },
            HtmlTree::Script(text) => TreeView::Script(text@),
            HtmlTree::Style(text) => TreeView::Style(text@),
            HtmlTree::Text(text) => TreeView::Text(text@),
        }
    }
}

/// The models of a sequence of trees, in order.
pub open spec fn trees_view(trees: Seq<HtmlTree>) -> Seq<TreeView> {
    Seq::new(trees.len(), |i: int| trees[i]@)
}

/// The model of an element is made of the models of its parts.
pub proof fn lemma_tag_view(tree: HtmlTree)
    requires
        tree is Tag,
    ensures
        tree@ == (TreeView::Tag {
            name: tree->name@,
            attrs: attrs_view(tree->attrs@),
            children: trees_view(tree->children@),
        }),
{
    assert(tree@->children =~= trees_view(tree->children@));
}

impl<'a> View for HtmlDoc<'a> {
    type V = DocView;

    open spec fn view(&self) -> DocView {
        DocView {
            doc_type: match self.doc_type {
                Some(value) => Some(value@),
                None => None,
            },
            root: self.root@,
        }
    }
}

impl<'a> Clone for Attribute<'a> {
    fn clone(&self) -> (copy: Self)
        ensures
            copy == *self,
    {
        Attribute { name: self.name, value: self.value }
    }
}

impl<'a> Clone for HtmlTree<'a> {
    fn clone(&self) -> (copy: Self)
        ensures
            copy@ == self@,
        decreases self,
    {
        match self {
            HtmlTree::Tag { name, attrs, children } => {
                let mut new_attrs: Vec<Attribute<'a>> = Vec::new();
                for i in 0..attrs.len()
                    invariant
                        new_attrs@ == attrs@.take(i as int),
                {
                    new_attrs.push(attrs[i].clone());
                    assert(new_attrs@ =~= attrs@.take(i + 1));
                }
                let mut new_children: Vec<HtmlTree<'a>> = Vec::new();
                for i in 0..children.len()
                    invariant
                        self is Tag,
                        self->children == children,
                        new_children@.len() == i,
                        trees_view(new_children@) == trees_view(children@).take(i as int),
                {
                    let ghost before = new_children@;
                    new_children.push(children[i].clone());
                    assert forall|k: int| 0 <= k < i + 1 implies trees_view(new_children@)[k]
                        == trees_view(children@)[k] by {
                        if k < i {
                            assert(new_children@[k] == before[k]);
                            assert(trees_view(before)[k] == trees_view(children@).take(
                                i as int,
                            )[k]);
                        }
                    }
                    assert(trees_view(new_children@) =~= trees_view(children@).take(i + 1));
                }
                let copy = HtmlTree::Tag { name: *name, attrs: new_attrs, children: new_children };
                proof {
                    lemma_tag_view(copy);
                    lemma_tag_view(*self);
                    assert(attrs@.take(attrs.len() as int) =~= attrs@);
                    assert(trees_view(children@).take(children.len() as int) =~= trees_view(
                        children@,
                    ));
                }
                copy
            },
            HtmlTree::Script(text) => HtmlTree::Script(*text),
            HtmlTree::Style(text) => HtmlTree::Style(*text),
            HtmlTree::Text(text) => HtmlTree::Text(*text),
        }
    }
}

impl<'a> Clone for HtmlDoc<'a> {
    fn clone(&self) -> (copy: Self)
        ensures
            copy@ == self@,
    {
        HtmlDoc { doc_type: self.doc_type, root: self.root.clone() }
    }
}

} // verus!
