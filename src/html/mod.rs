//! A parsed document and references to its nodes.
//!
//! A reference points either at a node of the document's tree (as an element
//! or as a text node) or holds a phantom text that lives outside the tree.
//! Only element and text nodes are visible through references: walks skip
//! the document, doctype, comment and processing-instruction nodes.
pub mod dom;
pub mod sink;

use vstd::prelude::*;
use crate::chars::{chars_of, eq_case};
use crate::tree::{ChildrenTraverse, Node, NodeID, PreOrderTraverse, Tree, PHANTOM_ID};
use self::dom::{id_of, lookup, class_of, opt_ref_view, DomNode, QualName, Text};

verus! {

/// The parser's compatibility mode for the document.
#[derive(Debug, Clone, Copy, PartialEq, Eq, Structural)]
pub enum QuirksMode {
    Quirks,
    LimitedQuirks,
    NoQuirks,
}

/// A document: its tree, its compatibility mode and the parse errors reported
/// while it was built.
pub struct Html {
    nodes: Tree<DomNode>,
    quirks_mode: QuirksMode,
    errors: Vec<String>,
}

impl Html {
    pub closed spec fn doc(&self) -> Tree<DomNode> {
        self.nodes
    }

    pub closed spec fn wf(&self) -> bool {
        self.nodes.wf()
    }

    pub closed spec fn quirks(&self) -> QuirksMode {
        self.quirks_mode
    }

    pub closed spec fn error_list(&self) -> Seq<Seq<char>> {
        self.errors@.map_values(|e: String| e@)
    }

    /// An empty document: only its root.
    pub fn new_document() -> (r: Self)
        ensures
            r.wf(),
            r.doc()@.data == seq![DomNode::Document],
            r.doc()@.kids == seq![Seq::<nat>::empty()],
            r.quirks() == QuirksMode::NoQuirks,
            r.error_list() == Seq::<Seq<char>>::empty(),
    {
        let r = Html { nodes: Tree::new(DomNode::Document), quirks_mode: QuirksMode::NoQuirks, errors: Vec::new() };
        proof {
            assert(r.error_list() =~= Seq::<Seq<char>>::empty());
        }
        r
    }

    /// An empty fragment: only its root.
    pub fn new_fragment() -> (r: Self)
        ensures
            r.wf(),
            r.doc()@.data == seq![DomNode::Fragment],
            r.doc()@.kids == seq![Seq::<nat>::empty()],
            r.quirks() == QuirksMode::NoQuirks,
            r.error_list() == Seq::<Seq<char>>::empty(),
    {
        let r = Html { nodes: Tree::new(DomNode::Fragment), quirks_mode: QuirksMode::NoQuirks, errors: Vec::new() };
        proof {
            assert(r.error_list() =~= Seq::<Seq<char>>::empty());
        }
        r
    }

    pub fn tree(&self) -> (r: &Tree<DomNode>)
        ensures
            *r == self.doc(),
    {
        &self.nodes
    }

    pub fn quirks_mode(&self) -> (r: QuirksMode)
        ensures
            r == self.quirks(),
    {
        self.quirks_mode
    }

    pub fn errors(&self) -> (r: &Vec<String>)
        ensures
            r@.map_values(|e: String| e@) == self.error_list(),
    {
        &self.errors
    }

    /// Every payload of the document in pre-order from the root.
    pub fn traverse_all(&self) -> (r: Vec<&DomNode>)
        requires
            self.wf(),
        ensures
            r@.len() == self.doc().preorder(0).len(),
            forall|i: int| 0 <= i < r@.len() ==> *#[trigger] r@[i] == self.doc()@.data[self.doc().preorder(0)[i] as int],
    {
        proof {
            self.nodes.lemma_nonempty();
        }
        let root = self.nodes.node_ref(NodeID(0)).unwrap();
        let mut it = PreOrderTraverse::new(&self.nodes, root);
        let ghost full = it.rest();
        let mut out: Vec<&DomNode> = Vec::new();
        loop
            invariant
                it.inv(),
                self.nodes.wf(),
                it.tree_of() == &self.nodes,
                full == self.nodes.preorder(0),
                out@.len() + it.rest().len() == full.len(),
                it.rest() == full.subrange(out@.len() as int, full.len() as int),
                forall|i: int| 0 <= i < out@.len() ==> *#[trigger] out@[i] == self.nodes@.data[full[i] as int],
            ensures
                out@.len() == full.len(),
                forall|i: int| 0 <= i < out@.len() ==> *#[trigger] out@[i] == self.nodes@.data[full[i] as int],
            decreases it.rest().len(),
        {
            let ghost rest = it.rest();
            match it.next() {
                None => {
                    break;
                },
                Some((n, _)) => {
                    proof {
                        self.nodes.lemma_data(rest[0]);
                        assert(full[out@.len() as int] == rest[0]);
                    }
                    out.push(&n.data);
                    proof {
                        assert(it.rest() =~= full.subrange(out@.len() as int, full.len() as int));
                    }
                },
            }
        }
        out
    }

    /// The root, taken as an element reference.
    pub fn root(&self) -> (r: ElementOrTextRef<'_>)
        requires
            self.wf(),
        ensures
            r.view() == RefModel::Element(0),
            r.wf_in(self.doc()),
    {
        proof {
            self.nodes.lemma_nonempty();
        }
        let node = self.nodes.node_ref(NodeID(0)).unwrap();
        proof {
            self.nodes.lemma_data(0);
        }
        ElementOrTextRef::Element(ElementRef { tree: &self.nodes, node })
    }
}

/// The text a payload carries: its content for a text node, nothing otherwise.
pub open spec fn text_of_data(d: DomNode) -> Seq<char> {
    match d {
        DomNode::Text(t) => t.text@,
        _ => Seq::empty(),
    }
}

/// What a reference stands for.
pub enum RefModel {
    Element(nat),
    Text(nat),
    Phantom(Seq<char>),
}

/// The reference to tree node `x`, if the node is visible.
pub open spec fn ref_of(doc: Tree<DomNode>, x: nat) -> Seq<RefModel> {
    match doc@.data[x as int] {
        DomNode::Element(_) => seq![RefModel::Element(x)],
        DomNode::Text(_) => seq![RefModel::Text(x)],
        _ => seq![],
    }
}

/// References to the visible nodes among `ids`, in order.
pub open spec fn refs_of(doc: Tree<DomNode>, ids: Seq<nat>) -> Seq<RefModel>
    decreases ids.len(),
{
    if ids.len() == 0 {
        seq![]
    } else {
        ref_of(doc, ids[0]) + refs_of(doc, ids.drop_first())
    }
}

/// The concatenated content of the text nodes among `ids`, in order.
pub open spec fn texts_of(doc: Tree<DomNode>, ids: Seq<nat>) -> Seq<char>
    decreases ids.len(),
{
    if ids.len() == 0 {
        seq![]
    } else {
        text_of_data(doc@.data[ids[0] as int]) + texts_of(doc, ids.drop_first())
    }
}

/// The subtree of a reference in pre-order; a phantom is its own subtree.
pub open spec fn subtree_of(doc: Tree<DomNode>, r: RefModel) -> Seq<RefModel> {
    match r {
        RefModel::Element(x) => refs_of(doc, doc.preorder(x)),
        RefModel::Text(x) => refs_of(doc, doc.preorder(x)),
        RefModel::Phantom(_) => seq![r],
    }
}

/// The visible children of a reference; a phantom has none.
pub open spec fn children_refs(doc: Tree<DomNode>, r: RefModel, reversed: bool) -> Seq<RefModel> {
    match r {
        RefModel::Element(x) => refs_of(
            doc,
            if reversed {
                doc.children_of(x).reverse()
            } else {
                doc.children_of(x)
            },
        ),
        RefModel::Text(x) => refs_of(
            doc,
            if reversed {
                doc.children_of(x).reverse()
            } else {
                doc.children_of(x)
            },
        ),
        RefModel::Phantom(_) => seq![],
    }
}

/// The element payload behind a reference, if it has one.
pub open spec fn element_at(doc: Tree<DomNode>, r: RefModel) -> Option<dom::Element> {
    match r {
        RefModel::Element(x) => match doc@.data[x as int] {
            DomNode::Element(e) => Some(e),
            _ => None,
        },
        _ => None,
    }
}

/// The text of a reference: all text below an element, the content of a
/// text node, the phantom's own text.
pub open spec fn ref_text(doc: Tree<DomNode>, r: RefModel) -> Seq<char> {
    match r {
        RefModel::Element(x) => texts_of(doc, doc.preorder(x)),
        RefModel::Text(x) => text_of_data(doc@.data[x as int]),
        RefModel::Phantom(s) => s,
    }
}

proof fn lemma_refs_of_concat(doc: Tree<DomNode>, a: Seq<nat>, b: Seq<nat>)
    ensures
        refs_of(doc, a + b) == refs_of(doc, a) + refs_of(doc, b),
    decreases a.len(),
{
    if a.len() == 0 {
        assert(a + b =~= b);
        assert(refs_of(doc, a) + refs_of(doc, b) =~= refs_of(doc, b));
    } else {
        assert((a + b).drop_first() =~= a.drop_first() + b);
        assert((a + b)[0] == a[0]);
        lemma_refs_of_concat(doc, a.drop_first(), b);
        assert(ref_of(doc, a[0]) + (refs_of(doc, a.drop_first()) + refs_of(doc, b)) =~= (ref_of(doc, a[0])
            + refs_of(doc, a.drop_first())) + refs_of(doc, b));
    }
}

proof fn lemma_refs_of_reverse(doc: Tree<DomNode>, ks: Seq<nat>)
    ensures
        refs_of(doc, ks.reverse()) == refs_of(doc, ks).reverse(),
    decreases ks.len(),
{
    if ks.len() == 0 {
        assert(ks.reverse() =~= Seq::<nat>::empty());
        assert(refs_of(doc, ks).reverse() =~= Seq::<RefModel>::empty());
    } else {
        let x = ks.last();
        let init = ks.drop_last();
        assert(ks =~= init + seq![x]);
        assert(ks.reverse() =~= seq![x] + init.reverse());
        lemma_refs_of_reverse(doc, init);
        lemma_refs_of_concat(doc, seq![x], init.reverse());
        lemma_refs_of_concat(doc, init, seq![x]);
        assert(seq![x].drop_first() =~= Seq::<nat>::empty());
        assert(seq![x][0] == x);
        assert(refs_of(doc, Seq::<nat>::empty()) =~= Seq::<RefModel>::empty());
        let one = ref_of(doc, x);
        assert(refs_of(doc, seq![x]) =~= one);
        let a = refs_of(doc, init);
        assert(one.reverse() =~= one);
        assert((a + one).reverse() =~= one.reverse() + a.reverse());
    }
}

/// Walking the children of a reference backwards gives the forward walk
/// reversed.
pub proof fn lemma_children_both_directions(doc: Tree<DomNode>, r: RefModel)
    ensures
        children_refs(doc, r, true) == children_refs(doc, r, false).reverse(),
{
    match r {
        RefModel::Element(x) => lemma_refs_of_reverse(doc, doc.children_of(x)),
        RefModel::Text(x) => lemma_refs_of_reverse(doc, doc.children_of(x)),
        RefModel::Phantom(_) => {
            assert(Seq::<RefModel>::empty().reverse() =~= Seq::<RefModel>::empty());
        },
    }
}

/// `k=v ` for each attribute, in order.
pub open spec fn attrs_sketch(attrs: Seq<dom::Attribute>) -> Seq<char>
    decreases attrs.len(),
{
    if attrs.len() == 0 {
        seq![]
    } else {
        attrs_sketch(attrs.drop_last()) + attrs.last().name.local@ + seq!['='] + attrs.last().value@ + seq![' ']
    }
}

/// How a payload is printed: an element as a sketch of its opening tag,
/// text as its content, the document root as `Document`.
pub open spec fn sketch(d: DomNode) -> Seq<char> {
    match d {
        DomNode::Element(e) => seq!['<'] + e.name.local@ + seq![' '] + attrs_sketch(e.attrs@) + seq!['>'],
        DomNode::Text(t) => t.text@,
        DomNode::Document => "Document"@,
        DomNode::Fragment => "Fragment"@,
        _ => seq![],
    }
}

fn push_sketch(out: &mut String, d: &DomNode)
    ensures
        final(out)@ == old(out)@ + sketch(*d),
{
    match d {
        DomNode::Element(e) => {
            proof {
                reveal_strlit("<");
                reveal_strlit(" ");
                reveal_strlit("=");
                reveal_strlit(">");
            }
            let ghost start = out@;
            out.append("<");
            out.append(e.name.local.as_str());
            out.append(" ");
            let ghost head = out@;
            let mut i: usize = 0;
            proof {
                assert(e.attrs@.subrange(0, 0) =~= Seq::<dom::Attribute>::empty());
                assert(out@ =~= head + attrs_sketch(e.attrs@.subrange(0, 0)));
            }
            while i < e.attrs.len()
                invariant
                    0 <= i <= e.attrs@.len(),
                    out@ == head + attrs_sketch(e.attrs@.subrange(0, i as int)),
                decreases e.attrs@.len() - i,
            {
                let a = &e.attrs[i];
                out.append(a.name.local.as_str());
                out.append("=");
                out.append(a.value.as_str());
                out.append(" ");
                proof {
                    reveal_strlit(" ");
                    reveal_strlit("=");
                    let next = e.attrs@.subrange(0, i + 1);
                    assert(next.drop_last() =~= e.attrs@.subrange(0, i as int));
                    assert(next.last() == *a);
                }
                i = i + 1;
                proof {
                    assert(out@ =~= head + attrs_sketch(e.attrs@.subrange(0, i as int)));
                }
            }
            out.append(">");
            proof {
                assert(e.attrs@.subrange(0, e.attrs@.len() as int) =~= e.attrs@);
                assert(out@ =~= start + sketch(*d));
            }
        },
        DomNode::Text(t) => {
            out.append(t.text.as_str());
        },
        DomNode::Document => {
            out.append("Document");
        },
        DomNode::Fragment => {
            out.append("Fragment");
        },
        _ => {
            assert(old(out)@ + sketch(*d) =~= old(out)@);
        },
    }
}

/// A node of the tree, taken as an element.
pub struct ElementRef<'a> {
    pub tree: &'a Tree<DomNode>,
    pub node: &'a Node<DomNode>,
}

/// A text node of the tree.
pub struct TextRef<'a> {
    pub tree: &'a Tree<DomNode>,
    pub node: &'a Node<DomNode>,
}

/// A text that belongs to no tree.
pub struct PhantomTextRef {
    pub text: Node<DomNode>,
}

/// An element, a text node, or a phantom text.
pub enum ElementOrTextRef<'a> {
    Element(ElementRef<'a>),
    Text(TextRef<'a>),
    PhantomText(PhantomTextRef),
}

/// `node` is node `node.id` of `doc`, and `doc` is well formed.
pub open spec fn in_doc(tree: Tree<DomNode>, node: Node<DomNode>, doc: Tree<DomNode>) -> bool {
    &&& tree == doc
    &&& doc.wf()
    &&& node.id.0 < doc@.len()
    &&& node == doc.node_at(node.id.0 as nat)
}

impl<'a> ElementRef<'a> {
    pub open spec fn wf_in(&self, doc: Tree<DomNode>) -> bool {
        in_doc(*self.tree, *self.node, doc)
    }

    pub open spec fn element(&self) -> Option<dom::Element> {
        match self.node.data {
            DomNode::Element(e) => Some(e),
            _ => None,
        }
    }

    /// The element's name; `None` when the node holds no element.
    pub fn expanded_name(&self) -> (r: Option<&QualName>)
        ensures
            r matches Some(n) ==> self.element() matches Some(e) && *n == e.name,
            r is None <==> self.element() is None,
    {
        match self.node.data.as_element() {
            Some(e) => Some(e.expanded_name()),
            None => None,
        }
    }

    /// Value of the first attribute called `name`.
    pub fn get_attr(&self, name: &QualName) -> (r: Option<&String>)
        ensures
            opt_ref_view(r) == (match self.element() {
                Some(e) => lookup(e.attrs@, *name),
                None => None,
            }),
    {
        match self.node.data.as_element() {
            Some(e) => e.get_attrs(name),
            None => None,
        }
    }

    pub fn has_class(&self, class: &str, case_sensitive: bool) -> (r: bool)
        ensures
            r == (self.element() matches Some(e) && class_of(e.attrs@, class@, case_sensitive)),
    {
        match self.node.data.as_element() {
            Some(e) => e.has_class(class, case_sensitive),
            None => false,
        }
    }

    /// Whether the element's id equals `id`, exactly or up to ASCII case.
    pub fn has_id(&self, id: &str, case_sensitive: bool) -> (r: bool)
        ensures
            r == (self.element() matches Some(e) && id_of(e.attrs@) matches Some(v) && eq_case(
                v,
                id@,
                case_sensitive,
            )),
    {
        match self.node.data.as_element() {
            Some(e) => match e.id() {
                Some(v) => {
                    let a = chars_of(v.as_str());
                    let b = chars_of(id);
                    crate::chars::eq_with_case(&a, &b, case_sensitive)
                },
                None => false,
            },
            None => false,
        }
    }

    /// The content of all text nodes of the subtree, in document order.
    pub fn text(&self) -> (r: String)
        requires
            self.wf_in(*self.tree),
        ensures
            r@ == texts_of(*self.tree, self.tree.preorder(self.node.id.0 as nat)),
    {
        let mut it = PreOrderTraverse::new(self.tree, self.node);
        let mut out = String::new();
        let ghost doc = *self.tree;
        let ghost full = it.rest();
        proof {
            assert(out@ =~= Seq::<char>::empty());
        }
        loop
            invariant
                it.inv(),
                doc.wf(),
                *it.tree_of() == doc,
                out@ + texts_of(doc, it.rest()) == texts_of(doc, full),
            ensures
                out@ == texts_of(doc, full),
            decreases it.rest().len(),
        {
            let ghost rest = it.rest();
            match it.next() {
                None => {
                    proof {
                        assert(out@ + Seq::<char>::empty() =~= out@);
                    }
                    break;
                },
                Some((n, _)) => {
                    proof {
                        doc.lemma_data(rest[0]);
                    }
                    match &n.data {
                        DomNode::Text(t) => {
                            out.append(t.text.as_str());
                        },
                        _ => {},
                    }
                    proof {
                        assert(out@ + texts_of(doc, it.rest()) =~= texts_of(doc, full));
                    }
                },
            }
        }
        out
    }

    /// The visible children, first to last or last to first.
    pub fn children(self, reversed: bool) -> (r: Vec<ElementOrTextRef<'a>>)
        requires
            self.wf_in(*self.tree),
        ensures
            views(r@) == children_refs(*self.tree, RefModel::Element(self.node.id.0 as nat), reversed),
            forall|i: int| 0 <= i < r@.len() ==> #[trigger] r@[i].wf_in(*self.tree),
    {
        collect_children(self.tree, self.node, reversed)
    }
}

impl<'a> TextRef<'a> {
    pub open spec fn wf_in(&self, doc: Tree<DomNode>) -> bool {
        &&& in_doc(*self.tree, *self.node, doc)
        &&& self.node.data is Text
    }

    pub fn text(&self) -> (r: &Text)
        requires
            self.node.data is Text,
        ensures
            self.node.data == DomNode::Text(*r),
    {
        match &self.node.data {
            DomNode::Text(t) => t,
            _ => vstd::pervasive::unreached(),
        }
    }
}

impl PhantomTextRef {
    pub open spec fn wf(&self) -> bool {
        &&& self.text.data is Text
        &&& self.text.id == NodeID(PHANTOM_ID)
    }

    pub open spec fn content(&self) -> Seq<char> {
        text_of_data(self.text.data)
    }

    pub fn new(text: Text) -> (r: Self)
        ensures
            r.wf(),
            r.content() == text.text@,
    {
        PhantomTextRef { text: Node::phantom(DomNode::Text(text)) }
    }

    pub fn new_with_txt(txt: String) -> (r: Self)
        ensures
            r.wf(),
            r.content() == txt@,
    {
        PhantomTextRef { text: Node::phantom(DomNode::Text(Text::new(txt))) }
    }

    /// A phantom holding the text that `f` makes.
    pub fn new_with<F: FnOnce() -> Text>(f: F) -> (r: Self)
        requires
            f.requires(()),
        ensures
            r.wf(),
            exists|t: Text| f.ensures((), t) && r.content() == t.text@,
    {
        let t = f();
        let ghost tv = t;
        let r = PhantomTextRef { text: Node::phantom(DomNode::Text(t)) };
        proof {
            assert(f.ensures((), tv) && r.content() == tv.text@);
        }
        r
    }

    pub fn text(&self) -> (r: &Text)
        requires
            self.wf(),
        ensures
            r.text@ == self.content(),
            self.text.data == DomNode::Text(*r),
    {
        match &self.text.data {
            DomNode::Text(t) => t,
            _ => vstd::pervasive::unreached(),
        }
    }
}

/// What each reference of `v` stands for.
pub open spec fn views<'a>(v: Seq<ElementOrTextRef<'a>>) -> Seq<RefModel> {
    v.map_values(|r: ElementOrTextRef<'a>| r.view())
}

impl<'a> ElementOrTextRef<'a> {
    pub open spec fn view(&self) -> RefModel {
        match self {
            ElementOrTextRef::Element(e) => RefModel::Element(e.node.id.0 as nat),
            ElementOrTextRef::Text(t) => RefModel::Text(t.node.id.0 as nat),
            ElementOrTextRef::PhantomText(p) => RefModel::Phantom(p.content()),
        }
    }

    /// The reference points into `doc`, or is a well-formed phantom.
    pub open spec fn wf_in(&self, doc: Tree<DomNode>) -> bool {
        match self {
            ElementOrTextRef::Element(e) => e.wf_in(doc),
            ElementOrTextRef::Text(t) => t.wf_in(doc),
            ElementOrTextRef::PhantomText(p) => p.wf(),
        }
    }

    /// How the reference is printed: the sketch of its node's payload, or the
    /// phantom's text.
    pub open spec fn rendered(&self) -> Seq<char> {
        match self {
            ElementOrTextRef::Element(e) => sketch(e.node.data),
            ElementOrTextRef::Text(t) => sketch(t.node.data),
            ElementOrTextRef::PhantomText(p) => p.content(),
        }
    }

    pub fn render(&self) -> (r: String)
        ensures
            r@ == self.rendered(),
    {
        let mut out = String::new();
        proof {
            assert(out@ =~= Seq::<char>::empty());
        }
        match self {
            ElementOrTextRef::Element(e) => push_sketch(&mut out, &e.node.data),
            ElementOrTextRef::Text(t) => push_sketch(&mut out, &t.node.data),
            ElementOrTextRef::PhantomText(p) => match &p.text.data {
                DomNode::Text(t) => out.append(t.text.as_str()),
                _ => {},
            },
        }
        proof {
            assert(out@ =~= self.rendered());
        }
        out
    }

    /// Another reference to the same thing.
    pub fn duplicate(&self) -> (r: Self)
        ensures
            r.view() == self.view(),
            forall|doc: Tree<DomNode>| self.wf_in(doc) ==> #[trigger] r.wf_in(doc),
    {
        match self {
            ElementOrTextRef::Element(e) => ElementOrTextRef::Element(ElementRef { tree: e.tree, node: e.node }),
            ElementOrTextRef::Text(t) => ElementOrTextRef::Text(TextRef { tree: t.tree, node: t.node }),
            ElementOrTextRef::PhantomText(p) => {
                let txt = match &p.text.data {
                    DomNode::Text(t) => t.text.clone(),
                    _ => String::new(),
                };
                ElementOrTextRef::PhantomText(PhantomTextRef::new_with_txt(txt))
            },
        }
    }

    /// The text of a text node or phantom; `None` for an element.
    pub fn own_text(&self, doc: &Tree<DomNode>) -> (r: Option<&String>)
        requires
            self.wf_in(*doc),
        ensures
            r is None <==> self.view() is Element,
            r matches Some(s) ==> s@ == ref_text(*doc, self.view()),
    {
        match self {
            ElementOrTextRef::Element(_) => None,
            ElementOrTextRef::Text(t) => {
                proof {
                    doc.lemma_data(t.node.id.0 as nat);
                }
                Some(&t.text().text)
            },
            ElementOrTextRef::PhantomText(p) => Some(&p.text().text),
        }
    }

    pub fn new_phantom_from_text(text: Text) -> (r: Self)
        ensures
            r.view() == RefModel::Phantom(text.text@),
            r is PhantomText,
            forall|doc: Tree<DomNode>| #[trigger] r.wf_in(doc),
    {
        ElementOrTextRef::PhantomText(PhantomTextRef::new(text))
    }

    pub fn new_phantom_from_txt(txt: String) -> (r: Self)
        ensures
            r.view() == RefModel::Phantom(txt@),
            r is PhantomText,
            forall|doc: Tree<DomNode>| #[trigger] r.wf_in(doc),
    {
        ElementOrTextRef::PhantomText(PhantomTextRef::new_with_txt(txt))
    }

    pub fn node(&self) -> (r: &Node<DomNode>)
        ensures
            r == (match self {
                ElementOrTextRef::Element(e) => e.node,
                ElementOrTextRef::Text(t) => t.node,
                ElementOrTextRef::PhantomText(p) => &p.text,
            }),
    {
        match self {
            ElementOrTextRef::Element(e) => e.node,
            ElementOrTextRef::Text(t) => t.node,
            ElementOrTextRef::PhantomText(t) => &t.text,
        }
    }

    /// The subtree in pre-order, visible nodes only; a phantom yields itself.
    pub fn traverse_subtree(self, doc: &Tree<DomNode>) -> (r: Vec<ElementOrTextRef<'a>>)
        requires
            self.wf_in(*doc),
        ensures
            views(r@) == subtree_of(*doc, self.view()),
            forall|i: int| 0 <= i < r@.len() ==> #[trigger] r@[i].wf_in(*doc),
    {
        match self {
            ElementOrTextRef::Element(e) => collect_subtree(e.tree, e.node),
            ElementOrTextRef::Text(t) => collect_subtree(t.tree, t.node),
            ElementOrTextRef::PhantomText(p) => {
                let ghost v = self.view();
                let mut out: Vec<ElementOrTextRef<'a>> = Vec::new();
                out.push(ElementOrTextRef::PhantomText(p));
                proof {
                    assert(views(out@) =~= seq![v]);
                }
                out
            },
        }
    }

    /// The visible children, first to last or last to first; a phantom has none.
    pub fn traverse_children(self, doc: &Tree<DomNode>, reversed: bool) -> (r: Vec<ElementOrTextRef<'a>>)
        requires
            self.wf_in(*doc),
        ensures
            views(r@) == children_refs(*doc, self.view(), reversed),
            forall|i: int| 0 <= i < r@.len() ==> #[trigger] r@[i].wf_in(*doc),
    {
        match self {
            ElementOrTextRef::Element(e) => collect_children(e.tree, e.node, reversed),
            ElementOrTextRef::Text(t) => collect_children(t.tree, t.node, reversed),
            ElementOrTextRef::PhantomText(_) => {
                let out: Vec<ElementOrTextRef<'a>> = Vec::new();
                proof {
                    assert(views(out@) =~= Seq::<RefModel>::empty());
                }
                out
            },
        }
    }
}

/// The reference to `n` if it is visible.
fn visible<'a>(tree: &'a Tree<DomNode>, n: &'a Node<DomNode>, out: &mut Vec<ElementOrTextRef<'a>>)
    requires
        in_doc(*tree, *n, *tree),
    ensures
        views(final(out)@) == views(old(out)@) + ref_of(*tree, n.id.0 as nat),
        final(out)@.len() >= old(out)@.len(),
        forall|i: int| 0 <= i < old(out)@.len() ==> final(out)@[i] == old(out)@[i],
        forall|i: int| old(out)@.len() <= i < final(out)@.len() ==> #[trigger] final(out)@[i].wf_in(*tree),
{
    proof {
        tree.lemma_data(n.id.0 as nat);
    }
    let ghost before = views(out@);
    match &n.data {
        DomNode::Element(_) => {
            out.push(ElementOrTextRef::Element(ElementRef { tree, node: n }));
            proof {
                assert(views(out@) =~= before + ref_of(*tree, n.id.0 as nat));
            }
        },
        DomNode::Text(_) => {
            out.push(ElementOrTextRef::Text(TextRef { tree, node: n }));
            proof {
                assert(views(out@) =~= before + ref_of(*tree, n.id.0 as nat));
            }
        },
        _ => {
            proof {
                assert(views(out@) =~= before + ref_of(*tree, n.id.0 as nat));
            }
        },
    }
}

fn collect_subtree<'a>(tree: &'a Tree<DomNode>, root: &'a Node<DomNode>) -> (r: Vec<ElementOrTextRef<'a>>)
    requires
        in_doc(*tree, *root, *tree),
    ensures
        views(r@) == refs_of(*tree, tree.preorder(root.id.0 as nat)),
        forall|i: int| 0 <= i < r@.len() ==> #[trigger] r@[i].wf_in(*tree),
{
    let mut it = PreOrderTraverse::new(tree, root);
    let mut out: Vec<ElementOrTextRef<'a>> = Vec::new();
    let ghost doc = *tree;
    let ghost full = it.rest();
    proof {
        assert(views(out@) =~= Seq::<RefModel>::empty());
    }
    loop
        invariant
            it.inv(),
            tree.wf(),
            doc == *tree,
            it.tree_of() == tree,
            views(out@) + refs_of(doc, it.rest()) == refs_of(doc, full),
            forall|i: int| 0 <= i < out@.len() ==> #[trigger] out@[i].wf_in(doc),
        ensures
            views(out@) == refs_of(doc, full),
            forall|i: int| 0 <= i < out@.len() ==> #[trigger] out@[i].wf_in(doc),
        decreases it.rest().len(),
    {
        let ghost rest = it.rest();
        match it.next() {
            None => {
                proof {
                    assert(views(out@) + Seq::<RefModel>::empty() =~= views(out@));
                }
                break;
            },
            Some((n, t)) => {
                proof {
                    tree.lemma_data(rest[0]);
                }
                visible(t, n, &mut out);
                proof {
                    assert(views(out@) + refs_of(doc, it.rest()) =~= refs_of(doc, full));
                }
            },
        }
    }
    out
}

fn collect_children<'a>(tree: &'a Tree<DomNode>, parent: &'a Node<DomNode>, reversed: bool) -> (r: Vec<ElementOrTextRef<'a>>)
    requires
        in_doc(*tree, *parent, *tree),
    ensures
        views(r@) == refs_of(
            *tree,
            if reversed {
                tree.children_of(parent.id.0 as nat).reverse()
            } else {
                tree.children_of(parent.id.0 as nat)
            },
        ),
        forall|i: int| 0 <= i < r@.len() ==> #[trigger] r@[i].wf_in(*tree),
{
    let mut it = ChildrenTraverse::new(tree, parent, reversed);
    let mut out: Vec<ElementOrTextRef<'a>> = Vec::new();
    let ghost doc = *tree;
    let ghost full = it.rest();
    proof {
        assert(views(out@) =~= Seq::<RefModel>::empty());
    }
    loop
        invariant
            it.inv(),
            tree.wf(),
            doc == *tree,
            it.tree_of() == tree,
            views(out@) + refs_of(doc, it.rest()) == refs_of(doc, full),
            forall|i: int| 0 <= i < out@.len() ==> #[trigger] out@[i].wf_in(doc),
        ensures
            views(out@) == refs_of(doc, full),
            forall|i: int| 0 <= i < out@.len() ==> #[trigger] out@[i].wf_in(doc),
        decreases it.rest().len(),
    {
        let ghost rest = it.rest();
        match it.next() {
            None => {
                proof {
                    assert(views(out@) + Seq::<RefModel>::empty() =~= views(out@));
                }
                break;
            },
            Some((n, t)) => {
                visible(t, n, &mut out);
                proof {
                    assert(views(out@) + refs_of(doc, it.rest()) =~= refs_of(doc, full));
                }
            },
        }
    }
    out
}

} // verus!
