//! Selection that works on text: extraction, trimming, stripping, and
//! picking the n-th child.
use vstd::prelude::*;
use crate::chars::{chars_of, strip_prefix, strip_prefix_range, strip_suffix, strip_suffix_range, sub_string, trim, trim_range};
use crate::html::dom::DomNode;
use crate::html::{children_refs, ref_text, texts_of, views, ElementOrTextRef, PhantomTextRef, RefModel};
use crate::tree::Tree;

verus! {

/// A one-element list holding a phantom text.
fn phantom_list<'a>(txt: String) -> (r: Vec<ElementOrTextRef<'a>>)
    ensures
        views(r@) == seq![RefModel::Phantom(txt@)],
        forall|doc: Tree<DomNode>, i: int| 0 <= i < r@.len() ==> #[trigger] r@[i].wf_in(doc),
{
    let ghost t = txt@;
    let mut out: Vec<ElementOrTextRef<'a>> = Vec::new();
    out.push(ElementOrTextRef::PhantomText(PhantomTextRef::new_with_txt(txt)));
    proof {
        assert(views(out@) =~= seq![RefModel::Phantom(t)]);
    }
    out
}

/// A one-element list holding `node`.
fn single<'a>(node: ElementOrTextRef<'a>) -> (r: Vec<ElementOrTextRef<'a>>)
    ensures
        views(r@) == seq![node.view()],
        forall|doc: Tree<DomNode>, i: int| 0 <= i < r@.len() && node.wf_in(doc) ==> #[trigger] r@[i].wf_in(doc),
{
    let ghost v = node.view();
    let mut out: Vec<ElementOrTextRef<'a>> = Vec::new();
    out.push(node);
    proof {
        assert(views(out@) =~= seq![v]);
    }
    out
}

/// Replaces an element with a phantom text holding all the text below it.
#[derive(Debug, PartialEq, Eq, Structural)]
pub struct TextSelector {}

impl TextSelector {
    pub fn new() -> (r: Self) {
        TextSelector {}
    }

    pub open spec fn spec_select(&self, doc: Tree<DomNode>, r: RefModel) -> Seq<RefModel> {
        match r {
            RefModel::Element(x) => seq![RefModel::Phantom(texts_of(doc, doc.preorder(x)))],
            _ => seq![r],
        }
    }

    pub fn select<'a>(&self, node: ElementOrTextRef<'a>, doc: &Tree<DomNode>) -> (r: Vec<ElementOrTextRef<'a>>)
        requires
            node.wf_in(*doc),
        ensures
            views(r@) == self.spec_select(*doc, node.view()),
            forall|i: int| 0 <= i < r@.len() ==> #[trigger] r@[i].wf_in(*doc),
    {
        match &node {
            ElementOrTextRef::Element(e) => {
                let t = e.text();
                return phantom_list(t);
            },
            _ => {},
        }
        single(node)
    }
}

/// The text a trimming selector produces from `r`, if `r` is not an element.
pub open spec fn trimmed(doc: Tree<DomNode>, r: RefModel, f: spec_fn(Seq<char>) -> Seq<char>) -> Seq<RefModel> {
    match r {
        RefModel::Element(_) => seq![r],
        _ => seq![RefModel::Phantom(f(ref_text(doc, r)))],
    }
}

/// Strips leading and trailing whitespace from text; elements pass unchanged.
#[derive(Debug, PartialEq, Eq, Structural)]
pub struct TrimSelector {}

impl TrimSelector {
    pub fn new() -> (r: Self) {
        TrimSelector {}
    }

    pub open spec fn spec_select(&self, doc: Tree<DomNode>, r: RefModel) -> Seq<RefModel> {
        trimmed(doc, r, |s: Seq<char>| trim(s))
    }

    pub fn select<'a>(&self, node: ElementOrTextRef<'a>, doc: &Tree<DomNode>) -> (r: Vec<ElementOrTextRef<'a>>)
        requires
            node.wf_in(*doc),
        ensures
            views(r@) == self.spec_select(*doc, node.view()),
            forall|i: int| 0 <= i < r@.len() ==> #[trigger] r@[i].wf_in(*doc),
    {
        match node.own_text(doc) {
            Some(t) => {
                let cs = chars_of(t.as_str());
                let (i, j) = trim_range(&cs);
                let out = sub_string(t.as_str(), i, j);
                return phantom_list(out);
            },
            None => {},
        }
        single(node)
    }
}

/// Strips a prefix from text that starts with it; elements pass unchanged.
#[derive(Debug, PartialEq)]
pub struct TrimPrefixSelector {
    pub prefix: String,
}

impl TrimPrefixSelector {
    pub fn new(prefix: String) -> (r: Self)
        ensures
            r.prefix == prefix,
    {
        TrimPrefixSelector { prefix }
    }

    pub open spec fn spec_select(&self, doc: Tree<DomNode>, r: RefModel) -> Seq<RefModel> {
        trimmed(doc, r, |s: Seq<char>| strip_prefix(s, self.prefix@))
    }

    pub fn select<'a>(&self, node: ElementOrTextRef<'a>, doc: &Tree<DomNode>) -> (r: Vec<ElementOrTextRef<'a>>)
        requires
            node.wf_in(*doc),
        ensures
            views(r@) == self.spec_select(*doc, node.view()),
            forall|i: int| 0 <= i < r@.len() ==> #[trigger] r@[i].wf_in(*doc),
    {
        match node.own_text(doc) {
            Some(t) => {
                let cs = chars_of(t.as_str());
                let p = chars_of(self.prefix.as_str());
                let (i, j) = strip_prefix_range(&cs, &p);
                let out = sub_string(t.as_str(), i, j);
                return phantom_list(out);
            },
            None => {},
        }
        single(node)
    }
}

/// Strips a suffix from text that ends with it; elements pass unchanged.
#[derive(Debug, PartialEq)]
pub struct TrimSuffixSelector {
    pub suffix: String,
}

impl TrimSuffixSelector {
    pub fn new(suffix: String) -> (r: Self)
        ensures
            r.suffix == suffix,
    {
        TrimSuffixSelector { suffix }
    }

    pub open spec fn spec_select(&self, doc: Tree<DomNode>, r: RefModel) -> Seq<RefModel> {
        trimmed(doc, r, |s: Seq<char>| strip_suffix(s, self.suffix@))
    }

    pub fn select<'a>(&self, node: ElementOrTextRef<'a>, doc: &Tree<DomNode>) -> (r: Vec<ElementOrTextRef<'a>>)
        requires
            node.wf_in(*doc),
        ensures
            views(r@) == self.spec_select(*doc, node.view()),
            forall|i: int| 0 <= i < r@.len() ==> #[trigger] r@[i].wf_in(*doc),
    {
        match node.own_text(doc) {
            Some(t) => {
                let cs = chars_of(t.as_str());
                let p = chars_of(self.suffix.as_str());
                let (i, j) = strip_suffix_range(&cs, &p);
                let out = sub_string(t.as_str(), i, j);
                return phantom_list(out);
            },
            None => {},
        }
        single(node)
    }
}

/// Replaces an element with its `n`-th visible child, counted from the end
/// when `reversed`; drops it when there is no such child, and drops
/// everything that is not an element.
#[derive(Debug, PartialEq, Eq, Structural)]
pub struct NthChildSelector {
    pub n: usize,
    pub reversed: bool,
}

impl NthChildSelector {
    pub fn new(n: usize, reversed: bool) -> (r: Self)
        ensures
            r.n == n,
            r.reversed == reversed,
    {
        NthChildSelector { n, reversed }
    }

    pub open spec fn spec_select(&self, doc: Tree<DomNode>, r: RefModel) -> Seq<RefModel> {
        match r {
            RefModel::Element(_) => {
                let cs = children_refs(doc, r, self.reversed);
                if self.n < cs.len() {
                    seq![cs[self.n as int]]
                } else {
                    seq![]
                }
            },
            _ => seq![],
        }
    }

    pub fn select<'a>(&self, node: ElementOrTextRef<'a>, doc: &Tree<DomNode>) -> (r: Vec<ElementOrTextRef<'a>>)
        requires
            node.wf_in(*doc),
        ensures
            views(r@) == self.spec_select(*doc, node.view()),
            forall|i: int| 0 <= i < r@.len() ==> #[trigger] r@[i].wf_in(*doc),
    {
        let ghost v = node.view();
        match node {
            ElementOrTextRef::Element(e) => {
                let cs = e.children(self.reversed);
                if self.n < cs.len() {
                    let c = cs[self.n].duplicate();
                    return single(c);
                }
            },
            _ => {},
        }
        let out: Vec<ElementOrTextRef<'a>> = Vec::new();
        proof {
            assert(views(out@) =~= self.spec_select(*doc, v));
        }
        out
    }
}

} // verus!
