//! Selection by attributes: presence or value, class tokens, id, and
//! extraction of an attribute's value.
use vstd::prelude::*;
use crate::chars::{chars_of, eq_ascii_ci, eq_case, eq_ignore_ascii_case};
use crate::html::dom::{class_of, id_of, lookup, opt_str_view, DomNode, QualName};
use crate::html::{element_at, views, ElementOrTextRef, PhantomTextRef, RefModel};
use crate::tree::Tree;

verus! {

/// Keeps elements that carry an attribute, optionally with a given value
/// compared up to ASCII case.
#[derive(Debug, PartialEq)]
pub struct AttrSelector {
    pub name: QualName,
    /// `None` asks only that the attribute exists.
    pub val: Option<String>,
}

impl AttrSelector {
    pub fn new(name: &str, val: Option<&str>) -> (r: Self)
        ensures
            r.name.prefix is None,
            r.name.ns@ == Seq::<char>::empty(),
            r.name.local@ == name@,
            opt_str_view(r.val) == (match val {
                Some(v) => Some(v@),
                None => None::<Seq<char>>,
            }),
    {
        let val = match val {
            Some(v) => Some(String::from_str(v)),
            None => None,
        };
        AttrSelector { name: QualName::plain(name), val }
    }

    pub open spec fn keeps(&self, doc: Tree<DomNode>, r: RefModel) -> bool {
        element_at(doc, r) matches Some(e) && lookup(e.attrs@, self.name) matches Some(v) && (
        self.val matches Some(w) ==> eq_ascii_ci(v, w@))
    }

    pub open spec fn spec_select(&self, doc: Tree<DomNode>, r: RefModel) -> Seq<RefModel> {
        if self.keeps(doc, r) {
            seq![r]
        } else {
            seq![]
        }
    }

    pub fn select<'a>(&self, node: ElementOrTextRef<'a>, doc: &Tree<DomNode>) -> (r: Vec<ElementOrTextRef<'a>>)
        requires
            node.wf_in(*doc),
        ensures
            views(r@) == self.spec_select(*doc, node.view()),
            forall|i: int| 0 <= i < r@.len() ==> #[trigger] r@[i].wf_in(*doc),
    {
        let keep = match &node {
            ElementOrTextRef::Element(e) => {
                proof {
                    doc.lemma_data(e.node.id.0 as nat);
                }
                match e.get_attr(&self.name) {
                    Some(v) => match &self.val {
                        None => true,
                        Some(w) => {
                            let a = chars_of(v.as_str());
                            let b = chars_of(w.as_str());
                            eq_ignore_ascii_case(&a, &b)
                        },
                    },
                    None => false,
                }
            },
            _ => false,
        };
        keep_if(node, keep)
    }
}

/// `[node]` when `keep`, else nothing.
pub fn keep_if<'a>(node: ElementOrTextRef<'a>, keep: bool) -> (r: Vec<ElementOrTextRef<'a>>)
    ensures
        views(r@) == (if keep {
            seq![node.view()]
        } else {
            Seq::<RefModel>::empty()
        }),
        forall|doc: Tree<DomNode>, i: int| 0 <= i < r@.len() && node.wf_in(doc) ==> #[trigger] r@[i].wf_in(doc),
{
    let ghost v = node.view();
    let mut out: Vec<ElementOrTextRef<'a>> = Vec::new();
    if keep {
        out.push(node);
        proof {
            assert(views(out@) =~= seq![v]);
        }
    } else {
        proof {
            assert(views(out@) =~= Seq::<RefModel>::empty());
        }
    }
    out
}

/// Keeps elements whose `class` attribute holds a token.
#[derive(Debug, PartialEq)]
pub struct ClassSelector {
    pub class: String,
    pub case_sensitive: bool,
}

impl ClassSelector {
    pub fn new(class: String, case_sensitive: bool) -> (r: Self)
        ensures
            r.class == class,
            r.case_sensitive == case_sensitive,
    {
        ClassSelector { class, case_sensitive }
    }

    pub open spec fn keeps(&self, doc: Tree<DomNode>, r: RefModel) -> bool {
        element_at(doc, r) matches Some(e) && class_of(e.attrs@, self.class@, self.case_sensitive)
    }

    pub open spec fn spec_select(&self, doc: Tree<DomNode>, r: RefModel) -> Seq<RefModel> {
        if self.keeps(doc, r) {
            seq![r]
        } else {
            seq![]
        }
    }

    pub fn select<'a>(&self, node: ElementOrTextRef<'a>, doc: &Tree<DomNode>) -> (r: Vec<ElementOrTextRef<'a>>)
        requires
            node.wf_in(*doc),
        ensures
            views(r@) == self.spec_select(*doc, node.view()),
            forall|i: int| 0 <= i < r@.len() ==> #[trigger] r@[i].wf_in(*doc),
    {
        let keep = match &node {
            ElementOrTextRef::Element(e) => {
                proof {
                    doc.lemma_data(e.node.id.0 as nat);
                }
                e.has_class(self.class.as_str(), self.case_sensitive)
            },
            _ => false,
        };
        keep_if(node, keep)
    }
}

/// Keeps elements whose id equals a value.
#[derive(Debug, PartialEq)]
pub struct IDSelector {
    pub id: String,
    pub case_sensitive: bool,
}

impl IDSelector {
    pub fn new(id: String, case_sensitive: bool) -> (r: Self)
        ensures
            r.id == id,
            r.case_sensitive == case_sensitive,
    {
        IDSelector { id, case_sensitive }
    }

    pub open spec fn keeps(&self, doc: Tree<DomNode>, r: RefModel) -> bool {
        element_at(doc, r) matches Some(e) && id_of(e.attrs@) matches Some(v) && eq_case(
            v,
            self.id@,
            self.case_sensitive,
        )
    }

    pub open spec fn spec_select(&self, doc: Tree<DomNode>, r: RefModel) -> Seq<RefModel> {
        if self.keeps(doc, r) {
            seq![r]
        } else {
            seq![]
        }
    }

    pub fn select<'a>(&self, node: ElementOrTextRef<'a>, doc: &Tree<DomNode>) -> (r: Vec<ElementOrTextRef<'a>>)
        requires
            node.wf_in(*doc),
        ensures
            views(r@) == self.spec_select(*doc, node.view()),
            forall|i: int| 0 <= i < r@.len() ==> #[trigger] r@[i].wf_in(*doc),
    {
        let keep = match &node {
            ElementOrTextRef::Element(e) => {
                proof {
                    doc.lemma_data(e.node.id.0 as nat);
                }
                e.has_id(self.id.as_str(), self.case_sensitive)
            },
            _ => false,
        };
        keep_if(node, keep)
    }
}

/// Replaces an element with a phantom text holding one attribute's value;
/// drops everything else.
#[derive(Debug, PartialEq)]
pub struct ExtractAttrSelector {
    pub attr: QualName,
}

impl ExtractAttrSelector {
    pub fn new(attr: &str) -> (r: Self)
        ensures
            r.attr.prefix is None,
            r.attr.ns@ == Seq::<char>::empty(),
            r.attr.local@ == attr@,
    {
        ExtractAttrSelector { attr: QualName::plain(attr) }
    }

    pub open spec fn spec_select(&self, doc: Tree<DomNode>, r: RefModel) -> Seq<RefModel> {
        match element_at(doc, r) {
            Some(e) => match lookup(e.attrs@, self.attr) {
                Some(v) => seq![RefModel::Phantom(v)],
                None => seq![],
            },
            None => seq![],
        }
    }

    pub fn select<'a>(&self, node: ElementOrTextRef<'a>, doc: &Tree<DomNode>) -> (r: Vec<ElementOrTextRef<'a>>)
        requires
            node.wf_in(*doc),
        ensures
            views(r@) == self.spec_select(*doc, node.view()),
            forall|i: int| 0 <= i < r@.len() ==> #[trigger] r@[i].wf_in(*doc),
    {
        let mut out: Vec<ElementOrTextRef<'a>> = Vec::new();
        match &node {
            ElementOrTextRef::Element(e) => {
                proof {
                    doc.lemma_data(e.node.id.0 as nat);
                }
                match e.get_attr(&self.attr) {
                    Some(v) => {
                        let p = ElementOrTextRef::PhantomText(PhantomTextRef::new_with_txt(v.clone()));
                        out.push(p);
                    },
                    None => {},
                }
            },
            _ => {},
        }
        proof {
            assert(views(out@) =~= self.spec_select(*doc, node.view()));
        }
        out
    }
}

} // verus!
