//! The selector operations and the pipeline that chains them.
//!
//! A selector maps one node reference to zero or more references.  Selectors
//! prefixed `@` in the query language filter or generate nodes
//! (`@path(`//div`)`); those prefixed `#` work on text (`#text()`).
pub mod attr;
pub mod parse;
pub mod path;
pub mod text;

use vstd::prelude::*;
use crate::html::dom::DomNode;
use crate::html::{subtree_of, views, ElementOrTextRef, RefModel};
use crate::tree::Tree;
use self::attr::{AttrSelector, ClassSelector, ExtractAttrSelector, IDSelector};
use self::path::{path_chain, FlatSelector, PathSelector};
use self::text::{NthChildSelector, TextSelector, TrimPrefixSelector, TrimSelector, TrimSuffixSelector};

pub use self::parse::{try_parse_hql, ParseError, Rule};

verus! {

/// One selector operation.
#[derive(Debug, PartialEq)]
pub enum SelectorEnum {
    PathSelector(PathSelector),
    AttrSelector(AttrSelector),
    ClassSelector(ClassSelector),
    IDSelector(IDSelector),
    FlatSelector(FlatSelector),
    TextSelector(TextSelector),
    TrimSelector(TrimSelector),
    TrimPrefixSelector(TrimPrefixSelector),
    TrimSuffixSelector(TrimSuffixSelector),
    NthChildSelector(NthChildSelector),
    ExtractAttrSelector(ExtractAttrSelector),
}

impl SelectorEnum {
    /// What the selector makes of one reference.
    pub open spec fn spec_select(&self, doc: Tree<DomNode>, r: RefModel) -> Seq<RefModel> {
        match self {
            SelectorEnum::PathSelector(s) => path_chain(doc, s.paths@, seq![r]),
            SelectorEnum::AttrSelector(s) => s.spec_select(doc, r),
            SelectorEnum::ClassSelector(s) => s.spec_select(doc, r),
            SelectorEnum::IDSelector(s) => s.spec_select(doc, r),
            SelectorEnum::FlatSelector(_) => subtree_of(doc, r),
            SelectorEnum::TextSelector(s) => s.spec_select(doc, r),
            SelectorEnum::TrimSelector(s) => s.spec_select(doc, r),
            SelectorEnum::TrimPrefixSelector(s) => s.spec_select(doc, r),
            SelectorEnum::TrimSuffixSelector(s) => s.spec_select(doc, r),
            SelectorEnum::NthChildSelector(s) => s.spec_select(doc, r),
            SelectorEnum::ExtractAttrSelector(s) => s.spec_select(doc, r),
        }
    }

    pub fn select<'a>(&self, node: ElementOrTextRef<'a>, doc: &Tree<DomNode>) -> (r: Vec<ElementOrTextRef<'a>>)
        requires
            node.wf_in(*doc),
        ensures
            views(r@) == self.spec_select(*doc, node.view()),
            forall|i: int| 0 <= i < r@.len() ==> #[trigger] r@[i].wf_in(*doc),
    {
        match self {
            SelectorEnum::PathSelector(s) => s.select(node, doc),
            SelectorEnum::AttrSelector(s) => s.select(node, doc),
            SelectorEnum::ClassSelector(s) => s.select(node, doc),
            SelectorEnum::IDSelector(s) => s.select(node, doc),
            SelectorEnum::FlatSelector(s) => s.select(node, doc),
            SelectorEnum::TextSelector(s) => s.select(node, doc),
            SelectorEnum::TrimSelector(s) => s.select(node, doc),
            SelectorEnum::TrimPrefixSelector(s) => s.select(node, doc),
            SelectorEnum::TrimSuffixSelector(s) => s.select(node, doc),
            SelectorEnum::NthChildSelector(s) => s.select(node, doc),
            SelectorEnum::ExtractAttrSelector(s) => s.select(node, doc),
        }
    }
}

impl From<PathSelector> for SelectorEnum {
    fn from(s: PathSelector) -> (r: Self) {
        SelectorEnum::PathSelector(s)
    }
}

impl vstd::std_specs::convert::FromSpecImpl<PathSelector> for SelectorEnum {
    open spec fn obeys_from_spec() -> bool {
        true
    }

    open spec fn from_spec(s: PathSelector) -> Self {
        SelectorEnum::PathSelector(s)
    }
}

impl From<AttrSelector> for SelectorEnum {
    fn from(s: AttrSelector) -> (r: Self) {
        SelectorEnum::AttrSelector(s)
    }
}

impl vstd::std_specs::convert::FromSpecImpl<AttrSelector> for SelectorEnum {
    open spec fn obeys_from_spec() -> bool {
        true
    }

    open spec fn from_spec(s: AttrSelector) -> Self {
        SelectorEnum::AttrSelector(s)
    }
}

impl From<ClassSelector> for SelectorEnum {
    fn from(s: ClassSelector) -> (r: Self) {
        SelectorEnum::ClassSelector(s)
    }
}

impl vstd::std_specs::convert::FromSpecImpl<ClassSelector> for SelectorEnum {
    open spec fn obeys_from_spec() -> bool {
        true
    }

    open spec fn from_spec(s: ClassSelector) -> Self {
        SelectorEnum::ClassSelector(s)
    }
}

impl From<IDSelector> for SelectorEnum {
    fn from(s: IDSelector) -> (r: Self) {
        SelectorEnum::IDSelector(s)
    }
}

impl vstd::std_specs::convert::FromSpecImpl<IDSelector> for SelectorEnum {
    open spec fn obeys_from_spec() -> bool {
        true
    }

    open spec fn from_spec(s: IDSelector) -> Self {
        SelectorEnum::IDSelector(s)
    }
}

impl From<FlatSelector> for SelectorEnum {
    fn from(s: FlatSelector) -> (r: Self) {
        SelectorEnum::FlatSelector(s)
    }
}

impl vstd::std_specs::convert::FromSpecImpl<FlatSelector> for SelectorEnum {
    open spec fn obeys_from_spec() -> bool {
        true
    }

    open spec fn from_spec(s: FlatSelector) -> Self {
        SelectorEnum::FlatSelector(s)
    }
}

impl From<TextSelector> for SelectorEnum {
    fn from(s: TextSelector) -> (r: Self) {
        SelectorEnum::TextSelector(s)
    }
}

impl vstd::std_specs::convert::FromSpecImpl<TextSelector> for SelectorEnum {
    open spec fn obeys_from_spec() -> bool {
        true
    }

    open spec fn from_spec(s: TextSelector) -> Self {
        SelectorEnum::TextSelector(s)
    }
}

impl From<TrimSelector> for SelectorEnum {
    fn from(s: TrimSelector) -> (r: Self) {
        SelectorEnum::TrimSelector(s)
    }
}

impl vstd::std_specs::convert::FromSpecImpl<TrimSelector> for SelectorEnum {
    open spec fn obeys_from_spec() -> bool {
        true
    }

    open spec fn from_spec(s: TrimSelector) -> Self {
        SelectorEnum::TrimSelector(s)
    }
}

impl From<TrimPrefixSelector> for SelectorEnum {
    fn from(s: TrimPrefixSelector) -> (r: Self) {
        SelectorEnum::TrimPrefixSelector(s)
    }
}

impl vstd::std_specs::convert::FromSpecImpl<TrimPrefixSelector> for SelectorEnum {
    open spec fn obeys_from_spec() -> bool {
        true
    }

    open spec fn from_spec(s: TrimPrefixSelector) -> Self {
        SelectorEnum::TrimPrefixSelector(s)
    }
}

impl From<TrimSuffixSelector> for SelectorEnum {
    fn from(s: TrimSuffixSelector) -> (r: Self) {
        SelectorEnum::TrimSuffixSelector(s)
    }
}

impl vstd::std_specs::convert::FromSpecImpl<TrimSuffixSelector> for SelectorEnum {
    open spec fn obeys_from_spec() -> bool {
        true
    }

    open spec fn from_spec(s: TrimSuffixSelector) -> Self {
        SelectorEnum::TrimSuffixSelector(s)
    }
}

impl From<NthChildSelector> for SelectorEnum {
    fn from(s: NthChildSelector) -> (r: Self) {
        SelectorEnum::NthChildSelector(s)
    }
}

impl vstd::std_specs::convert::FromSpecImpl<NthChildSelector> for SelectorEnum {
    open spec fn obeys_from_spec() -> bool {
        true
    }

    open spec fn from_spec(s: NthChildSelector) -> Self {
        SelectorEnum::NthChildSelector(s)
    }
}

impl From<ExtractAttrSelector> for SelectorEnum {
    fn from(s: ExtractAttrSelector) -> (r: Self) {
        SelectorEnum::ExtractAttrSelector(s)
    }
}

impl vstd::std_specs::convert::FromSpecImpl<ExtractAttrSelector> for SelectorEnum {
    open spec fn obeys_from_spec() -> bool {
        true
    }

    open spec fn from_spec(s: ExtractAttrSelector) -> Self {
        SelectorEnum::ExtractAttrSelector(s)
    }
}

/// The selector applied to each reference of `rs`, results in order.
pub open spec fn select_all(doc: Tree<DomNode>, s: SelectorEnum, rs: Seq<RefModel>) -> Seq<RefModel>
    decreases rs.len(),
{
    if rs.len() == 0 {
        seq![]
    } else {
        select_all(doc, s, rs.drop_last()) + s.spec_select(doc, rs.last())
    }
}

/// The selectors applied one after the other to the working list `rs`.
pub open spec fn run(doc: Tree<DomNode>, sels: Seq<SelectorEnum>, rs: Seq<RefModel>) -> Seq<RefModel>
    decreases sels.len(),
{
    if sels.len() == 0 {
        rs
    } else {
        run(doc, sels.drop_first(), select_all(doc, sels[0], rs))
    }
}

proof fn lemma_select_all_concat(doc: Tree<DomNode>, s: SelectorEnum, a: Seq<RefModel>, b: Seq<RefModel>)
    ensures
        select_all(doc, s, a + b) == select_all(doc, s, a) + select_all(doc, s, b),
    decreases b.len(),
{
    if b.len() == 0 {
        assert(a + b =~= a);
        assert(select_all(doc, s, a) + select_all(doc, s, b) =~= select_all(doc, s, a));
    } else {
        assert((a + b).drop_last() =~= a + b.drop_last());
        assert((a + b).last() == b.last());
        lemma_select_all_concat(doc, s, a, b.drop_last());
        assert(select_all(doc, s, a) + select_all(doc, s, b.drop_last()) + s.spec_select(doc, b.last())
            =~= select_all(doc, s, a) + (select_all(doc, s, b.drop_last()) + s.spec_select(doc, b.last())));
    }
}

/// Trimming twice gives what trimming once gives, for any working list.
pub proof fn lemma_trim_twice(doc: Tree<DomNode>, rs: Seq<RefModel>)
    ensures
        ({
            let t = SelectorEnum::TrimSelector(TrimSelector {});
            run(doc, seq![t, t], rs) == run(doc, seq![t], rs)
        }),
{
    let t = SelectorEnum::TrimSelector(TrimSelector {});
    lemma_trim_all_twice(doc, rs);
    let once = select_all(doc, t, rs);
    assert(seq![t, t].drop_first() =~= seq![t]);
    assert(seq![t, t][0] == t);
    assert(seq![t][0] == t);
    assert(seq![t].drop_first() =~= Seq::<SelectorEnum>::empty());
    assert(run(doc, seq![t, t], rs) == run(doc, seq![t], once));
    assert(run(doc, seq![t], once) == run(doc, Seq::<SelectorEnum>::empty(), select_all(doc, t, once)));
    assert(run(doc, seq![t], rs) == run(doc, Seq::<SelectorEnum>::empty(), once));
}

proof fn lemma_trim_all_twice(doc: Tree<DomNode>, rs: Seq<RefModel>)
    ensures
        ({
            let t = SelectorEnum::TrimSelector(TrimSelector {});
            select_all(doc, t, select_all(doc, t, rs)) == select_all(doc, t, rs)
        }),
    decreases rs.len(),
{
    let t = SelectorEnum::TrimSelector(TrimSelector {});
    if rs.len() > 0 {
        lemma_trim_all_twice(doc, rs.drop_last());
        let x = rs.last();
        let once = t.spec_select(doc, x);
        lemma_select_all_concat(doc, t, select_all(doc, t, rs.drop_last()), once);
        let y = once[0];
        assert(once == seq![y]);
        match x {
            RefModel::Element(_) => {},
            _ => {
                crate::chars::lemma_trim_idempotent(crate::html::ref_text(doc, x));
            },
        }
        assert(t.spec_select(doc, y) == seq![y]);
        assert(seq![y].drop_last() =~= Seq::<RefModel>::empty());
        assert(seq![y].last() == y);
        assert(select_all(doc, t, Seq::<RefModel>::empty()) =~= Seq::<RefModel>::empty());
        assert(select_all(doc, t, seq![y]) =~= seq![y]);
    }
}

/// Applies `s` to each reference of `rs` and gathers the results in order.
pub fn select_each<'a>(s: &SelectorEnum, rs: Vec<ElementOrTextRef<'a>>, doc: &Tree<DomNode>) -> (r: Vec<ElementOrTextRef<'a>>)
    requires
        forall|i: int| 0 <= i < rs@.len() ==> #[trigger] rs@[i].wf_in(*doc),
    ensures
        views(r@) == select_all(*doc, *s, views(rs@)),
        forall|i: int| 0 <= i < r@.len() ==> #[trigger] r@[i].wf_in(*doc),
{
    let mut out: Vec<ElementOrTextRef<'a>> = Vec::new();
    let mut i: usize = 0;
    proof {
        assert(views(rs@).subrange(0, 0) =~= Seq::<RefModel>::empty());
        assert(views(out@) =~= Seq::<RefModel>::empty());
    }
    while i < rs.len()
        invariant
            0 <= i <= rs@.len(),
            forall|k: int| 0 <= k < rs@.len() ==> #[trigger] rs@[k].wf_in(*doc),
            views(out@) == select_all(*doc, *s, views(rs@).subrange(0, i as int)),
            forall|k: int| 0 <= k < out@.len() ==> #[trigger] out@[k].wf_in(*doc),
        decreases rs@.len() - i,
    {
        let ghost pre = views(rs@).subrange(0, i as int);
        let ghost next = views(rs@).subrange(0, i + 1);
        proof {
            assert(next.drop_last() =~= pre);
            assert(next.last() == rs@[i as int].view());
        }
        let node = rs[i].duplicate();
        let mut found = s.select(node, doc);
        let ghost before = out@;
        let ghost added = found@;
        out.append(&mut found);
        proof {
            assert(views(out@) =~= views(before) + views(added));
            assert(views(out@) =~= select_all(*doc, *s, next));
            assert forall|k: int| 0 <= k < out@.len() implies #[trigger] out@[k].wf_in(*doc) by {
                if k >= before.len() {
                    assert(out@[k] == added[k - before.len()]);
                }
            }
        }
        i = i + 1;
    }
    proof {
        assert(views(rs@).subrange(0, rs@.len() as int) =~= views(rs@));
    }
    out
}

} // verus!
