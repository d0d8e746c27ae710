//! Selection by position in the tree: whole subtrees and tag paths.
use vstd::prelude::*;
use crate::chars::{chars_of, eq_ascii_ci, eq_ignore_ascii_case};
use crate::html::{element_at, subtree_of, children_refs, views, ElementOrTextRef, RefModel};
use crate::html::dom::DomNode;
use crate::tree::Tree;

verus! {

/// Expands each reference into its whole subtree.
#[derive(Debug, PartialEq, Eq, Structural)]
pub struct FlatSelector {}

impl FlatSelector {
    pub fn new() -> (r: Self) {
        FlatSelector {}
    }

    pub fn select<'a>(&self, node: ElementOrTextRef<'a>, doc: &Tree<DomNode>) -> (r: Vec<ElementOrTextRef<'a>>)
        requires
            node.wf_in(*doc),
        ensures
            views(r@) == subtree_of(*doc, node.view()),
            forall|i: int| 0 <= i < r@.len() ==> #[trigger] r@[i].wf_in(*doc),
    {
        node.traverse_subtree(doc)
    }
}

/// One step of a path: the children, or the whole subtree.
#[derive(Debug, PartialEq, Eq, Structural, Clone, Copy)]
pub enum Path {
    Single,
    Travel,
}

/// A reference to an element whose local name is `tag` up to ASCII case.
pub open spec fn name_is(doc: Tree<DomNode>, r: RefModel, tag: Seq<char>) -> bool {
    element_at(doc, r) matches Some(e) && eq_ascii_ci(e.name.local@, tag)
}

/// The references of `rs` that name `tag`, in order.
pub open spec fn keep_named(doc: Tree<DomNode>, rs: Seq<RefModel>, tag: Seq<char>) -> Seq<RefModel>
    decreases rs.len(),
{
    if rs.len() == 0 {
        seq![]
    } else {
        keep_named(doc, rs.drop_last(), tag) + if name_is(doc, rs.last(), tag) {
            seq![rs.last()]
        } else {
            seq![]
        }
    }
}

/// One path step from one reference.
pub open spec fn path_one(doc: Tree<DomNode>, p: Path, tag: Seq<char>, r: RefModel) -> Seq<RefModel> {
    keep_named(
        doc,
        match p {
            Path::Single => children_refs(doc, r, false),
            Path::Travel => subtree_of(doc, r),
        },
        tag,
    )
}

/// One path step from each reference of `rs`, results in order.
pub open spec fn path_all(doc: Tree<DomNode>, p: Path, tag: Seq<char>, rs: Seq<RefModel>) -> Seq<RefModel>
    decreases rs.len(),
{
    if rs.len() == 0 {
        seq![]
    } else {
        path_all(doc, p, tag, rs.drop_last()) + path_one(doc, p, tag, rs.last())
    }
}

/// The path steps applied one after the other.
pub open spec fn path_chain(doc: Tree<DomNode>, paths: Seq<(Path, String)>, rs: Seq<RefModel>) -> Seq<RefModel>
    decreases paths.len(),
{
    if paths.len() == 0 {
        rs
    } else {
        path_chain(doc, paths.drop_first(), path_all(doc, paths[0].0, paths[0].1@, rs))
    }
}

/// Follows a path of steps, each keeping the elements named by its tag.
#[derive(Debug, PartialEq)]
pub struct PathSelector {
    pub paths: Vec<(Path, String)>,
}

/// Whether `r` is an element called `tag`, up to ASCII case.
fn named(r: &ElementOrTextRef, doc: &Tree<DomNode>, tag: &Vec<char>) -> (b: bool)
    requires
        r.wf_in(*doc),
    ensures
        b == name_is(*doc, r.view(), tag@),
{
    match r {
        ElementOrTextRef::Element(e) => {
            proof {
                doc.lemma_data(e.node.id.0 as nat);
            }
            match e.expanded_name() {
                Some(n) => {
                    let local = chars_of(n.local.as_str());
                    eq_ignore_ascii_case(&local, tag)
                },
                None => false,
            }
        },
        _ => false,
    }
}

/// The references of `rs` that name `tag`.
fn filter_named<'a>(rs: Vec<ElementOrTextRef<'a>>, doc: &Tree<DomNode>, tag: &Vec<char>) -> (r: Vec<ElementOrTextRef<'a>>)
    requires
        forall|i: int| 0 <= i < rs@.len() ==> #[trigger] rs@[i].wf_in(*doc),
    ensures
        views(r@) == keep_named(*doc, views(rs@), tag@),
        forall|i: int| 0 <= i < r@.len() ==> #[trigger] r@[i].wf_in(*doc),
{
    let mut out: Vec<ElementOrTextRef<'a>> = Vec::new();
    let mut i: usize = 0;
    proof {
        assert(views(rs@).subrange(0, 0) =~= Seq::<RefModel>::empty());
        assert(views(out@) =~= Seq::<RefModel>::empty());
    }
    while i < rs.len()
        invariant
            0 <= i <= rs@.len(),
            forall|k: int| 0 <= k < rs@.len() ==> #[trigger] rs@[k].wf_in(*doc),
            views(out@) == keep_named(*doc, views(rs@).subrange(0, i as int), tag@),
            forall|k: int| 0 <= k < out@.len() ==> #[trigger] out@[k].wf_in(*doc),
        decreases rs@.len() - i,
    {
        let ghost pre = views(rs@).subrange(0, i as int);
        let ghost next = views(rs@).subrange(0, i + 1);
        proof {
            assert(next.drop_last() =~= pre);
            assert(next.last() == rs@[i as int].view());
        }
        if named(&rs[i], doc, tag) {
            let r = rs[i].duplicate();
            out.push(r);
        }
        proof {
            assert(views(out@) =~= keep_named(*doc, next, tag@));
        }
        i = i + 1;
    }
    proof {
        assert(views(rs@).subrange(0, rs@.len() as int) =~= views(rs@));
    }
    out
}

impl PathSelector {
    pub fn new(paths: Vec<(Path, String)>) -> (r: Self)
        ensures
            r.paths == paths,
    {
        PathSelector { paths }
    }

    pub fn select<'a>(&self, node: ElementOrTextRef<'a>, doc: &Tree<DomNode>) -> (r: Vec<ElementOrTextRef<'a>>)
        requires
            node.wf_in(*doc),
        ensures
            views(r@) == path_chain(*doc, self.paths@, seq![node.view()]),
            forall|i: int| 0 <= i < r@.len() ==> #[trigger] r@[i].wf_in(*doc),
    {
        let ghost start = seq![node.view()];
        let mut nodes: Vec<ElementOrTextRef<'a>> = Vec::new();
        nodes.push(node);
        let mut k: usize = 0;
        proof {
            assert(views(nodes@) =~= start);
            assert(self.paths@.subrange(0, self.paths@.len() as int) =~= self.paths@);
        }
        while k < self.paths.len()
            invariant
                0 <= k <= self.paths@.len(),
                forall|i: int| 0 <= i < nodes@.len() ==> #[trigger] nodes@[i].wf_in(*doc),
                path_chain(*doc, self.paths@, start) == path_chain(
                    *doc,
                    self.paths@.subrange(k as int, self.paths@.len() as int),
                    views(nodes@),
                ),
            decreases self.paths@.len() - k,
        {
            let p = self.paths[k].0;
            let tag = chars_of(self.paths[k].1.as_str());
            let ghost rest = self.paths@.subrange(k as int, self.paths@.len() as int);
            proof {
                assert(rest[0] == self.paths@[k as int]);
                assert(rest.drop_first() =~= self.paths@.subrange(k + 1, self.paths@.len() as int));
            }
            nodes = step_all(nodes, p, doc, &tag);
            k = k + 1;
        }
        proof {
            assert(self.paths@.subrange(k as int, self.paths@.len() as int) =~= Seq::<(Path, String)>::empty());
        }
        nodes
    }
}

/// One path step from each reference of `rs`.
fn step_all<'a>(rs: Vec<ElementOrTextRef<'a>>, p: Path, doc: &Tree<DomNode>, tag: &Vec<char>) -> (r: Vec<ElementOrTextRef<'a>>)
    requires
        forall|i: int| 0 <= i < rs@.len() ==> #[trigger] rs@[i].wf_in(*doc),
    ensures
        views(r@) == path_all(*doc, p, tag@, views(rs@)),
        forall|i: int| 0 <= i < r@.len() ==> #[trigger] r@[i].wf_in(*doc),
{
    let mut out: Vec<ElementOrTextRef<'a>> = Vec::new();
    let mut i: usize = 0;
    proof {
        assert(views(rs@).subrange(0, 0) =~= Seq::<RefModel>::empty());
        assert(views(out@) =~= Seq::<RefModel>::empty());
    }
    while i < rs.len()
        invariant
            0 <= i <= rs@.len(),
            forall|k: int| 0 <= k < rs@.len() ==> #[trigger] rs@[k].wf_in(*doc),
            views(out@) == path_all(*doc, p, tag@, views(rs@).subrange(0, i as int)),
            forall|k: int| 0 <= k < out@.len() ==> #[trigger] out@[k].wf_in(*doc),
        decreases rs@.len() - i,
    {
        let ghost pre = views(rs@).subrange(0, i as int);
        let ghost next = views(rs@).subrange(0, i + 1);
        proof {
            assert(next.drop_last() =~= pre);
            assert(next.last() == rs@[i as int].view());
        }
        let r = rs[i].duplicate();
        let found = match p {
            Path::Single => r.traverse_children(doc, false),
            Path::Travel => r.traverse_subtree(doc),
        };
        let mut kept = filter_named(found, doc, tag);
        let ghost before = out@;
        let ghost added = kept@;
        out.append(&mut kept);
        proof {
            assert(views(out@) =~= views(before) + views(added));
            assert(views(out@) =~= path_all(*doc, p, tag@, next));
            assert forall|k: int| 0 <= k < out@.len() implies #[trigger] out@[k].wf_in(*doc) by {
                if k >= before.len() {
                    assert(out@[k] == added[k - before.len()]);
                }
            }
        }
        i = i + 1;
    }
    proof {
        assert(views(rs@).subrange(0, rs@.len() as int) =~= views(rs@));
    }
    out
}

} // verus!
