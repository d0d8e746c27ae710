//! A compiled query and its execution on a document.
use vstd::prelude::*;
use crate::html::{views, ElementOrTextRef, Html, RefModel};
use crate::selector::parse::{col_of, expected_of, line_of, models, query, SelModel};
use crate::selector::{run, select_each, try_parse_hql, ParseError, Rule, SelectorEnum};

verus! {

/// An ordered list of selectors, applied left to right.
#[derive(Debug)]
pub struct Querier {
    pub selectors: Vec<SelectorEnum>,
}

impl Querier {
    /// Compiles a query; fails exactly when it does not follow the grammar.
    pub fn try_parse(hql: &str) -> (r: Result<Self, ParseError>)
        requires
            hql@.len() < usize::MAX,
        ensures
            r matches Ok(q) ==> query(hql@) == Ok::<Seq<SelModel>, (int, Rule)>(models(q.selectors@)),
            r matches Err(e) ==> query(hql@) matches Err((p, rule)) && e.line as nat == line_of(hql@, p)
                && e.col as nat == col_of(hql@, p) && e.expected@ == expected_of(rule),
            r is Ok <==> query(hql@) is Ok,
    {
        match try_parse_hql(hql) {
            Ok(selectors) => Ok(Querier { selectors }),
            Err(e) => Err(e),
        }
    }

    pub fn new(selectors: Vec<SelectorEnum>) -> (r: Self)
        ensures
            r.selectors == selectors,
    {
        Querier { selectors }
    }

    pub fn add_selector(&mut self, s: SelectorEnum)
        ensures
            final(self).selectors@ == old(self).selectors@.push(s),
    {
        self.selectors.push(s);
    }

    /// Runs the selectors on the document, starting from its root.
    pub fn query_document<'a>(&self, doc: &'a Html) -> (r: Vec<ElementOrTextRef<'a>>)
        requires
            doc.wf(),
        ensures
            views(r@) == run(doc.doc(), self.selectors@, seq![RefModel::Element(0)]),
            forall|i: int| 0 <= i < r@.len() ==> #[trigger] r@[i].wf_in(doc.doc()),
    {
        let tree = doc.tree();
        let mut nodes: Vec<ElementOrTextRef<'a>> = Vec::new();
        nodes.push(doc.root());
        let ghost start = seq![RefModel::Element(0)];
        proof {
            assert(views(nodes@) =~= start);
            assert(self.selectors@.subrange(0, self.selectors@.len() as int) =~= self.selectors@);
        }
        let mut k: usize = 0;
        while k < self.selectors.len()
            invariant
                0 <= k <= self.selectors@.len(),
                *tree == doc.doc(),
                forall|i: int| 0 <= i < nodes@.len() ==> #[trigger] nodes@[i].wf_in(doc.doc()),
                run(doc.doc(), self.selectors@, start) == run(
                    doc.doc(),
                    self.selectors@.subrange(k as int, self.selectors@.len() as int),
                    views(nodes@),
                ),
            decreases self.selectors@.len() - k,
        {
            let ghost rest = self.selectors@.subrange(k as int, self.selectors@.len() as int);
            proof {
                assert(rest[0] == self.selectors@[k as int]);
                assert(rest.drop_first() =~= self.selectors@.subrange(k + 1, self.selectors@.len() as int));
            }
            nodes = select_each(&self.selectors[k], nodes, tree);
            k = k + 1;
        }
        proof {
            assert(self.selectors@.subrange(k as int, self.selectors@.len() as int) =~= Seq::<SelectorEnum>::empty());
        }
        nodes
    }
}

} // verus!
