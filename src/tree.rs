//! An arena of nodes linked into trees by integer handles.
//!
//! Every node lives in one growable store and is named by its position there.
//! Parent, first/last child and sibling links are handles too, so structural
//! edits are a handful of field rewrites.  Alongside the links the tree keeps a
//! ghost record of each node's ordered child list and of its depth; the
//! well-formedness predicate ties the links to that record, and the depth makes
//! parent chains strictly descending, so no node is ever its own ancestor.
use vstd::prelude::*;

verus! {

/// Handle of a node: its index in the arena.
#[derive(Debug, Clone, Copy, PartialEq, Eq, Structural, Hash)]
pub struct NodeID(pub usize);

impl From<usize> for NodeID {
    fn from(value: usize) -> (r: Self) {
        NodeID(value)
    }
}

impl vstd::std_specs::convert::FromSpecImpl<usize> for NodeID {
    open spec fn obeys_from_spec() -> bool {
        true
    }

    open spec fn from_spec(v: usize) -> Self {
        NodeID(v)
    }
}

impl From<NodeID> for usize {
    fn from(val: NodeID) -> (r: Self) {
        val.0
    }
}

impl vstd::std_specs::convert::FromSpecImpl<NodeID> for usize {
    open spec fn obeys_from_spec() -> bool {
        true
    }

    open spec fn from_spec(v: NodeID) -> Self {
        v.0
    }
}

/// The handle carried by nodes that are not stored in any arena.
pub const PHANTOM_ID: usize = usize::MAX;

pub open spec fn opt_id(o: Option<NodeID>) -> Option<nat> {
    match o {
        Some(i) => Some(i.0 as nat),
        None => None,
    }
}

/// A node: its handle, its payload and its links.
#[derive(Debug, Clone)]
pub struct Node<T> {
    pub id: NodeID,
    pub data: T,
    pub parent: Option<NodeID>,
    /// First and last child.
    pub children: Option<(NodeID, NodeID)>,
    pub previous_sibling: Option<NodeID>,
    pub next_sibling: Option<NodeID>,
}

impl<T> Node<T> {
    /// A node with no links, as a value.
    pub open spec fn orphan_spec(id: NodeID, data: T) -> Self {
        Node { id, data, parent: None, children: None, previous_sibling: None, next_sibling: None }
    }

    /// A node with no links.
    pub fn orphan(id: NodeID, data: T) -> (r: Self)
        ensures
            r.id == id,
            r.data == data,
            r.parent is None,
            r.children is None,
            r.previous_sibling is None,
            r.next_sibling is None,
    {
        Node { id, data, parent: None, children: None, previous_sibling: None, next_sibling: None }
    }

    /// A node that belongs to no tree; its handle is the phantom handle.
    pub fn phantom(data: T) -> (r: Self)
        ensures
            r.id == NodeID(PHANTOM_ID),
            r.data == data,
            r.parent is None,
            r.children is None,
            r.previous_sibling is None,
            r.next_sibling is None,
    {
        Self::orphan(NodeID(PHANTOM_ID), data)
    }
}

/// `k` steps up the parent chain from `x`, if the chain is that long.
pub open spec fn anc(parent: Seq<Option<nat>>, x: nat, k: nat) -> Option<nat>
    decreases k,
{
    if k == 0 {
        Some(x)
    } else {
        match parent[x as int] {
            None => None,
            Some(p) => anc(parent, p, (k - 1) as nat),
        }
    }
}

/// The abstract content of a tree: payloads, parent of each node, and the
/// ordered children of each node.
pub struct TreeModel<T> {
    pub data: Seq<T>,
    pub parent: Seq<Option<nat>>,
    pub kids: Seq<Seq<nat>>,
}

impl<T> TreeModel<T> {
    pub open spec fn len(self) -> nat {
        self.data.len()
    }

    /// `a` is `x` or one of its ancestors.
    pub open spec fn is_ancestor_or_self(self, a: nat, x: nat) -> bool {
        exists|k: nat| anc(self.parent, x, k) == Some(a)
    }

    /// Following parents from `x` ends at a node without parent.
    pub open spec fn reaches_root(self, x: nat) -> bool {
        exists|k: nat| #[trigger] anc(self.parent, x, k) matches Some(y) && y < self.len() && self.parent[y as int] is None
    }

    /// A new unlinked node at the end of the arena.
    pub open spec fn pushed(self, d: T) -> Self {
        TreeModel { data: self.data.push(d), parent: self.parent.push(None), kids: self.kids.push(seq![]) }
    }

    /// `c` taken out of its parent's child list.
    pub open spec fn detached(self, c: nat) -> Self {
        match self.parent[c as int] {
            None => self,
            Some(p) => TreeModel {
                data: self.data,
                parent: self.parent.update(c as int, None),
                kids: self.kids.update(p as int, self.kids[p as int].remove(self.kids[p as int].index_of(c))),
            },
        }
    }

    /// `c` detached, then made the last child of `t`.
    pub open spec fn appended(self, t: nat, c: nat) -> Self {
        let m = self.detached(c);
        TreeModel {
            data: m.data,
            parent: m.parent.update(c as int, Some(t)),
            kids: m.kids.update(t as int, m.kids[t as int].push(c)),
        }
    }

    /// `c` detached, then placed right before its new sibling `s`.
    pub open spec fn inserted_before(self, s: nat, c: nat) -> Self {
        let m = self.detached(c);
        let p = m.parent[s as int]->0;
        TreeModel {
            data: m.data,
            parent: m.parent.update(c as int, Some(p)),
            kids: m.kids.update(p as int, m.kids[p as int].insert(m.kids[p as int].index_of(s), c)),
        }
    }

    /// All children of `src` moved, in order, to the end of `dst`'s children.
    pub open spec fn reparented(self, src: nat, dst: nat) -> Self {
        TreeModel {
            data: self.data,
            parent: Seq::new(
                self.parent.len(),
                |x: int|
                    if self.parent[x] == Some(src) {
                        Some(dst)
                    } else {
                        self.parent[x]
                    },
            ),
            kids: self.kids.update(dst as int, self.kids[dst as int] + self.kids[src as int]).update(
                src as int,
                seq![],
            ),
        }
    }
}

/// An append-only arena of nodes; handle 0 is the root.
pub struct Tree<T> {
    nodes: Vec<Node<T>>,
    kids: Ghost<Seq<Seq<nat>>>,
    depth: Ghost<Seq<nat>>,
}

impl<T> View for Tree<T> {
    type V = TreeModel<T>;

    closed spec fn view(&self) -> TreeModel<T> {
        TreeModel {
            data: self.nodes@.map_values(|n: Node<T>| n.data),
            parent: self.nodes@.map_values(|n: Node<T>| opt_id(n.parent)),
            kids: self.kids@,
        }
    }
}

/// Nodes of `depth` at or below `c`: those whose chain of the right length ends at `c`.
pub closed spec fn in_sub(parent: Seq<Option<nat>>, depth: Seq<nat>, c: nat, x: nat) -> bool {
    depth[x as int] >= depth[c as int] && anc(parent, x, (depth[x as int] - depth[c as int]) as nat)
        == Some(c)
}

impl<T> Tree<T> {
    pub closed spec fn len(&self) -> nat {
        self.nodes@.len()
    }

    pub closed spec fn node_at(&self, i: nat) -> Node<T> {
        self.nodes@[i as int]
    }

    pub closed spec fn wf_node(&self, i: nat) -> bool {
        let n = self.nodes@[i as int];
        let kids = self.kids@;
        let depth = self.depth@;
        &&& n.id.0 == i
        &&& match n.parent {
            Some(p) => {
                &&& (p.0 as nat) < self.len()
                &&& depth[i as int] == depth[p.0 as int] + 1
                &&& kids[p.0 as int].contains(i)
            },
            None => {
                &&& depth[i as int] == 0
                &&& n.previous_sibling is None
                &&& n.next_sibling is None
            },
        }
        &&& match n.children {
            None => kids[i as int].len() == 0,
            Some((f, l)) => {
                &&& kids[i as int].len() > 0
                &&& f.0 as nat == kids[i as int][0]
                &&& l.0 as nat == kids[i as int].last()
            },
        }
        &&& kids[i as int].no_duplicates()
    }

    pub closed spec fn wf_kid(&self, p: nat, j: int) -> bool {
        let ks = self.kids@[p as int];
        let c = ks[j];
        let n = self.nodes@[c as int];
        &&& c < self.len()
        &&& opt_id(n.parent) == Some(p)
        &&& opt_id(n.previous_sibling) == (if j == 0 {
            None
        } else {
            Some(ks[j - 1])
        })
        &&& opt_id(n.next_sibling) == (if j + 1 == ks.len() {
            None
        } else {
            Some(ks[j + 1])
        })
    }

    /// The links agree with the ghost child lists and depths.
    pub closed spec fn wf(&self) -> bool {
        &&& 0 < self.len() < PHANTOM_ID
        &&& self.nodes@[0].parent is None
        &&& self.kids@.len() == self.len()
        &&& self.depth@.len() == self.len()
        &&& forall|i: nat| i < self.len() ==> #[trigger] self.wf_node(i)
        &&& forall|p: nat, j: int|
            p < self.len() && 0 <= j < self.kids@[p as int].len() ==> #[trigger] self.wf_kid(p, j)
    }
}

impl<T> Tree<T> {
    /// A tree holding only its root.
    pub fn new(root: T) -> (r: Self)
        ensures
            r.wf(),
            r@.data == seq![root],
            r@.parent == seq![None::<nat>],
            r@.kids == seq![Seq::<nat>::empty()],
            r.node_at(0) == Node::<T>::orphan_spec(NodeID(0), root),
    {
        let ghost kids = seq![Seq::<nat>::empty()];
        let ghost depth = seq![0nat];
        let r = Tree { nodes: vec![Node::orphan(NodeID(0), root)], kids: Ghost(kids), depth: Ghost(depth) };
        assert(r.wf_node(0));
        assert(r@.data =~= seq![root]);
        assert(r@.parent =~= seq![None::<nat>]);
        r
    }

    pub fn nodes(&self) -> (r: &Vec<Node<T>>)
        requires
            self.wf(),
        ensures
            r@.len() == self@.len(),
            forall|i: int|
                0 <= i < r@.len() ==> {
                    &&& #[trigger] r@[i].id == NodeID(i as usize)
                    &&& r@[i].data == self@.data[i]
                    &&& opt_id(r@[i].parent) == self@.parent[i]
                },
    {
        proof {
            assert forall|i: int| 0 <= i < self.nodes@.len() implies self.nodes@[i].id == NodeID(
                i as usize,
            ) by {
                assert(self.wf_node(i as nat));
            }
        }
        &self.nodes
    }

    pub open spec fn has_room(&self) -> bool {
        self@.len() + 1 < PHANTOM_ID
    }

    /// Stores `data` in a new node with no links.
    pub fn orphan_node(&mut self, data: T) -> (r: &Node<T>)
        requires
            old(self).wf(),
            old(self).has_room(),
        ensures
            final(self).wf(),
            final(self)@ == old(self)@.pushed(data),
            r.id == NodeID(old(self)@.len() as usize),
            r.data == data,
            r.parent is None,
            r.children is None,
            r.previous_sibling is None,
            r.next_sibling is None,
            *r == final(self).node_at(old(self)@.len()),
    {
        let node_id = self.nodes.len();
        proof { self.lemma_len(); }
        let ghost old_self = *self;
        self.nodes.push(Node::orphan(NodeID(node_id), data));
        let ghost kids = self.kids@.push(Seq::<nat>::empty());
        let ghost depth = self.depth@.push(0nat);
        self.kids = Ghost(kids);
        self.depth = Ghost(depth);
        proof {
            assert forall|i: nat| i < self.len() implies #[trigger] self.wf_node(i) by {
                if i < old_self.len() {
                    assert(old_self.wf_node(i));
                }
            }
            assert forall|p: nat, j: int|
                p < self.len() && 0 <= j < self.kids@[p as int].len() implies #[trigger] self.wf_kid(
                p,
                j,
            ) by {
                assert(old_self.wf_kid(p, j));
            }
            assert(self@.data =~= old_self@.pushed(data).data);
            assert(self@.parent =~= old_self@.pushed(data).parent);
        }
        &self.nodes[node_id]
    }

    /// Wraps `data` in a node that is not stored in the tree.
    pub fn phantom_node(&self, data: T) -> (r: Node<T>)
        ensures
            r.id == NodeID(PHANTOM_ID),
            r.data == data,
            r.parent is None,
            r.children is None,
    {
        Node::phantom(data)
    }

    pub fn node_ref(&self, id: NodeID) -> (r: Option<&Node<T>>)
        requires
            self.wf(),
        ensures
            r is Some <==> id.0 < self@.len(),
            r is Some ==> r->0.id == id && r->0.data == self@.data[id.0 as int] && opt_id(
                r->0.parent,
            ) == self@.parent[id.0 as int] && self.node_at(id.0 as nat) == *r->0,
    {
        proof { self.lemma_len(); }
        if id.0 < self.nodes.len() {
            proof { assert(self.wf_node(id.0 as nat)); }
            Some(&self.nodes[id.0])
        } else {
            None
        }
    }

    pub fn root_ref(&self) -> (r: Option<&Node<T>>)
        requires
            self.wf(),
        ensures
            r is Some,
            r->0.id == NodeID(0),
            r->0.data == self@.data[0],
            r->0.parent is None,
            r->0.previous_sibling is None,
            r->0.next_sibling is None,
            *r->0 == self.node_at(0),
    {
        proof {
            assert(self.wf_node(0));
        }
        self.node_ref(NodeID(0))
    }

    pub fn previous_sibling_ref(&self, node_id: NodeID) -> (r: Option<&Node<T>>)
        requires
            self.wf(),
        ensures
            r is Some <==> node_id.0 < self@.len() && self.node_at(node_id.0 as nat).previous_sibling is Some,
            r is Some ==> r->0.id == self.node_at(node_id.0 as nat).previous_sibling->0 && r->0.next_sibling == Some(node_id)
                && r->0.id.0 < self@.len() && *r->0 == self.node_at(r->0.id.0 as nat),
    {
        let n = self.node_ref(node_id)?;
        let prev = n.previous_sibling?;
        proof { self.lemma_prev(node_id.0 as nat); }
        self.node_ref(prev)
    }

    pub fn parent_ref(&self, id: NodeID) -> (r: Option<&Node<T>>)
        requires
            self.wf(),
        ensures
            r is Some <==> id.0 < self@.len() && self@.parent[id.0 as int] is Some,
            r is Some ==> r->0.id.0 == self@.parent[id.0 as int]->0 && self@.kids[r->0.id.0 as int].contains(id.0 as nat),
    {
        let n = self.node_ref(id)?;
        let parent = n.parent?;
        proof { assert(self.wf_node(id.0 as nat)); }
        self.node_ref(parent)
    }

    /// First and last child of `parent`.
    pub fn children_range(&self, parent: NodeID) -> (r: Option<(NodeID, NodeID)>)
        requires
            self.wf(),
        ensures
            r is Some <==> parent.0 < self@.len() && self@.kids[parent.0 as int].len() > 0,
            r is Some ==> r == Some((NodeID(self@.kids[parent.0 as int][0] as usize), NodeID(self@.kids[parent.0 as int].last() as usize))),
    {
        let n = self.node_ref(parent)?;
        proof { assert(self.wf_node(parent.0 as nat)); }
        n.children
    }

    /// Whether `a` is `x` or one of its ancestors, found by walking up from `x`.
    fn is_ancestor_or_self_exec(&self, a: usize, x: usize) -> (r: bool)
        requires
            self.wf(),
            a < self.len(),
            x < self.len(),
        ensures
            r == self@.is_ancestor_or_self(a as nat, x as nat),
    {
        let ghost par = self@.parent;
        let mut cur = x;
        let ghost mut k: nat = 0;
        proof { self.lemma_len(); }
        loop
            invariant
                self.wf(),
                cur < self.len(),
                par == self@.parent,
                anc(par, x as nat, k) == Some(cur as nat),
                forall|i: nat| i < k ==> anc(par, x as nat, i) != Some(a as nat),
            decreases self.depth@[cur as int],
        {
            if cur == a {
                return true;
            }
            proof { assert(self.wf_node(cur as nat)); }
            match self.nodes[cur].parent {
                None => {
                    proof {
                        assert forall|i: nat| anc(par, x as nat, i) != Some(a as nat) by {
                            if i > k {
                                lemma_anc_add(par, x as nat, k, (i - k) as nat);
                            }
                        }
                    }
                    return false;
                },
                Some(q) => {
                    proof {
                        assert(par[cur as int] == opt_id(self.nodes@[cur as int].parent));
                        lemma_anc_one(par, cur as nat);
                        lemma_anc_add(par, x as nat, k, 1);
                        k = k + 1;
                    }
                    cur = q.0;
                },
            }
        }
    }

    /// Makes the unlinked node `c` the last child of `t`.
    #[verifier::rlimit(100)]
    #[verifier::spinoff_prover]
    fn link_last(&mut self, t: usize, c: usize)
        requires
            old(self).wf(),
            t < old(self).len(),
            c < old(self).len(),
            c != 0,
            old(self)@.parent[c as int] is None,
            !old(self)@.is_ancestor_or_self(c as nat, t as nat),
        ensures
            final(self).wf(),
            final(self)@ == (TreeModel {
                data: old(self)@.data,
                parent: old(self)@.parent.update(c as int, Some(t as nat)),
                kids: old(self)@.kids.update(t as int, old(self)@.kids[t as int].push(c as nat)),
            }),
            final(self).len() == old(self).len(),
    {
        let ghost old_self = *self;
        let ghost par = old_self@.parent;
        let ghost ks = old_self.kids@[t as int];
        proof {
            self.lemma_len();
            assert(self.wf_node(c as nat));
            assert(self.wf_node(t as nat));
            assert(anc(par, t as nat, 0) == Some(t as nat));
            assert(!in_sub(par, old_self.depth@, c as nat, t as nat));
            if ks.contains(c as nat) {
                let m = choose|m: int| 0 <= m < ks.len() && ks[m] == c;
                assert(old_self.wf_kid(t as nat, m));
            }
            if ks.len() > 0 {
                assert(old_self.wf_kid(t as nat, ks.len() - 1));
            }
        }
        match self.nodes[t].children {
            Some((first, last)) => {
                self.nodes[c].parent = Some(NodeID(t));
                self.nodes[c].previous_sibling = Some(last);
                self.nodes[c].next_sibling = None;
                self.nodes[last.0].next_sibling = Some(NodeID(c));
                self.nodes[t].children = Some((first, NodeID(c)));
            },
            None => {
                self.nodes[c].parent = Some(NodeID(t));
                self.nodes[c].previous_sibling = None;
                self.nodes[c].next_sibling = None;
                self.nodes[t].children = Some((NodeID(c), NodeID(c)));
            },
        }
        let ghost nks = ks.push(c as nat);
        let ghost new_kids = old_self.kids@.update(t as int, nks);
        let ghost new_depth = shifted(par, old_self.depth@, c as nat, old_self.depth@[t as int] + 1);
        self.kids = Ghost(new_kids);
        self.depth = Ghost(new_depth);
        proof {
            assert(in_sub(par, old_self.depth@, c as nat, c as nat));
            assert(nks[ks.len() as int] == c);
            assert(ks.len() > 0 ==> nks[0] == ks[0]);
            assert forall|i: nat| i < self.len() implies #[trigger] self.wf_node(i) by {
                assert(old_self.wf_node(i));
                let n = old_self.nodes@[i as int];
                if i != c {
                    if let Some(q) = n.parent {
                        lemma_sub_step(par, old_self.depth@, c as nat, i, q.0 as nat);
                        if q.0 == t {
                            let m = choose|m: int| 0 <= m < ks.len() && ks[m] == i;
                            assert(nks[m] == i);
                        }
                    } else {
                        assert(anc(par, i, 0) == Some(i));
                        assert(!in_sub(par, old_self.depth@, c as nat, i));
                    }
                }
                if i == t {
                    assert(nks.no_duplicates()) by {
                        assert forall|a: int, b: int| 0 <= a < nks.len() && 0 <= b < nks.len() && a != b implies nks[a] != nks[b] by {
                            if a < ks.len() && b < ks.len() {
                            } else if a < ks.len() {
                                assert(ks.contains(nks[a]));
                            } else {
                                assert(ks.contains(nks[b]));
                            }
                        }
                    }
                }
            }
            assert forall|q: nat, jj: int|
                q < self.len() && 0 <= jj < self.kids@[q as int].len() implies #[trigger] self.wf_kid(q, jj) by {
                if q != t {
                    assert(old_self.wf_kid(q, jj));
                    let x = old_self.kids@[q as int][jj];
                    assert(x != c);
                    if ks.len() > 0 {
                        assert(old_self.wf_kid(t as nat, ks.len() - 1));
                        assert(x != ks.last());
                    }
                } else if jj < ks.len() {
                    assert(old_self.wf_kid(q, jj));
                    assert(ks[jj] != c);
                    if jj + 1 < ks.len() {
                        assert(ks[jj] != ks.last());
                    }
                }
            }
            assert(self@.data =~= old_self@.data);
            assert(self@.parent =~= old_self@.parent.update(c as int, Some(t as nat)));
        }
    }

    /// The nodes on the chain above a valid node are valid.
    proof fn lemma_anc_valid(&self, x: nat, k: nat)
        requires
            self.wf(),
            x < self.len(),
        ensures
            anc(self@.parent, x, k) matches Some(y) ==> y < self.len(),
        decreases k,
    {
        if k > 0 {
            assert(self.wf_node(x));
            if let Some(p) = self@.parent[x as int] {
                self.lemma_anc_valid(p, (k - 1) as nat);
            }
        }
    }

    /// A node without children is nobody's proper ancestor.
    proof fn lemma_leaf_not_ancestor(&self, n: nat, t: nat)
        requires
            self.wf(),
            n < self.len(),
            t < self.len(),
            t != n,
            self@.kids[n as int].len() == 0,
        ensures
            !self@.is_ancestor_or_self(n, t),
    {
        let par = self@.parent;
        if self@.is_ancestor_or_self(n, t) {
            let k = choose|k: nat| anc(par, t, k) == Some(n);
            assert(k > 0);
            lemma_anc_add(par, t, (k - 1) as nat, 1);
            self.lemma_anc_valid(t, (k - 1) as nat);
            let y = anc(par, t, (k - 1) as nat)->0;
            assert(self.wf_node(y));
            assert(par[y as int] == opt_id(self.nodes@[y as int].parent));
            lemma_anc_one(par, y);
        }
    }

    /// Makes `child` the last child of `target`, detaching it first.
    ///
    /// Fails, leaving the tree as it was, when either handle is not in the tree,
    /// `child` is the root, or `child` is `target` or one of its ancestors.
    pub fn append_child_id(&mut self, target: NodeID, child: NodeID) -> (r: Option<&Node<T>>)
        requires
            old(self).wf(),
        ensures
            final(self).wf(),
            r is Some <==> target.0 < old(self)@.len() && child.0 < old(self)@.len() && child.0 != 0
                && !old(self)@.is_ancestor_or_self(child.0 as nat, target.0 as nat),
            r is Some ==> final(self)@ == old(self)@.appended(target.0 as nat, child.0 as nat)
                && r->0.id == child && *r->0 == final(self).node_at(child.0 as nat),
            r is None ==> final(self)@ == old(self)@,
    {
        proof { self.lemma_len(); }
        if target.0 >= self.nodes.len() || child.0 >= self.nodes.len() || child.0 == 0 {
            return None;
        }
        if self.is_ancestor_or_self_exec(child.0, target.0) {
            return None;
        }
        let ghost old_self = *self;
        self.unlink(child.0);
        proof {
            assert forall|i: nat| #[trigger] anc(old_self@.parent, target.0 as nat, i) matches Some(y) ==> y < old_self@.parent.len() by {
                old_self.lemma_anc_valid(target.0 as nat, i);
            }
            lemma_detach_keeps_unrelated(old_self@, child.0 as nat, target.0 as nat);
        }
        self.link_last(target.0, child.0);
        proof {
            assert(self.wf_node(child.0 as nat));
        }
        Some(&self.nodes[child.0])
    }

    /// Stores `data` in a new node and makes it the last child of `target`.
    ///
    /// Fails, storing nothing, when `target` is not in the tree.
    pub fn append_child(&mut self, target: NodeID, data: T) -> (r: Option<&Node<T>>)
        requires
            old(self).wf(),
            old(self).has_room(),
        ensures
            final(self).wf(),
            r is Some <==> target.0 < old(self)@.len(),
            r is Some ==> final(self)@ == old(self)@.pushed(data).appended(target.0 as nat, old(self)@.len())
                && r->0.id == NodeID(old(self)@.len() as usize) && *r->0 == final(self).node_at(old(self)@.len()),
            r is None ==> final(self)@ == old(self)@,
    {
        proof { self.lemma_len(); }
        if target.0 >= self.nodes.len() {
            return None;
        }
        let id = self.orphan_node(data).id;
        proof {
            self.lemma_len();
            assert(self.wf_node(id.0 as nat));
            self.lemma_leaf_not_ancestor(id.0 as nat, target.0 as nat);
        }
        self.append_child_id(target, id)
    }

    /// Places the unlinked node `c` right before `s`, under `s`'s parent.
    #[verifier::rlimit(100)]
    #[verifier::spinoff_prover]
    fn link_before(&mut self, s: usize, c: usize)
        requires
            old(self).wf(),
            s < old(self).len(),
            c < old(self).len(),
            c != 0,
            old(self)@.parent[c as int] is None,
            old(self)@.parent[s as int] is Some,
            !old(self)@.is_ancestor_or_self(c as nat, old(self)@.parent[s as int]->0),
        ensures
            final(self).wf(),
            final(self)@ == ({
                let m = old(self)@;
                let p = m.parent[s as int]->0;
                TreeModel {
                    data: m.data,
                    parent: m.parent.update(c as int, Some(p)),
                    kids: m.kids.update(p as int, m.kids[p as int].insert(m.kids[p as int].index_of(s as nat), c as nat)),
                }
            }),
            final(self).len() == old(self).len(),
    {
        let ghost old_self = *self;
        let ghost par = old_self@.parent;
        proof {
            self.lemma_len();
            assert(self.wf_node(c as nat));
            assert(self.wf_node(s as nat));
            assert(par[s as int] == opt_id(self.nodes@[s as int].parent));
        }
        let p = self.nodes[s].parent.unwrap().0;
        let prev = self.nodes[s].previous_sibling;
        let ghost ks = old_self.kids@[p as int];
        let ghost j = ks.index_of(s as nat);
        proof {
            assert(self.wf_node(p as nat));
            lemma_index_of_unique(ks, s as nat, j);
            assert(old_self.wf_kid(p as nat, j));
            if j > 0 {
                assert(old_self.wf_kid(p as nat, j - 1));
            }
            assert(anc(par, p as nat, 0) == Some(p as nat));
            assert(!in_sub(par, old_self.depth@, c as nat, p as nat));
            if ks.contains(c as nat) {
                let m = choose|m: int| 0 <= m < ks.len() && ks[m] == c;
                assert(old_self.wf_kid(p as nat, m));
            }
        }
        self.nodes[c].parent = Some(NodeID(p));
        self.nodes[c].previous_sibling = prev;
        self.nodes[c].next_sibling = Some(NodeID(s));
        match prev {
            Some(ps) => {
                self.nodes[ps.0].next_sibling = Some(NodeID(c));
            },
            None => {
                let (_, last) = self.nodes[p].children.unwrap();
                self.nodes[p].children = Some((NodeID(c), last));
            },
        }
        self.nodes[s].previous_sibling = Some(NodeID(c));
        let ghost nks = ks.insert(j, c as nat);
        let ghost new_kids = old_self.kids@.update(p as int, nks);
        let ghost new_depth = shifted(par, old_self.depth@, c as nat, old_self.depth@[p as int] + 1);
        self.kids = Ghost(new_kids);
        self.depth = Ghost(new_depth);
        proof {
            ks.insert_ensures(j, c as nat);
            assert(in_sub(par, old_self.depth@, c as nat, c as nat));
            assert(nks.last() == ks.last());
            assert forall|i: nat| i < self.len() implies #[trigger] self.wf_node(i) by {
                assert(old_self.wf_node(i));
                let n = old_self.nodes@[i as int];
                if i != c {
                    if let Some(q) = n.parent {
                        lemma_sub_step(par, old_self.depth@, c as nat, i, q.0 as nat);
                        if q.0 == p {
                            let m = choose|m: int| 0 <= m < ks.len() && ks[m] == i;
                            if m < j {
                                assert(nks[m] == i);
                            } else {
                                assert(nks[m + 1] == i);
                            }
                        }
                    } else {
                        assert(anc(par, i, 0) == Some(i));
                        assert(!in_sub(par, old_self.depth@, c as nat, i));
                    }
                }
                if i == p {
                    assert(nks.no_duplicates()) by {
                        assert forall|a: int, b: int| 0 <= a < nks.len() && 0 <= b < nks.len() && a != b implies nks[a] != nks[b] by {
                            let a2 = if a < j { a } else { a - 1 };
                            let b2 = if b < j { b } else { b - 1 };
                            if a != j && b != j {
                                assert(nks[a] == ks[a2]);
                                assert(nks[b] == ks[b2]);
                            } else if a == j {
                                assert(nks[b] == ks[b2]);
                                assert(ks.contains(nks[b]));
                            } else {
                                assert(nks[a] == ks[a2]);
                                assert(ks.contains(nks[a]));
                            }
                        }
                    }
                }
            }
            assert forall|q: nat, jj: int|
                q < self.len() && 0 <= jj < self.kids@[q as int].len() implies #[trigger] self.wf_kid(q, jj) by {
                if q != p {
                    assert(old_self.wf_kid(q, jj));
                    let x = old_self.kids@[q as int][jj];
                    assert(x != c);
                    assert(x != s);
                    if j > 0 {
                        assert(x != ks[j - 1]);
                    }
                } else if jj < j {
                    assert(old_self.wf_kid(q, jj));
                    assert(ks[jj] != c);
                    assert(ks[jj] != s);
                    if jj + 1 < j {
                        assert(old_self.wf_kid(q, jj + 1));
                        assert(ks[jj] != ks[j - 1]);
                    }
                } else if jj > j {
                    assert(old_self.wf_kid(q, jj - 1));
                    assert(ks[jj - 1] != c);
                    if jj > j + 1 {
                        assert(ks[jj - 1] != s);
                        if j > 0 {
                            assert(ks[jj - 1] != ks[j - 1]);
                        }
                    }
                }
            }
            assert(self@.data =~= old_self@.data);
            assert(self@.parent =~= old_self@.parent.update(c as int, Some(p as nat)));
        }
    }

    /// Places `new_sib_id` right before `node_id`, as a child of `node_id`'s
    /// parent, detaching it first.
    ///
    /// Fails, leaving the tree as it was, when either handle is not in the
    /// tree, `new_sib_id` is the root, `node_id` has no parent, the two are the
    /// same node, or `new_sib_id` is that parent or one of its ancestors.
    pub fn insert_id_before(&mut self, node_id: NodeID, new_sib_id: NodeID) -> (r: Option<&Node<T>>)
        requires
            old(self).wf(),
        ensures
            final(self).wf(),
            r is Some <==> node_id.0 < old(self)@.len() && new_sib_id.0 < old(self)@.len() && new_sib_id.0 != 0
                && old(self)@.parent[node_id.0 as int] is Some && node_id != new_sib_id
                && !old(self)@.is_ancestor_or_self(new_sib_id.0 as nat, old(self)@.parent[node_id.0 as int]->0),
            r is Some ==> final(self)@ == old(self)@.inserted_before(node_id.0 as nat, new_sib_id.0 as nat)
                && r->0.id == new_sib_id && *r->0 == final(self).node_at(new_sib_id.0 as nat),
            r is None ==> final(self)@ == old(self)@,
    {
        proof { self.lemma_len(); }
        if node_id.0 >= self.nodes.len() || new_sib_id.0 >= self.nodes.len() || node_id.0 == new_sib_id.0
            || new_sib_id.0 == 0 {
            return None;
        }
        proof { assert(self.wf_node(node_id.0 as nat)); }
        let parent_id = match self.nodes[node_id.0].parent {
            Some(p) => p,
            None => {
                return None;
            },
        };
        proof { assert(self.wf_node(parent_id.0 as nat)); }
        if self.is_ancestor_or_self_exec(new_sib_id.0, parent_id.0) {
            return None;
        }
        let ghost old_self = *self;
        self.unlink(new_sib_id.0);
        proof {
            assert forall|i: nat| #[trigger] anc(old_self@.parent, parent_id.0 as nat, i) matches Some(y) ==> y < old_self@.parent.len() by {
                old_self.lemma_anc_valid(parent_id.0 as nat, i);
            }
            lemma_detach_keeps_unrelated(old_self@, new_sib_id.0 as nat, parent_id.0 as nat);
        }
        self.link_before(node_id.0, new_sib_id.0);
        proof {
            assert(self.wf_node(new_sib_id.0 as nat));
        }
        Some(&self.nodes[new_sib_id.0])
    }

    /// Stores `data` in a new node placed right before `node_id`.
    ///
    /// Fails, storing nothing, when `node_id` is not in the tree or has no parent.
    pub fn insert_before(&mut self, node_id: NodeID, data: T) -> (r: Option<&Node<T>>)
        requires
            old(self).wf(),
            old(self).has_room(),
        ensures
            final(self).wf(),
            r is Some <==> node_id.0 < old(self)@.len() && old(self)@.parent[node_id.0 as int] is Some,
            r is Some ==> final(self)@ == old(self)@.pushed(data).inserted_before(node_id.0 as nat, old(self)@.len())
                && r->0.id == NodeID(old(self)@.len() as usize) && *r->0 == final(self).node_at(old(self)@.len()),
            r is None ==> final(self)@ == old(self)@,
    {
        proof { self.lemma_len(); }
        if node_id.0 >= self.nodes.len() {
            return None;
        }
        proof { assert(self.wf_node(node_id.0 as nat)); }
        let parent_id = match self.nodes[node_id.0].parent {
            Some(p) => p,
            None => {
                return None;
            },
        };
        let id = self.orphan_node(data).id;
        proof {
            self.lemma_len();
            assert(self.wf_node(id.0 as nat));
            assert(self.wf_node(node_id.0 as nat));
            self.lemma_leaf_not_ancestor(id.0 as nat, parent_id.0 as nat);
        }
        self.insert_id_before(node_id, id)
    }

    /// Replaces the payload of `id`, handing back the one it held.
    pub fn replace_data(&mut self, id: NodeID, data: T) -> (r: Option<T>)
        requires
            old(self).wf(),
        ensures
            final(self).wf(),
            r is Some <==> id.0 < old(self)@.len(),
            r matches Some(d) ==> d == old(self)@.data[id.0 as int] && final(self)@ == (TreeModel {
                data: old(self)@.data.update(id.0 as int, data),
                parent: old(self)@.parent,
                kids: old(self)@.kids,
            }),
            r is None ==> final(self)@ == old(self)@,
    {
        proof { self.lemma_len(); }
        if id.0 >= self.nodes.len() {
            return None;
        }
        let ghost old_self = *self;
        let mut d = data;
        core::mem::swap(&mut self.nodes[id.0].data, &mut d);
        proof {
            assert forall|i: nat| i < self.len() implies #[trigger] self.wf_node(i) by {
                assert(old_self.wf_node(i));
            }
            assert forall|p: nat, j: int|
                p < self.len() && 0 <= j < self.kids@[p as int].len() implies #[trigger] self.wf_kid(p, j) by {
                assert(old_self.wf_kid(p, j));
            }
            assert(self@.data =~= old_self@.data.update(id.0 as int, data));
            assert(self@.parent =~= old_self@.parent);
        }
        Some(d)
    }

    /// Detaches `node_id` from its parent; a node without parent is left as it is.
    ///
    /// Fails only when `node_id` is not in the tree.
    pub fn detach(&mut self, node_id: NodeID) -> (r: Option<&Node<T>>)
        requires
            old(self).wf(),
        ensures
            final(self).wf(),
            r is Some <==> node_id.0 < old(self)@.len(),
            r is Some ==> final(self)@ == old(self)@.detached(node_id.0 as nat) && r->0.id == node_id
                && r->0.parent is None && r->0.previous_sibling is None && r->0.next_sibling is None
                && *r->0 == final(self).node_at(node_id.0 as nat),
            r is None ==> final(self)@ == old(self)@,
    {
        proof { self.lemma_len(); }
        if node_id.0 >= self.nodes.len() {
            return None;
        }
        self.unlink(node_id.0);
        proof {
            assert(self.wf_node(node_id.0 as nat));
            assert(self@.parent[node_id.0 as int] == opt_id(self.nodes@[node_id.0 as int].parent));
        }
        Some(&self.nodes[node_id.0])
    }

    /// Moves every child of `src`, in order, to the end of `dst`'s children.
    ///
    /// Nothing changes when the two are the same node.  Fails, leaving the tree
    /// as it was, when either handle is not in the tree or `src` is an ancestor
    /// of `dst`.
    #[verifier::rlimit(100)]
    #[verifier::spinoff_prover]
    pub fn reparent_from_id_append(&mut self, src: NodeID, dst: NodeID) -> (r: Option<&Node<T>>)
        requires
            old(self).wf(),
        ensures
            final(self).wf(),
            r is Some <==> src.0 < old(self)@.len() && dst.0 < old(self)@.len()
                && (src == dst || !old(self)@.is_ancestor_or_self(src.0 as nat, dst.0 as nat)),
            r is Some ==> r->0.id == dst && *r->0 == final(self).node_at(dst.0 as nat) && final(self)@ == (if src == dst {
                old(self)@
            } else {
                old(self)@.reparented(src.0 as nat, dst.0 as nat)
            }),
            r is None ==> final(self)@ == old(self)@,
    {
        proof { self.lemma_len(); }
        if src.0 >= self.nodes.len() || dst.0 >= self.nodes.len() {
            return None;
        }
        if src.0 == dst.0 {
            proof { assert(self.wf_node(dst.0 as nat)); }
            return Some(&self.nodes[dst.0]);
        }
        if self.is_ancestor_or_self_exec(src.0, dst.0) {
            return None;
        }
        let ghost old_self = *self;
        let ghost par = old_self@.parent;
        let ghost ks = old_self.kids@[src.0 as int];
        let ghost kd = old_self.kids@[dst.0 as int];
        let s = src.0;
        let d = dst.0;
        proof {
            assert(self.wf_node(s as nat));
            assert(self.wf_node(d as nat));
            assert(anc(par, d as nat, 0) == Some(d as nat));
            assert(!in_sub(par, old_self.depth@, s as nat, d as nat));
        }
        match self.nodes[s].children {
            None => {
                proof {
                    assert forall|x: int| 0 <= x < par.len() implies par[x] != Some(s as nat) by {
                        assert(old_self.wf_node(x as nat));
                        assert(par[x] == opt_id(old_self.nodes@[x].parent));
                    }
                    assert(self@.parent =~= old_self@.reparented(s as nat, d as nat).parent);
                    assert(ks.len() == 0);
                    assert(kd + ks =~= kd);
                    assert(ks =~= Seq::<nat>::empty());
                    assert(self@.kids =~= old_self@.reparented(s as nat, d as nat).kids);
                }
            },
            Some((first, last)) => {
                let mut cur = Some(first);
                let ghost mut i: int = 0;
                while cur.is_some()
                    invariant
                        0 <= i <= ks.len(),
                        ks.len() > 0,
                        old_self.wf(),
                        s < old_self.len(),
                        d < old_self.len(),
                        ks == old_self.kids@[s as int],
                        cur == (if i < ks.len() { Some(NodeID(ks[i] as usize)) } else { None::<NodeID> }),
                        self.nodes@.len() == old_self.nodes@.len(),
                        self.kids == old_self.kids,
                        self.depth == old_self.depth,
                        forall|x: int| 0 <= x < self.nodes@.len() ==> #[trigger] self.nodes@[x] == (if ks.subrange(0, i).contains(x as nat) {
                            with_parent(old_self.nodes@[x], Some(NodeID(d)))
                        } else {
                            old_self.nodes@[x]
                        }),
                    decreases ks.len() - i,
                {
                    match cur {
                        None => {},
                        Some(c) => {
                            proof {
                                assert(old_self.wf_node(s as nat));
                                assert(old_self.wf_kid(s as nat, i));
                                assert(!ks.subrange(0, i).contains(c.0 as nat)) by {
                                    if ks.subrange(0, i).contains(c.0 as nat) {
                                        let m = choose|m: int| 0 <= m < i && ks.subrange(0, i)[m] == c.0 as nat;
                                        assert(ks[m] == ks[i]);
                                    }
                                }
                            }
                            self.nodes[c.0].parent = Some(NodeID(d));
                            cur = self.nodes[c.0].next_sibling;
                            proof {
                                assert forall|x: int| 0 <= x < self.nodes@.len() implies #[trigger] self.nodes@[x] == (if ks.subrange(0, i + 1).contains(x as nat) {
                                    with_parent(old_self.nodes@[x], Some(NodeID(d)))
                                } else {
                                    old_self.nodes@[x]
                                }) by {
                                    if ks.subrange(0, i).contains(x as nat) {
                                        let m = choose|m: int| 0 <= m < i && ks.subrange(0, i)[m] == x as nat;
                                        assert(ks.subrange(0, i + 1)[m] == x as nat);
                                    }
                                    if ks.subrange(0, i + 1).contains(x as nat) && x != c.0 {
                                        let m = choose|m: int| 0 <= m < i + 1 && #[trigger] ks.subrange(0, i + 1)[m] == x as nat;
                                        assert(ks.subrange(0, i)[m] == x as nat);
                                    }
                                    if x == c.0 {
                                        assert(ks.subrange(0, i + 1)[i] == x as nat);
                                    }
                                }
                                i = i + 1;
                            }
                        },
                    }
                }
                proof {
                    assert(ks.subrange(0, i) =~= ks);
                    assert(old_self.wf_kid(s as nat, 0));
                    assert(old_self.wf_kid(s as nat, ks.len() - 1));
                    if kd.len() > 0 {
                        assert(old_self.wf_kid(d as nat, kd.len() - 1));
                        if ks.contains(kd.last()) {
                            let m = choose|m: int| 0 <= m < ks.len() && ks[m] == kd.last();
                            assert(old_self.wf_kid(s as nat, m));
                        }
                    }
                }
                match self.nodes[d].children {
                    Some((new_first, new_last)) => {
                        self.nodes[d].children = Some((new_first, last));
                        self.nodes[first.0].previous_sibling = Some(new_last);
                        self.nodes[new_last.0].next_sibling = Some(first);
                    },
                    None => {
                        self.nodes[d].children = Some((first, last));
                    },
                }
                self.nodes[s].children = None;
                let ghost nkd = kd + ks;
                let ghost new_kids = old_self.kids@.update(d as int, nkd).update(s as int, Seq::<nat>::empty());
                let ghost new_depth = Seq::new(
                    old_self.depth@.len(),
                    |x: int|
                        if x != s && in_sub(par, old_self.depth@, s as nat, x as nat) {
                            (old_self.depth@[x] - old_self.depth@[s as int] + old_self.depth@[d as int]) as nat
                        } else {
                            old_self.depth@[x]
                        },
                );
                self.kids = Ghost(new_kids);
                self.depth = Ghost(new_depth);
                proof {
                    self.lemma_reparent_wf(old_self, s as nat, d as nat);
                }
            },
        }
        proof { assert(self.wf_node(d as nat)); }
        Some(&self.nodes[d])
    }

    /// The state reached by moving the children of `s` under `d` is well formed.
    #[verifier::rlimit(100)]
    #[verifier::spinoff_prover]
    proof fn lemma_reparent_wf(&self, old_self: Self, s: nat, d: nat)
        requires
            old_self.wf(),
            s < old_self.len(),
            d < old_self.len(),
            s != d,
            !old_self@.is_ancestor_or_self(s, d),
            old_self.kids@[s as int].len() > 0,
            self.nodes@.len() == old_self.nodes@.len(),
            self.kids@ == old_self.kids@.update(d as int, old_self.kids@[d as int] + old_self.kids@[s as int]).update(s as int, Seq::<nat>::empty()),
            self.depth@ == Seq::new(
                old_self.depth@.len(),
                |x: int|
                    if x != s && in_sub(old_self@.parent, old_self.depth@, s, x as nat) {
                        (old_self.depth@[x] - old_self.depth@[s as int] + old_self.depth@[d as int]) as nat
                    } else {
                        old_self.depth@[x]
                    },
            ),
            ({
                let ks = old_self.kids@[s as int];
                let kd = old_self.kids@[d as int];
                forall|x: int| 0 <= x < self.nodes@.len() ==> {
                    let o = old_self.nodes@[x];
                    let n = #[trigger] self.nodes@[x];
                    &&& n.id == o.id
                    &&& n.data == o.data
                    &&& n.parent == (if ks.contains(x as nat) { Some(NodeID(d as usize)) } else { o.parent })
                    &&& n.children == (if x == s {
                        None
                    } else if x == d {
                        Some((NodeID((kd + ks)[0] as usize), NodeID(ks.last() as usize)))
                    } else {
                        o.children
                    })
                    &&& n.previous_sibling == (if x == ks[0] && kd.len() > 0 {
                        Some(NodeID(kd.last() as usize))
                    } else {
                        o.previous_sibling
                    })
                    &&& n.next_sibling == (if kd.len() > 0 && x == kd.last() {
                        Some(NodeID(ks[0] as usize))
                    } else {
                        o.next_sibling
                    })
                }
            }),
        ensures
            self.wf(),
            self@ == old_self@.reparented(s, d),
    {
        let par = old_self@.parent;
        let depth = old_self.depth@;
        let ks = old_self.kids@[s as int];
        let kd = old_self.kids@[d as int];
        let nkd = kd + ks;
        assert(old_self.wf_node(s));
        assert(old_self.wf_node(d));
        assert(anc(par, d, 0) == Some(d));
        assert(!in_sub(par, depth, s, d));
        assert(nkd.last() == ks.last());
        assert(old_self.wf_kid(s, 0));
        if kd.len() > 0 {
            assert(old_self.wf_kid(d, kd.len() - 1));
        }
        assert forall|x: nat| ks.contains(x) implies x < old_self.len() && old_self.nodes@[x as int].parent == Some(NodeID(s as usize)) && !kd.contains(x) by {
            let m = choose|m: int| 0 <= m < ks.len() && ks[m] == x;
            assert(old_self.wf_kid(s, m));
            if kd.contains(x) {
                let m2 = choose|m: int| 0 <= m < kd.len() && kd[m] == x;
                assert(old_self.wf_kid(d, m2));
            }
        }
        assert forall|i: nat| i < self.len() implies #[trigger] self.wf_node(i) by {
            assert(old_self.wf_node(i));
            let o = old_self.nodes@[i as int];
            if ks.contains(i) {
                let m = choose|m: int| 0 <= m < ks.len() && ks[m] == i;
                assert(nkd[kd.len() + m] == i);
                assert(anc(par, i, 1) == Some(s)) by {
                    lemma_anc_one(par, i);
                }
                assert(in_sub(par, depth, s, i));
            } else if i != s {
                if let Some(q) = o.parent {
                    lemma_sub_step(par, depth, s, i, q.0 as nat);
                    if q.0 as nat == s {
                        assert(ks.contains(i));
                    }
                } else {
                    assert(anc(par, i, 0) == Some(i));
                }
            } else {
                if let Some(q) = o.parent {
                    assert(old_self.wf_node(q.0 as nat));
                    assert(q.0 != s);
                    assert(!(q.0 != s && in_sub(par, depth, s, q.0 as nat)));
                }
            }
            if !ks.contains(i) {
                if let Some(q) = o.parent {
                    if q.0 == d {
                        let m = choose|m: int| 0 <= m < kd.len() && kd[m] == i;
                        assert(nkd[m] == i);
                    }
                }
            }
            let n = self.nodes@[i as int];
            assert(n.id.0 == i);
            assert(match n.parent {
                Some(p) => {
                    &&& (p.0 as nat) < self.len()
                    &&& self.depth@[i as int] == self.depth@[p.0 as int] + 1
                },
                None => {
                    &&& self.depth@[i as int] == 0
                    &&& n.previous_sibling is None
                    &&& n.next_sibling is None
                },
            });
            assert(match n.parent {
                Some(p) => self.kids@[p.0 as int].contains(i),
                None => true,
            });
            if i == d {
                assert(nkd.no_duplicates()) by {
                    assert forall|a: int, b: int| 0 <= a < nkd.len() && 0 <= b < nkd.len() && a != b implies nkd[a] != nkd[b] by {
                        if a < kd.len() && b >= kd.len() {
                            assert(ks.contains(nkd[b]));
                            assert(kd.contains(nkd[a]));
                        } else if b < kd.len() && a >= kd.len() {
                            assert(ks.contains(nkd[a]));
                            assert(kd.contains(nkd[b]));
                        }
                    }
                }
                if kd.len() > 0 {
                    assert(nkd[0] == kd[0]);
                }
            }
        }
        assert forall|q: nat, jj: int|
            q < self.len() && 0 <= jj < self.kids@[q as int].len() implies #[trigger] self.wf_kid(q, jj) by {
            if q == d {
                if jj < kd.len() {
                    assert(old_self.wf_kid(d, jj));
                    assert(!ks.contains(kd[jj]));
                    if jj + 1 < kd.len() {
                        assert(kd[jj] != kd.last());
                    }
                } else {
                    let m = jj - kd.len();
                    assert(old_self.wf_kid(s, m));
                    assert(ks.contains(ks[m]));
                    if m > 0 {
                        assert(ks[m] != ks[0]);
                    }
                    if kd.len() > 0 {
                        assert(!kd.contains(ks[m]));
                    }
                }
            } else if q != s {
                assert(old_self.wf_kid(q, jj));
                let x = old_self.kids@[q as int][jj];
                assert(!ks.contains(x)) by {
                    if ks.contains(x) {
                        assert(old_self.nodes@[x as int].parent == Some(NodeID(s as usize)));
                    }
                }
                if kd.len() > 0 {
                    assert(old_self.wf_kid(d, kd.len() - 1));
                    assert(x != kd.last());
                }
                assert(x != ks[0]);
            }
        }
        assert(self@.data =~= old_self@.data);
        assert forall|x: int| 0 <= x < par.len() implies (par[x] == Some(s) <==> ks.contains(x as nat)) by {
            assert(old_self.wf_node(x as nat));
            if ks.contains(x as nat) {
            }
        }
        assert(self@.parent =~= old_self@.reparented(s, d).parent);
        assert(self@.kids =~= old_self@.reparented(s, d).kids);
    }

    /// Takes node `c` out of its parent's child list; without a parent it stays as it is.
    #[verifier::rlimit(100)]
    #[verifier::spinoff_prover]
    fn unlink(&mut self, c: usize)
        requires
            old(self).wf(),
            c < old(self).len(),
        ensures
            final(self).wf(),
            final(self)@ == old(self)@.detached(c as nat),
            final(self).len() == old(self).len(),
    {
        let ghost old_self = *self;
        let ghost par = old_self@.parent;
        proof {
            self.lemma_len();
            assert(self.wf_node(c as nat));
        }
        match self.nodes[c].parent {
            None => {},
            Some(pid) => {
                let p = pid.0;
                let prev = self.nodes[c].previous_sibling;
                let next = self.nodes[c].next_sibling;
                let ghost ks = self.kids@[p as int];
                let ghost j = ks.index_of(c as nat);
                let ghost nks = ks.remove(j);
                proof {
                    assert(self.wf_node(p as nat));
                    assert(self.wf_kid(p as nat, j));
                    lemma_index_of_unique(ks, c as nat, j);
                    if j > 0 {
                        assert(self.wf_kid(p as nat, j - 1));
                    }
                    if j + 1 < ks.len() {
                        assert(self.wf_kid(p as nat, j + 1));
                    }
                    assert(old_self@.parent[c as int] == Some(p as nat));
                }
                self.nodes[c].parent = None;
                self.nodes[c].previous_sibling = None;
                self.nodes[c].next_sibling = None;
                if let Some(ps) = prev {
                    self.nodes[ps.0].next_sibling = next;
                }
                if let Some(ns) = next {
                    self.nodes[ns.0].previous_sibling = prev;
                }
                let (first, last) = self.nodes[p].children.unwrap();
                if first.0 == last.0 {
                    self.nodes[p].children = None;
                } else if first.0 == c {
                    self.nodes[p].children = Some((next.unwrap(), last));
                } else if last.0 == c {
                    self.nodes[p].children = Some((first, prev.unwrap()));
                }
                let ghost new_kids = old_self.kids@.update(p as int, nks);
                let ghost new_depth = shifted(par, old_self.depth@, c as nat, 0);
                self.kids = Ghost(new_kids);
                self.depth = Ghost(new_depth);
                proof {
                    ks.remove_ensures(j);
                    assert(first.0 == last.0 ==> ks.len() == 1);
                    assert forall|i: nat| i < self.len() implies #[trigger] self.wf_node(i) by {
                        assert(old_self.wf_node(i));
                        let n = old_self.nodes@[i as int];
                        if i != c {
                            if let Some(q) = n.parent {
                                lemma_sub_step(par, old_self.depth@, c as nat, i, q.0 as nat);
                                if q.0 == p {
                                    let m = choose|m: int| 0 <= m < ks.len() && ks[m] == i;
                                    if m < j {
                                        assert(nks[m] == i);
                                    } else {
                                        assert(m != j);
                                        assert(nks[m - 1] == i);
                                    }
                                }
                            } else {
                                assert(!in_sub(par, old_self.depth@, c as nat, i));
                            }
                        } else {
                            assert(in_sub(par, old_self.depth@, c as nat, c as nat));
                        }
                        if i == p {
                            lemma_remove_no_dup(ks, j);
                        }
                    }
                    assert forall|q: nat, jj: int|
                        q < self.len() && 0 <= jj < self.kids@[q as int].len() implies #[trigger] self.wf_kid(q, jj) by {
                        if q != p {
                            assert(old_self.wf_kid(q, jj));
                            let x = old_self.kids@[q as int][jj];
                            assert(x != c);
                            if j > 0 {
                                assert(x != ks[j - 1]);
                            }
                            if j + 1 < ks.len() {
                                assert(x != ks[j + 1]);
                            }
                        } else if jj < j {
                            assert(old_self.wf_kid(q, jj));
                            if jj + 1 < j {
                                assert(old_self.wf_kid(q, jj + 1));
                            }
                            if j + 1 < ks.len() {
                                assert(ks[jj] != ks[j + 1]);
                            }
                        } else {
                            assert(old_self.wf_kid(q, jj + 1));
                            if j > 0 {
                                assert(ks[jj + 1] != ks[j - 1]);
                            }
                        }
                    }
                    assert(self@.data =~= old_self@.detached(c as nat).data);
                    assert(self@.parent =~= old_self@.detached(c as nat).parent);
                }
            },
        }
    }

    pub proof fn lemma_nonempty(&self)
        requires
            self.wf(),
        ensures
            0 < self@.len() < PHANTOM_ID,
    {
    }

    pub proof fn lemma_data(&self, i: nat)
        requires
            self.wf(),
            i < self@.len(),
        ensures
            self@.data[i as int] == self.node_at(i).data,
            self@.parent[i as int] == opt_id(self.node_at(i).parent),
            self.node_at(i).id == NodeID(i as usize),
    {
        assert(self.wf_node(i));
    }

    proof fn lemma_len(&self)
        requires
            self.wf(),
        ensures
            self@.len() == self.len(),
            self@.parent.len() == self.len(),
            self@.kids.len() == self.len(),
    {
    }

    proof fn lemma_prev(&self, i: nat)
        requires
            self.wf(),
            i < self.len(),
            self.node_at(i).previous_sibling is Some,
        ensures
            ({
                let q = opt_id(self.node_at(i).previous_sibling)->0;
                q < self.len() && self.node_at(q).next_sibling == Some(NodeID(i as usize))
            }),
    {
        assert(self.wf_node(i));
        let p = opt_id(self.nodes@[i as int].parent)->0;
        let j = choose|j: int| 0 <= j < self.kids@[p as int].len() && self.kids@[p as int][j] == i;
        assert(self.wf_kid(p, j));
        assert(self.wf_kid(p, j - 1));
        let q = self.kids@[p as int][j - 1];
        assert(self.wf_node(q));
    }
}

/// Depths after the subtree at `c` is moved so that `c` gets depth `base`.
pub closed spec fn shifted(parent: Seq<Option<nat>>, depth: Seq<nat>, c: nat, base: nat) -> Seq<nat> {
    Seq::new(
        depth.len(),
        |x: int|
            if in_sub(parent, depth, c, x as nat) {
                (depth[x] - depth[c as int] + base) as nat
            } else {
                depth[x]
            },
    )
}

impl<T> Tree<T> {
    /// Pre-order listing of the forest `xs`, each root before its subtree,
    /// going at most `fuel` levels down.
    pub closed spec fn forest(&self, xs: Seq<nat>, fuel: nat) -> Seq<nat>
        decreases fuel, xs.len(),
    {
        if xs.len() == 0 || fuel == 0 {
            seq![]
        } else {
            seq![xs[0]] + self.forest(self.kids@[xs[0] as int], (fuel - 1) as nat) + self.forest(
                xs.drop_first(),
                fuel,
            )
        }
    }

    /// Pre-order listing of the subtree at `x`: `x`, then the listing of each
    /// child's subtree in sibling order.
    pub closed spec fn preorder(&self, x: nat) -> Seq<nat> {
        self.forest(seq![x], self.len())
    }

    /// Children of `p`, first to last.
    pub closed spec fn children_of(&self, p: nat) -> Seq<nat> {
        self.kids@[p as int]
    }

    pub proof fn lemma_children_of(&self, p: nat)
        requires
            self.wf(),
            p < self@.len(),
        ensures
            self.children_of(p) == self@.kids[p as int],
            forall|j: int| 0 <= j < self.children_of(p).len() ==> #[trigger] self.children_of(p)[j] < self@.len(),
    {
        assert forall|j: int| 0 <= j < self.children_of(p).len() implies #[trigger] self.children_of(p)[j] < self@.len() by {
            assert(self.wf_kid(p, j));
        }
    }

    /// Every node listed in a pre-order walk is in the tree.
    pub proof fn lemma_forest_valid(&self, xs: Seq<nat>, fuel: nat)
        requires
            self.wf(),
            forall|i: int| 0 <= i < xs.len() ==> #[trigger] xs[i] < self@.len(),
        ensures
            forall|i: int| 0 <= i < self.forest(xs, fuel).len() ==> #[trigger] self.forest(xs, fuel)[i] < self@.len(),
        decreases fuel, xs.len(),
    {
        if xs.len() > 0 && fuel > 0 {
            self.lemma_children_of(xs[0]);
            self.lemma_forest_valid(self.kids@[xs[0] as int], (fuel - 1) as nat);
            assert forall|i: int| 0 <= i < xs.drop_first().len() implies #[trigger] xs.drop_first()[i] < self@.len() by {
                assert(xs.drop_first()[i] == xs[i + 1]);
            }
            self.lemma_forest_valid(xs.drop_first(), fuel);
            let a = seq![xs[0]];
            let b = self.forest(self.kids@[xs[0] as int], (fuel - 1) as nat);
            let c = self.forest(xs.drop_first(), fuel);
            assert forall|i: int| 0 <= i < self.forest(xs, fuel).len() implies #[trigger] self.forest(xs, fuel)[i] < self@.len() by {
                assert(self.forest(xs, fuel) == a + b + c);
                if i >= 1 + b.len() {
                    assert((a + b + c)[i] == c[i - 1 - b.len()]);
                } else if i >= 1 {
                    assert((a + b + c)[i] == b[i - 1]);
                }
            }
        }
    }

    proof fn lemma_forest_empty(&self, fuel: nat)
        ensures
            self.forest(Seq::<nat>::empty(), fuel) == Seq::<nat>::empty(),
    {
    }

    /// A forest lists its first tree, then the others.
    proof fn lemma_forest_cons(&self, xs: Seq<nat>, fuel: nat)
        requires
            xs.len() > 0,
        ensures
            self.forest(xs, fuel) == self.forest(seq![xs[0]], fuel) + self.forest(xs.drop_first(), fuel),
            fuel > 0 ==> self.forest(seq![xs[0]], fuel) == seq![xs[0]] + self.forest(
                self.kids@[xs[0] as int],
                (fuel - 1) as nat,
            ),
    {
        let one = seq![xs[0]];
        assert(one.drop_first() =~= Seq::<nat>::empty());
        self.lemma_forest_empty(fuel);
        if fuel > 0 {
            assert(one[0] == xs[0]);
            assert(self.forest(one, fuel) =~= seq![xs[0]] + self.forest(self.kids@[xs[0] as int], (fuel - 1) as nat));
        } else {
            assert(self.forest(xs, fuel) =~= Seq::<nat>::empty());
            assert(self.forest(one, fuel) =~= Seq::<nat>::empty());
        }
        assert(self.forest(xs, fuel) =~= self.forest(one, fuel) + self.forest(xs.drop_first(), fuel));
    }

    /// Appends the pre-order listing of the subtree at `x`, `fuel` levels deep, to `out`.
    fn collect_preorder(&self, x: usize, fuel: usize, out: &mut Vec<NodeID>)
        requires
            self.wf(),
            x < self.len(),
        ensures
            final(out)@.map_values(|i: NodeID| i.0 as nat) == old(out)@.map_values(|i: NodeID| i.0 as nat) + self.forest(seq![x as nat], fuel as nat),
        decreases fuel,
    {
        if fuel == 0 {
            assert(final(out)@.map_values(|i: NodeID| i.0 as nat) =~= old(out)@.map_values(|i: NodeID| i.0 as nat) + self.forest(seq![x as nat], fuel as nat));
            return;
        }
        let ghost ks = self.kids@[x as int];
        let ghost start = out@.map_values(|i: NodeID| i.0 as nat);
        out.push(NodeID(x));
        proof {
            assert(self.wf_node(x as nat));
            assert(out@.map_values(|i: NodeID| i.0 as nat) =~= start.push(x as nat));
            self.lemma_forest_cons(seq![x as nat], fuel as nat);
            assert(seq![x as nat][0] == x as nat);
            assert(ks.subrange(0, ks.len() as int) =~= ks);
            assert(start + self.forest(seq![x as nat], fuel as nat) =~= start.push(x as nat) + self.forest(ks, (fuel - 1) as nat));
        }
        let mut cur = match self.nodes[x].children {
            Some((first, _)) => Some(first),
            None => None,
        };
        let ghost mut i: int = 0;
        while cur.is_some()
            invariant
                self.wf(),
                x < self.len(),
                fuel > 0,
                ks == self.kids@[x as int],
                0 <= i <= ks.len(),
                cur == (if i < ks.len() { Some(NodeID(ks[i] as usize)) } else { None::<NodeID> }),
                start.push(x as nat) + self.forest(ks, (fuel - 1) as nat) == out@.map_values(|i: NodeID| i.0 as nat) + self.forest(ks.subrange(i, ks.len() as int), (fuel - 1) as nat),
            decreases ks.len() - i,
        {
            let c = cur.unwrap();
            proof {
                assert(self.wf_kid(x as nat, i));
            }
            let ghost before = out@.map_values(|i: NodeID| i.0 as nat);
            self.collect_preorder(c.0, fuel - 1, out);
            cur = self.nodes[c.0].next_sibling;
            proof {
                let rest = ks.subrange(i, ks.len() as int);
                assert(rest[0] == c.0);
                assert(rest.drop_first() =~= ks.subrange(i + 1, ks.len() as int));
                self.lemma_forest_cons(rest, (fuel - 1) as nat);
                assert(seq![rest[0]] == seq![c.0 as nat]);
                i = i + 1;
            }
        }
        proof {
            assert(ks.subrange(i, ks.len() as int) =~= Seq::<nat>::empty());
            self.lemma_forest_empty((fuel - 1) as nat);
            assert(out@.map_values(|i: NodeID| i.0 as nat) =~= start.push(x as nat) + self.forest(ks, (fuel - 1) as nat));
            assert(start + self.forest(seq![x as nat], fuel as nat) =~= start.push(x as nat) + self.forest(ks, (fuel - 1) as nat));
        }
    }
}

/// Walks the children of one node, first to last or last to first.
pub struct ChildrenTraverse<'a, T> {
    tree: &'a Tree<T>,
    cur: Option<NodeID>,
    reversed: bool,
    parent: Ghost<nat>,
    pos: Ghost<int>,
}

impl<'a, T> ChildrenTraverse<'a, T> {
    /// The children still to come, in the order they will come.
    pub closed spec fn rest(&self) -> Seq<nat> {
        let ks = self.tree.kids@[self.parent@ as int];
        if self.reversed {
            ks.subrange(0, self.pos@ + 1).reverse()
        } else {
            ks.subrange(self.pos@, ks.len() as int)
        }
    }

    pub closed spec fn tree_of(&self) -> &'a Tree<T> {
        self.tree
    }

    pub closed spec fn inv(&self) -> bool {
        let ks = self.tree.kids@[self.parent@ as int];
        &&& self.tree.wf()
        &&& self.parent@ < self.tree.len()
        &&& if self.reversed {
            -1 <= self.pos@ < ks.len()
        } else {
            0 <= self.pos@ <= ks.len()
        }
        &&& self.cur == (if 0 <= self.pos@ < ks.len() {
            Some(NodeID(ks[self.pos@] as usize))
        } else {
            None::<NodeID>
        })
    }

    /// Starts at the first child of `parent`, or at its last when `reversed`.
    pub fn new(tree: &'a Tree<T>, parent: &'a Node<T>, reversed: bool) -> (r: Self)
        requires
            tree.wf(),
            parent.id.0 < tree@.len(),
            *parent == tree.node_at(parent.id.0 as nat),
        ensures
            r.inv(),
            r.tree_of() == tree,
            r.rest() == (if reversed {
                tree.children_of(parent.id.0 as nat).reverse()
            } else {
                tree.children_of(parent.id.0 as nat)
            }),
    {
        let ghost p = parent.id.0 as nat;
        let ghost ks = tree.kids@[p as int];
        proof {
            assert(tree.wf_node(p));
        }
        let cur = match parent.children {
            Some((first, last)) => if reversed {
                Some(last)
            } else {
                Some(first)
            },
            None => None,
        };
        let ghost pos: int = if reversed { ks.len() - 1 } else { 0 };
        let r = ChildrenTraverse { tree, cur, reversed, parent: Ghost(p), pos: Ghost(pos) };
        proof {
            assert(ks.subrange(0, ks.len() as int) =~= ks);
        }
        r
    }

    /// The next child, with the tree it lives in.
    pub fn next(&mut self) -> (r: Option<(&'a Node<T>, &'a Tree<T>)>)
        requires
            old(self).inv(),
        ensures
            final(self).inv(),
            final(self).tree_of() == old(self).tree_of(),
            old(self).rest().len() == 0 ==> r is None && final(self).rest() == old(self).rest(),
            old(self).rest().len() > 0 ==> (r matches Some((n, t)) && n.id.0 == old(self).rest()[0]
                && (n.id.0 as nat) < t@.len()
                && *n == old(self).tree_of().node_at(old(self).rest()[0]) && t == old(self).tree_of())
                && final(self).rest() == old(self).rest().drop_first(),
    {
        let ghost ks = self.tree.kids@[self.parent@ as int];
        match self.cur {
            None => {
                proof {
                    if self.reversed {
                        assert(ks.subrange(0, self.pos@ + 1).len() == 0);
                    }
                }
                None
            },
            Some(c) => {
                proof {
                    assert(self.tree.wf_kid(self.parent@, self.pos@));
                    assert(self.tree.wf_node(c.0 as nat));
                    if self.pos@ + 1 < ks.len() {
                        assert(self.tree.wf_kid(self.parent@, self.pos@ + 1));
                    }
                    if self.pos@ > 0 {
                        assert(self.tree.wf_kid(self.parent@, self.pos@ - 1));
                    }
                }
                let tree = self.tree;
                let node = &tree.nodes[c.0];
                if self.reversed {
                    self.cur = node.previous_sibling;
                    self.pos = Ghost(self.pos@ - 1);
                    proof {
                        let old_rest = ks.subrange(0, self.pos@ + 2).reverse();
                        assert(old_rest.drop_first() =~= ks.subrange(0, self.pos@ + 1).reverse());
                        assert(old_rest[0] == ks[self.pos@ + 1]);
                    }
                } else {
                    self.cur = node.next_sibling;
                    self.pos = Ghost(self.pos@ + 1);
                    proof {
                        let old_rest = ks.subrange(self.pos@ - 1, ks.len() as int);
                        assert(old_rest.drop_first() =~= ks.subrange(self.pos@, ks.len() as int));
                    }
                }
                Some((node, tree))
            },
        }
    }
}

/// Walks a subtree in pre-order: each node before its children, children in
/// sibling order.  The order is worked out when the walk starts.
pub struct PreOrderTraverse<'a, T> {
    tree: &'a Tree<T>,
    order: Vec<NodeID>,
    pos: usize,
}

impl<'a, T> PreOrderTraverse<'a, T> {
    /// The nodes still to come, in the order they will come.
    pub closed spec fn rest(&self) -> Seq<nat> {
        self.order@.map_values(|i: NodeID| i.0 as nat).subrange(self.pos as int, self.order@.len() as int)
    }

    pub closed spec fn tree_of(&self) -> &'a Tree<T> {
        self.tree
    }

    pub closed spec fn inv(&self) -> bool {
        &&& self.tree.wf()
        &&& self.pos <= self.order@.len()
        &&& forall|i: int| 0 <= i < self.order@.len() ==> #[trigger] self.order@[i].0 < self.tree@.len()
    }

    /// Starts at `root`.
    pub fn new(tree: &'a Tree<T>, root: &'a Node<T>) -> (r: Self)
        requires
            tree.wf(),
            root.id.0 < tree@.len(),
        ensures
            r.inv(),
            r.tree_of() == tree,
            r.rest() == tree.preorder(root.id.0 as nat),
    {
        let mut order: Vec<NodeID> = Vec::new();
        proof { tree.lemma_len(); }
        tree.collect_preorder(root.id.0, tree.nodes.len(), &mut order);
        proof {
            assert(order@.map_values(|i: NodeID| i.0 as nat) =~= tree.preorder(root.id.0 as nat));
            tree.lemma_forest_valid(seq![root.id.0 as nat], tree.len());
            assert forall|i: int| 0 <= i < order@.len() implies #[trigger] order@[i].0 < tree@.len() by {
                assert(order@.map_values(|i: NodeID| i.0 as nat)[i] == order@[i].0);
            }
        }
        let r = PreOrderTraverse { tree, order, pos: 0 };
        proof {
            assert(r.rest() =~= tree.preorder(root.id.0 as nat));
        }
        r
    }

    /// The next node, with the tree it lives in.
    pub fn next(&mut self) -> (r: Option<(&'a Node<T>, &'a Tree<T>)>)
        requires
            old(self).inv(),
        ensures
            final(self).inv(),
            final(self).tree_of() == old(self).tree_of(),
            old(self).rest().len() == 0 ==> r is None && final(self).rest() == old(self).rest(),
            old(self).rest().len() > 0 ==> (r matches Some((n, t)) && n.id.0 == old(self).rest()[0]
                && (n.id.0 as nat) < t@.len()
                && *n == old(self).tree_of().node_at(old(self).rest()[0]) && t == old(self).tree_of())
                && final(self).rest() == old(self).rest().drop_first(),
    {
        if self.pos >= self.order.len() {
            return None;
        }
        let id = self.order[self.pos];
        let tree = self.tree;
        proof {
            tree.lemma_len();
            assert(tree.wf_node(id.0 as nat));
            assert(self.rest()[0] == id.0);
        }
        let ghost old_rest = self.rest();
        self.pos = self.pos + 1;
        proof {
            assert(self.rest() =~= old_rest.drop_first());
        }
        Some((&tree.nodes[id.0], tree))
    }
}

impl<T> Tree<T> {
    /// Following parents from `x` for `k` steps, where `k` is at most the
    /// depth of `x`, reaches a valid node `k` levels up.
    proof fn lemma_anc_depth(&self, x: nat, k: nat)
        requires
            self.wf(),
            x < self.len(),
            k <= self.depth@[x as int],
        ensures
            anc(self@.parent, x, k) matches Some(y) && y < self.len() && self.depth@[y as int] + k
                == self.depth@[x as int],
        decreases k,
    {
        if k > 0 {
            assert(self.wf_node(x));
            let p = opt_id(self.nodes@[x as int].parent)->0;
            assert(self@.parent[x as int] == Some(p));
            self.lemma_anc_depth(p, (k - 1) as nat);
        }
    }

    /// A node's depth is below the number of nodes: its ancestors are all
    /// distinct, being at distinct depths.
    proof fn lemma_depth_bound(&self, x: nat)
        requires
            self.wf(),
            x < self.len(),
        ensures
            self.depth@[x as int] < self.len(),
    {
        let d = self.depth@[x as int] as int;
        let f = |k: int| anc(self@.parent, x, k as nat)->0 as int;
        let dom = vstd::set_lib::set_int_range(0, d + 1);
        let all = vstd::set_lib::set_int_range(0, self.len() as int);
        vstd::set_lib::lemma_int_range(0, d + 1);
        vstd::set_lib::lemma_int_range(0, self.len() as int);
        assert forall|a: int, b: int| dom.contains(a) && dom.contains(b) && #[trigger] f(a) == #[trigger] f(b) implies a == b by {
            self.lemma_anc_depth(x, a as nat);
            self.lemma_anc_depth(x, b as nat);
        }
        assert(vstd::relations::injective_on(f, dom));
        let img = dom.map(f);
        vstd::set_lib::lemma_map_size(dom, img, f);
        assert(img.subset_of(all)) by {
            assert forall|y: int| img.contains(y) implies all.contains(y) by {
                let k = choose|k: int| dom.contains(k) && f(k) == y;
                self.lemma_anc_depth(x, k as nat);
            }
        }
        vstd::set_lib::lemma_len_subset(img, all);
    }

    /// A pre-order listing with enough fuel does not change with more.
    proof fn lemma_forest_fuel(&self, xs: Seq<nat>, f: nat, g: nat, d: nat)
        requires
            self.wf(),
            f <= g,
            forall|i: int| 0 <= i < xs.len() ==> #[trigger] xs[i] < self.len() && self.depth@[xs[i] as int] >= d,
            f + d >= self.len(),
        ensures
            self.forest(xs, f) == self.forest(xs, g),
        decreases f, xs.len(),
    {
        if xs.len() > 0 {
            let x = xs[0];
            self.lemma_depth_bound(x);
            assert(f > 0);
            self.lemma_children_of(x);
            assert forall|i: int| 0 <= i < self.kids@[x as int].len() implies #[trigger] self.kids@[x as int][i] < self.len() && self.depth@[self.kids@[x as int][i] as int] >= d + 1 by {
                assert(self.wf_kid(x, i));
                assert(self.wf_node(self.kids@[x as int][i]));
            }
            self.lemma_forest_fuel(self.kids@[x as int], (f - 1) as nat, (g - 1) as nat, d + 1);
            assert forall|i: int| 0 <= i < xs.drop_first().len() implies #[trigger] xs.drop_first()[i] < self.len() && self.depth@[xs.drop_first()[i] as int] >= d by {
                assert(xs.drop_first()[i] == xs[i + 1]);
            }
            self.lemma_forest_fuel(xs.drop_first(), f, g, d);
        }
    }

    /// A forest listing contains the listing of each of its trees.
    proof fn lemma_forest_contains(&self, xs: Seq<nat>, f: nat, j: int, y: nat)
        requires
            0 <= j < xs.len(),
            self.forest(seq![xs[j]], f).contains(y),
        ensures
            self.forest(xs, f).contains(y),
        decreases xs.len(),
    {
        self.lemma_forest_cons(xs, f);
        let a = self.forest(seq![xs[0]], f);
        let b = self.forest(xs.drop_first(), f);
        if j == 0 {
            let i = choose|i: int| 0 <= i < a.len() && a[i] == y;
            assert((a + b)[i] == y);
        } else {
            assert(xs.drop_first()[j - 1] == xs[j]);
            self.lemma_forest_contains(xs.drop_first(), f, j - 1, y);
            let i = choose|i: int| 0 <= i < b.len() && b[i] == y;
            assert((a + b)[a.len() + i] == y);
        }
    }

    /// The pre-order listing of `x` is `x` followed by the listings of its
    /// children, in sibling order.
    pub proof fn lemma_preorder_unfold(&self, x: nat)
        requires
            self.wf(),
            x < self@.len(),
        ensures
            self.preorder(x) == seq![x] + self.forest(self.children_of(x), self@.len()),
            self.forest(self.children_of(x), self@.len()) == (if self.children_of(x).len() == 0 {
                Seq::<nat>::empty()
            } else {
                self.preorder(self.children_of(x)[0]) + self.forest(self.children_of(x).drop_first(), self@.len())
            }),
    {
        let n = self.len();
        let ks = self.kids@[x as int];
        self.lemma_forest_cons(seq![x], n);
        assert(seq![x][0] == x);
        self.lemma_depth_bound(x);
        self.lemma_children_of(x);
        assert forall|i: int| 0 <= i < ks.len() implies #[trigger] ks[i] < self.len() && self.depth@[ks[i] as int] >= self.depth@[x as int] + 1 by {
            assert(self.wf_kid(x, i));
            assert(self.wf_node(ks[i]));
        }
        self.lemma_forest_fuel(ks, (n - 1) as nat, n, self.depth@[x as int] + 1);
        assert(seq![x].drop_first() =~= Seq::<nat>::empty());
        if ks.len() > 0 {
            self.lemma_forest_cons(ks, n);
        }
    }

    /// The pre-order listings of the nodes `ks`, one after the other.
    pub open spec fn listings(&self, ks: Seq<nat>) -> Seq<nat>
        decreases ks.len(),
    {
        if ks.len() == 0 {
            seq![]
        } else {
            self.preorder(ks[0]) + self.listings(ks.drop_first())
        }
    }

    proof fn lemma_forest_listings(&self, ks: Seq<nat>)
        ensures
            self.forest(ks, self@.len()) == self.listings(ks),
        decreases ks.len(),
    {
        if ks.len() == 0 {
            self.lemma_forest_empty(self@.len());
        } else {
            self.lemma_forest_cons(ks, self@.len());
            self.lemma_forest_listings(ks.drop_first());
        }
    }

    /// The pre-order listing of `x` is `x`, then the listing of each child's
    /// subtree, children in sibling order.
    pub proof fn lemma_preorder_equation(&self, x: nat)
        requires
            self.wf(),
            x < self@.len(),
        ensures
            self.preorder(x) == seq![x] + self.listings(self.children_of(x)),
            self.children_of(x) == self@.kids[x as int],
    {
        self.lemma_preorder_unfold(x);
        self.lemma_forest_listings(self.children_of(x));
        self.lemma_children_of(x);
    }

    /// In a pre-order listing every node but the first comes after its parent.
    proof fn lemma_forest_parent_first(&self, xs: Seq<nat>, f: nat, k: int)
        requires
            self.wf(),
            forall|i: int| 0 <= i < xs.len() ==> #[trigger] xs[i] < self.len(),
            0 <= k < self.forest(xs, f).len(),
        ensures
            xs.contains(self.forest(xs, f)[k]) || exists|j: int|
                0 <= j < k && self@.parent[self.forest(xs, f)[k] as int] == Some(#[trigger] self.forest(xs, f)[j]),
        decreases f, xs.len(),
    {
        self.lemma_forest_cons(xs, f);
        let x = xs[0];
        let a = seq![x];
        let b = self.forest(self.kids@[x as int], (f - 1) as nat);
        let c = self.forest(xs.drop_first(), f);
        let all = a + b + c;
        assert(f > 0);
        assert(self.forest(xs, f) == all);
        let y = all[k];
        if k == 0 {
            assert(xs[0] == y);
        } else if k < 1 + b.len() {
            assert(b[k - 1] == y);
            self.lemma_children_of(x);
            self.lemma_forest_parent_first(self.kids@[x as int], (f - 1) as nat, k - 1);
            if self.kids@[x as int].contains(y) {
                let m = choose|m: int| 0 <= m < self.kids@[x as int].len() && self.kids@[x as int][m] == y;
                assert(self.wf_kid(x, m));
                self.lemma_data(y);
                assert(all[0] == x);
            } else {
                let j = choose|j: int| 0 <= j < k - 1 && self@.parent[y as int] == Some(#[trigger] b[j]);
                assert(all[j + 1] == b[j]);
            }
        } else {
            let kc = k - 1 - b.len();
            assert(c[kc] == y);
            assert forall|q: int| 0 <= q < xs.drop_first().len() implies #[trigger] xs.drop_first()[q] < self.len() by {
                assert(xs.drop_first()[q] == xs[q + 1]);
            }
            self.lemma_forest_parent_first(xs.drop_first(), f, kc);
            if xs.drop_first().contains(y) {
                let m = choose|m: int| 0 <= m < xs.drop_first().len() && xs.drop_first()[m] == y;
                assert(xs[m + 1] == y);
            } else {
                let j = choose|j: int| 0 <= j < kc && self@.parent[y as int] == Some(#[trigger] c[j]);
                assert(all[j + 1 + b.len()] == c[j]);
            }
        }
    }

    /// In the pre-order listing of `x`, every node but `x` comes after its
    /// parent.
    pub proof fn lemma_preorder_parent_first(&self, x: nat, k: int)
        requires
            self.wf(),
            x < self@.len(),
            0 < k < self.preorder(x).len(),
        ensures
            exists|j: int| 0 <= j < k && self@.parent[self.preorder(x)[k] as int] == Some(#[trigger] self.preorder(x)[j]),
    {
        let xs = seq![x];
        assert(xs[0] == x);
        self.lemma_forest_parent_first(xs, self.len(), k);
        self.lemma_preorder_distinct(x);
        self.lemma_preorder_unfold(x);
        assert(self.preorder(x)[0] == x);
        if xs.contains(self.preorder(x)[k]) {
            assert(self.preorder(x)[k] == x);
        }
    }

    /// Where appending `c` under `t` may go directly, it may go after `c` is
    /// detached too, and both give the same tree.
    pub proof fn lemma_detach_then_append_ok(&self, c: nat, t: nat)
        requires
            self.wf(),
            c < self@.len(),
            t < self@.len(),
            !self@.is_ancestor_or_self(c, t),
        ensures
            !self@.detached(c).is_ancestor_or_self(c, t),
            self@.detached(c).appended(t, c) == self@.appended(t, c),
    {
        self.lemma_len();
        assert forall|i: nat| #[trigger] anc(self@.parent, t, i) matches Some(y) ==> y < self@.parent.len() by {
            self.lemma_anc_valid(t, i);
        }
        lemma_detach_keeps_unrelated(self@, c, t);
    }

    /// The pre-order listing of `x` reaches every node below `x`.
    pub proof fn lemma_preorder_complete(&self, x: nat, y: nat)
        requires
            self.wf(),
            x < self@.len(),
            y < self@.len(),
            self@.is_ancestor_or_self(x, y),
        ensures
            self.preorder(x).contains(y),
    {
        let k = choose|k: nat| anc(self@.parent, y, k) == Some(x);
        self.lemma_complete_k(x, y, k);
    }

    proof fn lemma_complete_k(&self, x: nat, y: nat, k: nat)
        requires
            self.wf(),
            x < self@.len(),
            y < self@.len(),
            anc(self@.parent, y, k) == Some(x),
        ensures
            self.preorder(x).contains(y),
        decreases k,
    {
        self.lemma_preorder_unfold(x);
        if k == 0 {
            assert(self.preorder(x)[0] == x);
        } else {
            // the node one level below `x` on the way to `y`
            lemma_anc_add(self@.parent, y, (k - 1) as nat, 1);
            self.lemma_anc_valid(y, (k - 1) as nat);
            let c = anc(self@.parent, y, (k - 1) as nat)->0;
            lemma_anc_one(self@.parent, c);
            self.lemma_data(c);
            assert(self.wf_node(c));
            let ks = self.kids@[x as int];
            let j = choose|j: int| 0 <= j < ks.len() && ks[j] == c;
            self.lemma_complete_k(c, y, (k - 1) as nat);
            self.lemma_children_of(x);
            self.lemma_forest_contains(ks, self.len(), j, y);
            let rest = self.forest(ks, self.len());
            let i = choose|i: int| 0 <= i < rest.len() && rest[i] == y;
            assert((seq![x] + rest)[i + 1] == y);
        }
    }

    /// Every node in a pre-order listing lies below one of the listed roots.
    proof fn lemma_forest_sound(&self, xs: Seq<nat>, f: nat, y: nat)
        requires
            self.wf(),
            forall|i: int| 0 <= i < xs.len() ==> #[trigger] xs[i] < self.len(),
            self.forest(xs, f).contains(y),
        ensures
            y < self.len(),
            exists|i: int, k: nat| 0 <= i < xs.len() && #[trigger] anc(self@.parent, y, k) == Some(#[trigger] xs[i]),
        decreases f, xs.len(),
    {
        self.lemma_forest_cons(xs, f);
        let x = xs[0];
        let a = seq![x];
        let b = self.forest(self.kids@[x as int], (f - 1) as nat);
        let c = self.forest(xs.drop_first(), f);
        assert(f > 0);
        assert(self.forest(xs, f) == a + b + c);
        let i = choose|i: int| 0 <= i < (a + b + c).len() && (a + b + c)[i] == y;
        if i == 0 {
            assert(anc(self@.parent, y, 0) == Some(xs[0]));
        } else if i < 1 + b.len() {
            assert(b[i - 1] == y);
            self.lemma_children_of(x);
            self.lemma_forest_sound(self.kids@[x as int], (f - 1) as nat, y);
            let (j, k) = choose|j: int, k: nat| 0 <= j < self.kids@[x as int].len() && #[trigger] anc(self@.parent, y, k) == Some(#[trigger] self.kids@[x as int][j]);
            let ch = self.kids@[x as int][j];
            assert(self.wf_kid(x, j));
            self.lemma_data(ch);
            lemma_anc_add(self@.parent, y, k, 1);
            lemma_anc_one(self@.parent, ch);
            assert(anc(self@.parent, y, k + 1) == Some(xs[0]));
        } else {
            assert(c[i - 1 - b.len()] == y);
            assert forall|q: int| 0 <= q < xs.drop_first().len() implies #[trigger] xs.drop_first()[q] < self.len() by {
                assert(xs.drop_first()[q] == xs[q + 1]);
            }
            self.lemma_forest_sound(xs.drop_first(), f, y);
            let (j, k) = choose|j: int, k: nat| 0 <= j < xs.drop_first().len() && #[trigger] anc(self@.parent, y, k) == Some(#[trigger] xs.drop_first()[j]);
            assert(xs.drop_first()[j] == xs[j + 1]);
        }
    }

    /// A pre-order listing of distinct roots at one depth lists no node twice.
    proof fn lemma_forest_distinct(&self, xs: Seq<nat>, f: nat, d: nat)
        requires
            self.wf(),
            xs.no_duplicates(),
            forall|i: int| 0 <= i < xs.len() ==> #[trigger] xs[i] < self.len() && self.depth@[xs[i] as int] == d,
        ensures
            self.forest(xs, f).no_duplicates(),
        decreases f, xs.len(),
    {
        if xs.len() > 0 && f > 0 {
            self.lemma_forest_cons(xs, f);
            let x = xs[0];
            let ks = self.kids@[x as int];
            let a = seq![x];
            let b = self.forest(ks, (f - 1) as nat);
            let rest = xs.drop_first();
            let c = self.forest(rest, f);
            assert(self.wf_node(x));
            self.lemma_children_of(x);
            assert forall|i: int| 0 <= i < ks.len() implies #[trigger] ks[i] < self.len() && self.depth@[ks[i] as int] == d + 1 by {
                assert(self.wf_kid(x, i));
                assert(self.wf_node(ks[i]));
            }
            self.lemma_forest_distinct(ks, (f - 1) as nat, d + 1);
            assert forall|i: int| 0 <= i < rest.len() implies #[trigger] rest[i] < self.len() && self.depth@[rest[i] as int] == d by {
                assert(rest[i] == xs[i + 1]);
            }
            assert(rest.no_duplicates()) by {
                assert forall|i: int, j: int| 0 <= i < rest.len() && 0 <= j < rest.len() && i != j implies rest[i] != rest[j] by {
                    assert(rest[i] == xs[i + 1] && rest[j] == xs[j + 1]);
                }
            }
            self.lemma_forest_distinct(rest, f, d);
            // a node listed under a child of `x` sits deeper than `d` and has
            // `x` above it; one listed under a later root has that root above it
            assert forall|y: nat| b.contains(y) implies y < self.len() && exists|k: nat| k >= 1 && #[trigger] anc(self@.parent, y, k) == Some(x) && self.depth@[y as int] == d + k by {
                self.lemma_forest_sound(ks, (f - 1) as nat, y);
                let (j, k) = choose|j: int, k: nat| 0 <= j < ks.len() && #[trigger] anc(self@.parent, y, k) == Some(#[trigger] ks[j]);
                let ch = ks[j];
                assert(self.wf_kid(x, j));
                self.lemma_data(ch);
                lemma_anc_add(self@.parent, y, k, 1);
                lemma_anc_one(self@.parent, ch);
                self.lemma_anc_depth_any(y, k);
                assert(anc(self@.parent, y, k + 1) == Some(x));
            }
            assert forall|y: nat| c.contains(y) implies exists|i: int, k: nat| 1 <= i < xs.len() && #[trigger] anc(self@.parent, y, k) == Some(#[trigger] xs[i]) && self.depth@[y as int] == d + k by {
                self.lemma_forest_sound(rest, f, y);
                let (j, k) = choose|j: int, k: nat| 0 <= j < rest.len() && #[trigger] anc(self@.parent, y, k) == Some(#[trigger] rest[j]);
                assert(rest[j] == xs[j + 1]);
                self.lemma_anc_depth_any(y, k);
            }
            let all = a + b + c;
            assert(self.forest(xs, f) == all);
            assert forall|i: int, j: int| 0 <= i < j < all.len() implies all[i] != all[j] by {
                let y = all[i];
                if j < 1 + b.len() {
                    if i == 0 {
                        assert(b.contains(all[j]));
                        if all[j] == x {
                            let k = choose|k: nat| k >= 1 && #[trigger] anc(self@.parent, x, k) == Some(x) && self.depth@[x as int] == d + k;
                        }
                    } else {
                        assert(b[i - 1] == all[i] && b[j - 1] == all[j]);
                    }
                } else {
                    assert(c.contains(all[j]));
                    let z = all[j];
                    let (q, k2) = choose|q: int, k2: nat| 1 <= q < xs.len() && #[trigger] anc(self@.parent, z, k2) == Some(#[trigger] xs[q]) && self.depth@[z as int] == d + k2;
                    if i == 0 {
                        if z == x {
                            assert(k2 == 0);
                            assert(xs[q] == xs[0]);
                        }
                    } else if i < 1 + b.len() {
                        assert(b.contains(all[i]));
                        if z == y {
                            let k1 = choose|k: nat| k >= 1 && #[trigger] anc(self@.parent, y, k) == Some(x) && self.depth@[y as int] == d + k;
                            assert(k2 == k1);
                            assert(xs[q] == xs[0]);
                        }
                    } else {
                        assert(c[i - 1 - b.len()] == all[i] && c[j - 1 - b.len()] == all[j]);
                    }
                }
            }
        }
    }

    /// The pre-order listing of `x` names no node twice.
    pub proof fn lemma_preorder_distinct(&self, x: nat)
        requires
            self.wf(),
            x < self@.len(),
        ensures
            self.preorder(x).no_duplicates(),
            forall|y: nat| #[trigger] self.preorder(x).contains(y) ==> y < self@.len() && self@.is_ancestor_or_self(x, y),
    {
        let xs = seq![x];
        assert(xs[0] == x);
        self.lemma_forest_distinct(xs, self.len(), self.depth@[x as int]);
        assert forall|y: nat| #[trigger] self.preorder(x).contains(y) implies y < self@.len() && self@.is_ancestor_or_self(x, y) by {
            self.lemma_forest_sound(xs, self.len(), y);
            let (i, k) = choose|i: int, k: nat| 0 <= i < xs.len() && #[trigger] anc(self@.parent, y, k) == Some(#[trigger] xs[i]);
        }
    }

    /// Well-formedness, spelled out: a node is in the child list of exactly
    /// its parent; the first/last links and the sibling links of every child
    /// list form a doubly linked list that ends in `None` both ways; and no
    /// node is its own proper ancestor.
    pub proof fn lemma_tree_invariants(&self)
        requires
            self.wf(),
        ensures
            forall|x: nat, p: nat|
                x < self@.len() && p < self@.len() ==> (#[trigger] self@.kids[p as int].contains(x)
                    <==> self@.parent[x as int] == Some(p)),
            forall|p: nat|
                p < self@.len() ==> #[trigger] self.node_at(p).children == (if self@.kids[p as int].len() == 0 {
                    None
                } else {
                    Some((NodeID(self@.kids[p as int][0] as usize), NodeID(self@.kids[p as int].last() as usize)))
                }),
            forall|p: nat, j: int|
                p < self@.len() && 0 <= j < self@.kids[p as int].len() ==> {
                    &&& #[trigger] self@.kids[p as int][j] < self@.len()
                    &&& opt_id(self.node_at(self@.kids[p as int][j]).previous_sibling) == (if j == 0 {
                        None
                    } else {
                        Some(self@.kids[p as int][j - 1])
                    })
                    &&& opt_id(self.node_at(self@.kids[p as int][j]).next_sibling) == (if j + 1
                        == self@.kids[p as int].len() {
                        None
                    } else {
                        Some(self@.kids[p as int][j + 1])
                    })
                },
            forall|x: nat, k: nat| x < self@.len() && k > 0 ==> #[trigger] anc(self@.parent, x, k) != Some(x),
            self@.parent[0] is None,
            forall|x: nat| x < self@.len() ==> (#[trigger] self@.parent[x as int] matches Some(p) ==> p < self@.len()),
            self@.parent.len() == self@.len(),
            self@.kids.len() == self@.len(),
            forall|x: nat|
                x < self@.len() && #[trigger] self@.parent[x as int] is None ==> self.node_at(x).previous_sibling is None
                    && self.node_at(x).next_sibling is None,
            forall|x: nat| x < self@.len() ==> #[trigger] self@.reaches_root(x),
    {
        self.lemma_len();
        self.lemma_data(0);
        assert forall|x: nat| x < self@.len() implies (#[trigger] self@.parent[x as int] matches Some(p) ==> p < self@.len()) by {
            self.lemma_data(x);
            assert(self.wf_node(x));
        }
        assert forall|x: nat|
            x < self@.len() && #[trigger] self@.parent[x as int] is None implies self.node_at(x).previous_sibling is None
                && self.node_at(x).next_sibling is None by {
            self.lemma_data(x);
            assert(self.wf_node(x));
        }
        assert forall|x: nat| x < self@.len() implies #[trigger] self@.reaches_root(x) by {
            let d = self.depth@[x as int];
            self.lemma_anc_depth(x, d);
            let y = anc(self@.parent, x, d)->0;
            assert(self.wf_node(y));
            self.lemma_data(y);
        }
        assert forall|x: nat, p: nat| x < self@.len() && p < self@.len() implies (#[trigger] self@.kids[p as int].contains(x)
            <==> self@.parent[x as int] == Some(p)) by {
            self.lemma_data(x);
            assert(self.wf_node(x));
            if self@.kids[p as int].contains(x) {
                let j = choose|j: int| 0 <= j < self@.kids[p as int].len() && self@.kids[p as int][j] == x;
                assert(self.wf_kid(p, j));
            }
        }
        assert forall|p: nat| p < self@.len() implies #[trigger] self.node_at(p).children == (if self@.kids[p as int].len() == 0 {
            None
        } else {
            Some((NodeID(self@.kids[p as int][0] as usize), NodeID(self@.kids[p as int].last() as usize)))
        }) by {
            assert(self.wf_node(p));
        }
        assert forall|p: nat, j: int| p < self@.len() && 0 <= j < self@.kids[p as int].len() implies {
            &&& #[trigger] self@.kids[p as int][j] < self@.len()
            &&& opt_id(self.node_at(self@.kids[p as int][j]).previous_sibling) == (if j == 0 {
                None
            } else {
                Some(self@.kids[p as int][j - 1])
            })
            &&& opt_id(self.node_at(self@.kids[p as int][j]).next_sibling) == (if j + 1
                == self@.kids[p as int].len() {
                None
            } else {
                Some(self@.kids[p as int][j + 1])
            })
        } by {
            assert(self.wf_kid(p, j));
        }
        assert forall|x: nat, k: nat| x < self@.len() && k > 0 implies #[trigger] anc(self@.parent, x, k) != Some(x) by {
            if anc(self@.parent, x, k) == Some(x) {
                self.lemma_anc_depth_any(x, k);
            }
        }
    }

    /// Each step up the parent chain lowers the depth by one.
    proof fn lemma_anc_depth_any(&self, x: nat, k: nat)
        requires
            self.wf(),
            x < self.len(),
        ensures
            anc(self@.parent, x, k) matches Some(y) ==> y < self.len() && self.depth@[y as int] + k
                == self.depth@[x as int],
        decreases k,
    {
        if k > 0 {
            assert(self.wf_node(x));
            if let Some(p) = self@.parent[x as int] {
                self.lemma_data(x);
                self.lemma_anc_depth_any(p, (k - 1) as nat);
            }
        }
    }
}

impl<T> TreeModel<T> {
    /// Detaching a node and then appending it somewhere gives the same tree
    /// as appending it there directly.
    pub proof fn lemma_detach_then_append(self, c: nat, t: nat)
        requires
            c < self.parent.len(),
        ensures
            self.detached(c).appended(t, c) == self.appended(t, c),
            self.detached(c).detached(c) == self.detached(c),
    {
    }
}

/// `n` with its parent link replaced.
pub open spec fn with_parent<T>(n: Node<T>, p: Option<NodeID>) -> Node<T> {
    Node {
        id: n.id,
        data: n.data,
        parent: p,
        children: n.children,
        previous_sibling: n.previous_sibling,
        next_sibling: n.next_sibling,
    }
}

/// A parent and its child are on the same side of the subtree boundary at `c`,
/// unless the child is `c` itself.
proof fn lemma_sub_step(parent: Seq<Option<nat>>, depth: Seq<nat>, c: nat, x: nat, q: nat)
    requires
        parent[x as int] == Some(q),
        depth[x as int] == depth[q as int] + 1,
        x != c,
    ensures
        in_sub(parent, depth, c, x) <==> in_sub(parent, depth, c, q),
{
    if in_sub(parent, depth, c, x) {
        let k = (depth[x as int] - depth[c as int]) as nat;
        assert(k != 0);
        assert(anc(parent, x, k) == anc(parent, q, (k - 1) as nat));
    }
    if in_sub(parent, depth, c, q) {
        let k = (depth[q as int] - depth[c as int]) as nat;
        assert(anc(parent, x, k + 1) == anc(parent, q, k));
    }
}

/// One step up is the parent.
pub proof fn lemma_anc_one(parent: Seq<Option<nat>>, x: nat)
    ensures
        anc(parent, x, 1) == parent[x as int],
{
    if let Some(p) = parent[x as int] {
        assert(anc(parent, p, 0) == Some(p));
    }
}

/// Walking `k + m` steps is walking `k` steps, then `m`.
pub proof fn lemma_anc_add(parent: Seq<Option<nat>>, x: nat, k: nat, m: nat)
    ensures
        anc(parent, x, k + m) == (match anc(parent, x, k) {
            Some(y) => anc(parent, y, m),
            None => None,
        }),
    decreases k,
{
    if k > 0 {
        if let Some(p) = parent[x as int] {
            lemma_anc_add(parent, p, (k - 1) as nat, m);
            assert(anc(parent, x, k + m) == anc(parent, p, (k + m - 1) as nat));
        }
    }
}

/// Two parent sequences that differ only at `c` give the same chain from `x`
/// for as long as that chain avoids `c`.
proof fn lemma_anc_frame(p1: Seq<Option<nat>>, p2: Seq<Option<nat>>, c: nat, x: nat, k: nat)
    requires
        p1.len() == p2.len(),
        forall|i: int| 0 <= i < p1.len() && i != c ==> p1[i] == p2[i],
        forall|i: nat| i < k ==> anc(p1, x, i) != Some(c),
        forall|i: nat| i < k ==> (#[trigger] anc(p1, x, i) matches Some(y) ==> y < p1.len()),
    ensures
        anc(p2, x, k) == anc(p1, x, k),
    decreases k,
{
    if k > 0 {
        assert(anc(p1, x, 0) == Some(x));
        if let Some(p) = p1[x as int] {
            assert forall|i: nat| i < k - 1 implies anc(p1, p, i) != Some(c) && (anc(p1, p, i) matches Some(y) ==> y < p1.len()) by {
                assert(anc(p1, x, i + 1) == anc(p1, p, i));
            }
            lemma_anc_frame(p1, p2, c, p, (k - 1) as nat);
        }
    }
}

/// Detaching `c` does not make it an ancestor of a node it was not above.
proof fn lemma_detach_keeps_unrelated<T>(m: TreeModel<T>, c: nat, t: nat)
    requires
        c < m.parent.len(),
        !m.is_ancestor_or_self(c, t),
        forall|i: nat| #[trigger] anc(m.parent, t, i) matches Some(y) ==> y < m.parent.len(),
    ensures
        !m.detached(c).is_ancestor_or_self(c, t),
{
    let p2 = m.detached(c).parent;
    assert forall|k: nat| anc(p2, t, k) != Some(c) by {
        assert(anc(m.parent, t, k) != Some(c));
        lemma_anc_frame(m.parent, p2, c, t, k);
    }
}

proof fn lemma_index_of_unique(s: Seq<nat>, v: nat, j: int)
    requires
        s.no_duplicates(),
        s.contains(v),
        j == s.index_of(v),
    ensures
        0 <= j < s.len(),
        s[j] == v,
{
}

proof fn lemma_remove_no_dup(s: Seq<nat>, j: int)
    requires
        s.no_duplicates(),
        0 <= j < s.len(),
    ensures
        s.remove(j).no_duplicates(),
{
    s.remove_ensures(j);
    let r = s.remove(j);
    assert forall|a: int, b: int| 0 <= a < r.len() && 0 <= b < r.len() && a != b implies r[a] != r[b] by {
        let a2 = if a < j { a } else { a + 1 };
        let b2 = if b < j { b } else { b + 1 };
        assert(r[a] == s[a2]);
        assert(r[b] == s[b2]);
    }
}

} // verus!
