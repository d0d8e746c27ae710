//! Building a document from the structural events of a markup parser.
//!
//! The parser creates nodes, appends them, inserts them before siblings,
//! moves children, and reports errors; each event is one method here.
//! Text appended next to an existing text node is merged into it.
use vstd::prelude::*;
use crate::chars::{chars_of, eq_chars};
use crate::html::dom::{lookup, lookup_last, unique_names, Attribute, Comment, DocType, DomNode, Element, ProcessingInstruction, QualName, Text, merged};
use crate::html::{Html, QuirksMode};
use crate::tree::{opt_id, NodeID, TreeModel};

verus! {

/// What the parser hands over to append: a node it created, or text.
pub enum NodeOrText {
    AppendNode(NodeID),
    AppendText(String),
}

pub open spec fn html_ns() -> Seq<char> {
    "http://www.w3.org/1999/xhtml"@
}

pub open spec fn template_name() -> Seq<char> {
    "template"@
}

/// An HTML `template` element name.
pub open spec fn is_template(n: QualName) -> bool {
    n.ns@ == html_ns() && n.local@ == template_name()
}

/// The last child of `p` holds text.
pub open spec fn last_is_text(m: TreeModel<DomNode>, p: nat) -> bool {
    m.kids[p as int].len() > 0 && m.data[m.kids[p as int].last() as int] is Text
}

/// The text held by node `x`, if any.
pub open spec fn text_at(m: TreeModel<DomNode>, x: nat) -> Option<Seq<char>> {
    match m.data[x as int] {
        DomNode::Text(t) => Some(t.text@),
        _ => None,
    }
}

/// `a` and `b` agree but for the text of node `x`, which in `b` is that of
/// `a` followed by `t`.
pub open spec fn extends_text(a: TreeModel<DomNode>, b: TreeModel<DomNode>, x: nat, t: Seq<char>) -> bool {
    &&& b.parent == a.parent
    &&& b.kids == a.kids
    &&& b.data.len() == a.data.len()
    &&& forall|i: int| 0 <= i < a.data.len() && i != x ==> b.data[i] == a.data[i]
    &&& a.data[x as int] is Text
    &&& b.data[x as int] is Text
    &&& text_at(b, x) == Some(text_at(a, x)->0 + t)
}

/// The outcome `r`, `b` of appending `child` as the last child of `parent`
/// in `a`; text right after a text child is merged into it.
pub open spec fn append_effect(a: TreeModel<DomNode>, b: TreeModel<DomNode>, parent: nat, child: NodeOrText, r: bool) -> bool {
    &&& !r ==> b == a
    &&& match child {
        NodeOrText::AppendNode(n) => {
            &&& r <==> parent < a.len() && n.0 < a.len() && n.0 != 0 && !a.is_ancestor_or_self(n.0 as nat, parent)
            &&& r ==> b == a.appended(parent, n.0 as nat)
        },
        NodeOrText::AppendText(t) => {
            &&& r <==> parent < a.len()
            &&& r && last_is_text(a, parent) ==> extends_text(a, b, a.kids[parent as int].last(), t@)
            &&& r && !last_is_text(a, parent) ==> b == a.pushed(DomNode::Text(Text { text: t })).appended(
                parent,
                a.len(),
            )
        },
    }
}

/// The text node right before `s` among its siblings, if there is one.
pub open spec fn prev_text(a: TreeModel<DomNode>, s: nat) -> Option<nat> {
    let ks = a.kids[a.parent[s as int]->0 as int];
    let i = ks.index_of(s);
    if i > 0 && a.data[ks[i - 1] as int] is Text {
        Some(ks[i - 1])
    } else {
        None
    }
}

/// The outcome `r`, `b` of placing `child` right before `s` in `a`: a node is
/// detached first; text right after a text sibling is merged into it.
pub open spec fn before_effect(a: TreeModel<DomNode>, b: TreeModel<DomNode>, s: nat, child: NodeOrText, r: bool) -> bool {
    match child {
        NodeOrText::AppendNode(n) => {
            let m = if n.0 < a.len() {
                a.detached(n.0 as nat)
            } else {
                a
            };
            &&& r <==> s < m.len() && n.0 < m.len() && n.0 != 0 && m.parent[s as int] is Some && s != n.0
                && !m.is_ancestor_or_self(n.0 as nat, m.parent[s as int]->0)
            &&& r ==> b == m.inserted_before(s, n.0 as nat)
            &&& !r ==> b == m
        },
        NodeOrText::AppendText(t) => {
            &&& r <==> s < a.len() && a.parent[s as int] is Some
            &&& !r ==> b == a
            &&& r ==> match prev_text(a, s) {
                Some(q) => extends_text(a, b, q, t@),
                None => b == a.pushed(DomNode::Text(Text { text: t })).inserted_before(s, a.len()),
            }
        },
    }
}

impl Html {
    pub fn has_room(&self) -> (r: bool)
        requires
            self.wf(),
        ensures
            r == self.doc().has_room(),
    {
        self.nodes.nodes().len() < usize::MAX - 1
    }

    /// Records a parse error; building goes on.
    pub fn parse_error(&mut self, msg: String)
        ensures
            final(self).doc() == old(self).doc(),
            final(self).quirks() == old(self).quirks(),
            final(self).error_list() == old(self).error_list().push(msg@),
    {
        let ghost m = msg@;
        self.errors.push(msg);
        proof {
            assert(self.error_list() =~= old(self).error_list().push(m));
        }
    }

    pub fn get_document(&self) -> (r: NodeID)
        ensures
            r == NodeID(0),
    {
        NodeID(0)
    }

    /// The name of element `target`, if it is one.
    pub fn elem_name(&self, target: NodeID) -> (r: Option<&QualName>)
        requires
            self.wf(),
        ensures
            r matches Some(n) ==> target.0 < self.doc()@.len() && (self.doc()@.data[target.0 as int] matches DomNode::Element(e) && e.name == *n),
            r is None <==> !(target.0 < self.doc()@.len() && self.doc()@.data[target.0 as int] is Element),
    {
        match self.nodes.node_ref(target) {
            Some(n) => match &n.data {
                DomNode::Element(e) => Some(&e.name),
                _ => None,
            },
            None => None,
        }
    }

    /// Stores a new element; a `template` element gets a fragment child to
    /// hold its contents.
    pub fn create_element(&mut self, name: QualName, attrs: Vec<Attribute>) -> (r: NodeID)
        requires
            old(self).wf(),
            old(self).doc()@.len() + 2 < usize::MAX,
        ensures
            final(self).wf(),
            r.0 == old(self).doc()@.len(),
            final(self).doc()@.data[r.0 as int] matches DomNode::Element(e) && e.name == name && unique_names(e.attrs@)
                && (forall|n: QualName| #[trigger] lookup(e.attrs@, n) == lookup_last(attrs@, n)) && final(self).doc()@
                == (if is_template(name) {
                old(self).doc()@.pushed(DomNode::Element(e)).pushed(DomNode::Fragment).appended(
                    r.0 as nat,
                    (r.0 + 1) as nat,
                )
            } else {
                old(self).doc()@.pushed(DomNode::Element(e))
            }),
            final(self).quirks() == old(self).quirks(),
            final(self).error_list() == old(self).error_list(),
    {
        let ns = chars_of(name.ns.as_str());
        let local = chars_of(name.local.as_str());
        let html = chars_of("http://www.w3.org/1999/xhtml");
        let template = chars_of("template");
        let is_fragment = eq_chars(&ns, &html) && eq_chars(&local, &template);
        let node_id = self.nodes.orphan_node(DomNode::Element(Element::new(name, attrs))).id;
        if is_fragment {
            proof {
                self.nodes.lemma_data(node_id.0 as nat);
            }
            let _ = self.nodes.append_child(node_id, DomNode::Fragment);
        }
        node_id
    }

    pub fn create_comment(&mut self, text: String) -> (r: NodeID)
        requires
            old(self).wf(),
            old(self).doc().has_room(),
        ensures
            final(self).wf(),
            r.0 == old(self).doc()@.len(),
            final(self).doc()@ == old(self).doc()@.pushed(DomNode::Comment(Comment { comment: text })),
            final(self).quirks() == old(self).quirks(),
            final(self).error_list() == old(self).error_list(),
    {
        self.nodes.orphan_node(DomNode::Comment(Comment::new(text))).id
    }

    pub fn create_pi(&mut self, target: String, data: String) -> (r: NodeID)
        requires
            old(self).wf(),
            old(self).doc().has_room(),
        ensures
            final(self).wf(),
            r.0 == old(self).doc()@.len(),
            final(self).doc()@ == old(self).doc()@.pushed(
                DomNode::ProcessingInstruction(ProcessingInstruction { target, data }),
            ),
            final(self).quirks() == old(self).quirks(),
            final(self).error_list() == old(self).error_list(),
    {
        self.nodes.orphan_node(DomNode::ProcessingInstruction(ProcessingInstruction::new(target, data))).id
    }

    /// Appends text to text node `x`.
    fn extend_text(&mut self, x: NodeID, txt: &str)
        requires
            old(self).wf(),
            x.0 < old(self).doc()@.len(),
            old(self).doc()@.data[x.0 as int] is Text,
        ensures
            final(self).wf(),
            extends_text(old(self).doc()@, final(self).doc()@, x.0 as nat, txt@),
            final(self).quirks() == old(self).quirks(),
            final(self).error_list() == old(self).error_list(),
    {
        let old_data = self.nodes.replace_data(x, DomNode::Document);
        match old_data {
            Some(DomNode::Text(t)) => {
                let mut t = t;
                t.push_tendril(txt);
                let _ = self.nodes.replace_data(x, DomNode::Text(t));
                proof {
                    assert(self.doc()@.data =~= old(self).doc()@.data.update(x.0 as int, self.doc()@.data[x.0 as int]));
                }
            },
            _ => {
                proof {
                    assert(false);
                }
            },
        }
    }

    /// Appends a node or text as the last child of `parent`; text right after
    /// a text child is merged into it.
    ///
    /// Fails, changing nothing, when `parent` is not in the document or a node
    /// cannot go there (see `Tree::append_child_id`).
    pub fn append(&mut self, parent: NodeID, child: NodeOrText) -> (r: bool)
        requires
            old(self).wf(),
            old(self).doc().has_room(),
        ensures
            final(self).wf(),
            final(self).quirks() == old(self).quirks(),
            final(self).error_list() == old(self).error_list(),
            append_effect(old(self).doc()@, final(self).doc()@, parent.0 as nat, child, r),
    {
        match child {
            NodeOrText::AppendNode(n) => self.nodes.append_child_id(parent, n).is_some(),
            NodeOrText::AppendText(txt) => {
                if parent.0 >= self.nodes.nodes().len() {
                    return false;
                }
                match self.nodes.children_range(parent) {
                    Some((_, last)) => {
                        proof {
                            self.nodes.lemma_children_of(parent.0 as nat);
                        }
                        let is_text = match self.nodes.node_ref(last) {
                            Some(n) => n.data.is_text(),
                            None => false,
                        };
                        if is_text {
                            self.extend_text(last, txt.as_str());
                            return true;
                        }
                    },
                    None => {},
                }
                self.nodes.append_child(parent, DomNode::Text(Text::new(txt))).is_some()
            },
        }
    }

    /// Appends `child` before `element` if `element` has a parent, else as the
    /// last child of `prev_element`.
    pub fn append_based_on_parent_node(&mut self, element: NodeID, prev_element: NodeID, child: NodeOrText) -> (r: bool)
        requires
            old(self).wf(),
            old(self).doc().has_room(),
        ensures
            final(self).wf(),
            final(self).quirks() == old(self).quirks(),
            final(self).error_list() == old(self).error_list(),
            if element.0 < old(self).doc()@.len() && old(self).doc()@.parent[element.0 as int] is Some {
                before_effect(old(self).doc()@, final(self).doc()@, element.0 as nat, child, r)
            } else {
                append_effect(old(self).doc()@, final(self).doc()@, prev_element.0 as nat, child, r)
            },
    {
        let has_parent = self.nodes.parent_ref(element).is_some();
        if has_parent {
            self.append_before_sibling(element, child)
        } else {
            self.append(prev_element, child)
        }
    }

    /// Appends a doctype node to the root.
    pub fn append_doctype_to_document(&mut self, name: String, public_id: String, system_id: String)
        requires
            old(self).wf(),
            old(self).doc().has_room(),
        ensures
            final(self).wf(),
            final(self).doc()@ == old(self).doc()@.pushed(DomNode::DocType(DocType { name, public_id, system_id })).appended(
                0,
                old(self).doc()@.len(),
            ),
            final(self).quirks() == old(self).quirks(),
            final(self).error_list() == old(self).error_list(),
    {
        proof {
            self.nodes.lemma_nonempty();
        }
        let _ = self.nodes.append_child(NodeID(0), DomNode::DocType(DocType::new(name, public_id, system_id)));
    }

    /// The node that holds the contents of template `target`: its first child.
    pub fn get_template_contents(&self, target: NodeID) -> (r: Option<NodeID>)
        requires
            self.wf(),
        ensures
            r is Some <==> target.0 < self.doc()@.len() && self.doc()@.kids[target.0 as int].len() > 0,
            r matches Some(c) ==> c.0 == self.doc()@.kids[target.0 as int][0],
    {
        if target.0 < self.nodes.nodes().len() {
            proof {
                self.nodes.lemma_children_of(target.0 as nat);
                self.nodes.lemma_nonempty();
            }
        }
        match self.nodes.children_range(target) {
            Some((first, _)) => Some(first),
            None => None,
        }
    }

    pub fn same_node(&self, x: NodeID, y: NodeID) -> (r: bool)
        ensures
            r == (x == y),
    {
        x.0 == y.0
    }

    pub fn set_quirks_mode(&mut self, mode: QuirksMode)
        ensures
            final(self).doc() == old(self).doc(),
            final(self).quirks() == mode,
            final(self).error_list() == old(self).error_list(),
    {
        self.quirks_mode = mode;
    }

    /// Places a node or text right before `sibling`; a node is detached
    /// first.  Text right after a text sibling is merged into it.  Nothing is
    /// placed when `sibling` has no parent.
    pub fn append_before_sibling(&mut self, sibling: NodeID, new_node: NodeOrText) -> (r: bool)
        requires
            old(self).wf(),
            old(self).doc().has_room(),
        ensures
            final(self).wf(),
            final(self).quirks() == old(self).quirks(),
            final(self).error_list() == old(self).error_list(),
            before_effect(old(self).doc()@, final(self).doc()@, sibling.0 as nat, new_node, r),
    {
        match new_node {
            NodeOrText::AppendNode(n) => {
                let _ = self.nodes.detach(n);
                self.nodes.insert_id_before(sibling, n).is_some()
            },
            NodeOrText::AppendText(txt) => {
                if self.nodes.parent_ref(sibling).is_none() {
                    return false;
                }
                let ghost a = self.doc()@;
                let ghost pp = a.parent[sibling.0 as int]->0;
                let ghost ks = a.kids[pp as int];
                let ghost i = ks.index_of(sibling.0 as nat);
                proof {
                    self.nodes.lemma_tree_invariants();
                    self.nodes.lemma_data(sibling.0 as nat);
                    assert(ks.contains(sibling.0 as nat));
                    assert(ks[i] == sibling.0 as nat);
                    assert(pp < a.len());
                    assert(a.kids[pp as int][i] < a.len());
                    assert(opt_id(self.nodes.node_at(ks[i]).previous_sibling) == (if i == 0 {
                        None
                    } else {
                        Some(ks[i - 1])
                    }));
                }
                let prev = match self.nodes.previous_sibling_ref(sibling) {
                    Some(p) => {
                        if p.data.is_text() {
                            Some(p.id)
                        } else {
                            None
                        }
                    },
                    None => None,
                };
                proof {
                    if i > 0 {
                        self.nodes.lemma_data(ks[i - 1]);
                    }
                    match prev {
                        Some(q) => {
                            assert(q.0 == ks[i - 1]);
                            assert(prev_text(a, sibling.0 as nat) == Some(q.0 as nat));
                        },
                        None => {
                            assert(prev_text(a, sibling.0 as nat) is None);
                        },
                    }
                }
                match prev {
                    Some(p) => {
                        proof {
                            self.nodes.lemma_data(p.0 as nat);
                        }
                        self.extend_text(p, txt.as_str());
                        true
                    },
                    None => self.nodes.insert_before(sibling, DomNode::Text(Text::new(txt))).is_some(),
                }
            },
        }
    }

    /// Adds to element `target` the attributes whose names it lacks.
    ///
    /// Fails, changing nothing, when `target` is not an element.
    pub fn add_attrs_if_missing(&mut self, target: NodeID, attrs: Vec<Attribute>) -> (r: bool)
        requires
            old(self).wf(),
        ensures
            final(self).wf(),
            r <==> target.0 < old(self).doc()@.len() && old(self).doc()@.data[target.0 as int] is Element,
            r ==> (old(self).doc()@.data[target.0 as int] matches DomNode::Element(e) && final(self).doc()@
                == (TreeModel {
                data: old(self).doc()@.data.update(
                    target.0 as int,
                    DomNode::Element(Element { name: e.name, attrs: final(self).doc()@.data[target.0 as int]->Element_0.attrs }),
                ),
                parent: old(self).doc()@.parent,
                kids: old(self).doc()@.kids,
            }) && final(self).doc()@.data[target.0 as int]->Element_0.attrs@ == merged(e.attrs@, attrs@)),
            !r ==> final(self).doc()@ == old(self).doc()@,
            final(self).quirks() == old(self).quirks(),
            final(self).error_list() == old(self).error_list(),
    {
        let is_element = match self.nodes.node_ref(target) {
            Some(n) => n.data.is_element(),
            None => false,
        };
        if !is_element {
            return false;
        }
        match self.nodes.replace_data(target, DomNode::Document) {
            Some(DomNode::Element(e)) => {
                let mut e = e;
                e.add_attrs(attrs);
                let _ = self.nodes.replace_data(target, DomNode::Element(e));
                proof {
                    assert(self.doc()@.data =~= old(self).doc()@.data.update(target.0 as int, self.doc()@.data[target.0 as int]));
                }
                true
            },
            _ => {
                proof {
                    assert(false);
                }
                false
            },
        }
    }

    /// Detaches `target` from its parent.  Fails when it is not in the document.
    pub fn remove_from_parent(&mut self, target: NodeID) -> (r: bool)
        requires
            old(self).wf(),
        ensures
            final(self).wf(),
            r <==> target.0 < old(self).doc()@.len(),
            r ==> final(self).doc()@ == old(self).doc()@.detached(target.0 as nat),
            !r ==> final(self).doc()@ == old(self).doc()@,
            final(self).quirks() == old(self).quirks(),
            final(self).error_list() == old(self).error_list(),
    {
        self.nodes.detach(target).is_some()
    }

    /// Moves all children of `node` to the end of `new_parent`'s children.
    pub fn reparent_children(&mut self, node: NodeID, new_parent: NodeID) -> (r: bool)
        requires
            old(self).wf(),
        ensures
            final(self).wf(),
            r <==> node.0 < old(self).doc()@.len() && new_parent.0 < old(self).doc()@.len() && (node
                == new_parent || !old(self).doc()@.is_ancestor_or_self(node.0 as nat, new_parent.0 as nat)),
            r ==> final(self).doc()@ == (if node == new_parent {
                old(self).doc()@
            } else {
                old(self).doc()@.reparented(node.0 as nat, new_parent.0 as nat)
            }),
            !r ==> final(self).doc()@ == old(self).doc()@,
            final(self).quirks() == old(self).quirks(),
            final(self).error_list() == old(self).error_list(),
    {
        self.nodes.reparent_from_id_append(node, new_parent).is_some()
    }
}

} // verus!
