//! Payloads of document nodes.
use vstd::prelude::*;
use crate::chars::{chars_of, eq_ascii_ci, eq_ignore_ascii_case, has_token, has_token_exec, listed_from, push_tokens};

verus! {

/// A qualified name: optional prefix, namespace and local part.
#[derive(Debug, Clone, PartialEq, Eq, Hash)]
pub struct QualName {
    pub prefix: Option<String>,
    pub ns: String,
    pub local: String,
}

pub open spec fn opt_str_view(o: Option<String>) -> Option<Seq<char>> {
    match o {
        Some(s) => Some(s@),
        None => None,
    }
}

pub open spec fn opt_ref_view(o: Option<&String>) -> Option<Seq<char>> {
    match o {
        Some(s) => Some(s@),
        None => None,
    }
}

/// Two names are the same when prefix, namespace and local part agree.
pub open spec fn same_name(a: QualName, b: QualName) -> bool {
    opt_str_view(a.prefix) == opt_str_view(b.prefix) && a.ns@ == b.ns@ && a.local@ == b.local@
}

impl QualName {
    pub fn new(prefix: Option<String>, ns: String, local: String) -> (r: Self)
        ensures
            r.prefix == prefix,
            r.ns == ns,
            r.local == local,
    {
        QualName { prefix, ns, local }
    }

    /// A name with no prefix in the empty namespace.
    pub fn plain(local: &str) -> (r: Self)
        ensures
            r.prefix is None,
            r.ns@ == Seq::<char>::empty(),
            r.local@ == local@,
    {
        QualName { prefix: None, ns: String::new(), local: String::from_str(local) }
    }

    pub fn same(&self, o: &QualName) -> (r: bool)
        ensures
            r == same_name(*self, *o),
    {
        let p = match (&self.prefix, &o.prefix) {
            (None, None) => true,
            (Some(a), Some(b)) => *a == *b,
            _ => false,
        };
        p && self.ns == o.ns && self.local == o.local
    }

    pub fn duplicate(&self) -> (r: Self)
        ensures
            r == *self,
    {
        let prefix = match &self.prefix {
            Some(p) => Some(p.clone()),
            None => None,
        };
        QualName { prefix, ns: self.ns.clone(), local: self.local.clone() }
    }
}

/// An attribute: name and value.
#[derive(Debug, Clone, PartialEq, Eq)]
pub struct Attribute {
    pub name: QualName,
    pub value: String,
}

impl Attribute {
    pub fn duplicate(&self) -> (r: Self)
        ensures
            r == *self,
    {
        Attribute { name: self.name.duplicate(), value: self.value.clone() }
    }
}

/// Value of the first attribute called `name`.
pub open spec fn lookup(attrs: Seq<Attribute>, name: QualName) -> Option<Seq<char>>
    decreases attrs.len(),
{
    if attrs.len() == 0 {
        None
    } else if same_name(attrs[0].name, name) {
        Some(attrs[0].value@)
    } else {
        lookup(attrs.drop_first(), name)
    }
}

/// `s` is `id` up to ASCII case.
pub open spec fn is_id_name(s: Seq<char>) -> bool {
    eq_ascii_ci(s, seq!['i', 'd'])
}

/// `s` is `class` up to ASCII case.
pub open spec fn is_class_name(s: Seq<char>) -> bool {
    eq_ascii_ci(s, seq!['c', 'l', 'a', 's', 's'])
}

/// Value of the first attribute whose local name is `id` in any case.
pub open spec fn id_of(attrs: Seq<Attribute>) -> Option<Seq<char>>
    decreases attrs.len(),
{
    if attrs.len() == 0 {
        None
    } else if is_id_name(attrs[0].name.local@) {
        Some(attrs[0].value@)
    } else {
        id_of(attrs.drop_first())
    }
}

/// `cls` is a token of some attribute whose local name is `class` in any case.
pub open spec fn class_of(attrs: Seq<Attribute>, cls: Seq<char>, case_sensitive: bool) -> bool {
    exists|k: int|
        0 <= k < attrs.len() && is_class_name(#[trigger] attrs[k].name.local@) && has_token(
            attrs[k].value@,
            cls,
            case_sensitive,
        )
}

/// The attributes of `base` followed by those of `extra` whose names `base` lacks.
pub open spec fn merged(base: Seq<Attribute>, extra: Seq<Attribute>) -> Seq<Attribute>
    decreases extra.len(),
{
    if extra.len() == 0 {
        base
    } else {
        let b2 = if lookup(base, extra[0].name) is Some {
            base
        } else {
            base.push(extra[0])
        };
        merged(b2, extra.drop_first())
    }
}

/// The payload of a node.
#[derive(Debug, Clone)]
pub enum DomNode {
    Document,
    Fragment,
    DocType(DocType),
    Element(Element),
    Text(Text),
    Comment(Comment),
    ProcessingInstruction(ProcessingInstruction),
}

impl DomNode {
    pub fn is_document(&self) -> (r: bool)
        ensures
            r == (*self is Document),
    {
        matches!(self, DomNode::Document)
    }

    pub fn is_fragment(&self) -> (r: bool)
        ensures
            r == (*self is Fragment),
    {
        matches!(self, DomNode::Fragment)
    }

    pub fn is_doctype(&self) -> (r: bool)
        ensures
            r == (*self is DocType),
    {
        matches!(self, DomNode::DocType(_))
    }

    pub fn is_element(&self) -> (r: bool)
        ensures
            r == (*self is Element),
    {
        matches!(self, DomNode::Element(_))
    }

    pub fn is_text(&self) -> (r: bool)
        ensures
            r == (*self is Text),
    {
        matches!(self, DomNode::Text(_))
    }

    pub fn is_comment(&self) -> (r: bool)
        ensures
            r == (*self is Comment),
    {
        matches!(self, DomNode::Comment(_))
    }

    pub fn is_processing_instruction(&self) -> (r: bool)
        ensures
            r == (*self is ProcessingInstruction),
    {
        matches!(self, DomNode::ProcessingInstruction(_))
    }

    pub fn as_doctype(&self) -> (r: Option<&DocType>)
        ensures
            r matches Some(d) ==> *self == DomNode::DocType(*d),
            r is None <==> !(*self is DocType),
    {
        match self {
            DomNode::DocType(d) => Some(d),
            _ => None,
        }
    }

    pub fn as_element(&self) -> (r: Option<&Element>)
        ensures
            r matches Some(e) ==> *self == DomNode::Element(*e),
            r is None <==> !(*self is Element),
    {
        match self {
            DomNode::Element(e) => Some(e),
            _ => None,
        }
    }

    pub fn as_text(&self) -> (r: Option<&Text>)
        ensures
            r matches Some(t) ==> *self == DomNode::Text(*t),
            r is None <==> !(*self is Text),
    {
        match self {
            DomNode::Text(t) => Some(t),
            _ => None,
        }
    }

    pub fn as_processing_instruction(&self) -> (r: Option<&ProcessingInstruction>)
        ensures
            r matches Some(p) ==> *self == DomNode::ProcessingInstruction(*p),
            r is None <==> !(*self is ProcessingInstruction),
    {
        match self {
            DomNode::ProcessingInstruction(p) => Some(p),
            _ => None,
        }
    }
}

#[derive(Debug, Clone)]
pub struct DocType {
    pub name: String,
    pub public_id: String,
    pub system_id: String,
}

impl DocType {
    pub fn new(name: String, public_id: String, system_id: String) -> (r: Self)
        ensures
            r.name == name,
            r.public_id == public_id,
            r.system_id == system_id,
    {
        DocType { name, public_id, system_id }
    }
}

/// No two attributes share a name.
pub open spec fn unique_names(s: Seq<Attribute>) -> bool {
    forall|i: int, j: int| 0 <= i < j < s.len() ==> !same_name(#[trigger] s[i].name, #[trigger] s[j].name)
}

/// Value of the last attribute called `name`.
pub open spec fn lookup_last(attrs: Seq<Attribute>, name: QualName) -> Option<Seq<char>>
    decreases attrs.len(),
{
    if attrs.len() == 0 {
        None
    } else if same_name(attrs.last().name, name) {
        Some(attrs.last().value@)
    } else {
        lookup_last(attrs.drop_last(), name)
    }
}

/// Looking a name up finds the first attribute carrying it.
pub proof fn lemma_lookup_first(s: Seq<Attribute>, n: QualName, i: int)
    requires
        0 <= i < s.len(),
        same_name(s[i].name, n),
        forall|j: int| 0 <= j < i ==> !same_name(#[trigger] s[j].name, n),
    ensures
        lookup(s, n) == Some(s[i].value@),
    decreases i,
{
    if i > 0 {
        assert forall|j: int| 0 <= j < i - 1 implies !same_name(#[trigger] s.drop_first()[j].name, n) by {
            assert(s.drop_first()[j] == s[j + 1]);
        }
        assert(!same_name(s[0].name, n));
        lemma_lookup_first(s.drop_first(), n, i - 1);
    }
}

/// A name that no attribute carries is not found.
pub proof fn lemma_lookup_none(s: Seq<Attribute>, n: QualName)
    requires
        forall|j: int| 0 <= j < s.len() ==> !same_name(#[trigger] s[j].name, n),
    ensures
        lookup(s, n) is None,
    decreases s.len(),
{
    if s.len() > 0 {
        assert forall|j: int| 0 <= j < s.len() - 1 implies !same_name(#[trigger] s.drop_first()[j].name, n) by {
            assert(s.drop_first()[j] == s[j + 1]);
        }
        assert(!same_name(s[0].name, n));
        lemma_lookup_none(s.drop_first(), n);
    }
}

/// With distinct names, lookup finds the one attribute carrying the name.
proof fn lemma_lookup_unique(s: Seq<Attribute>, n: QualName)
    requires
        unique_names(s),
    ensures
        forall|i: int| 0 <= i < s.len() && same_name(#[trigger] s[i].name, n) ==> lookup(s, n) == Some(s[i].value@),
        (forall|i: int| 0 <= i < s.len() ==> !same_name(#[trigger] s[i].name, n)) ==> lookup(s, n) is None,
{
    assert forall|i: int| 0 <= i < s.len() && same_name(#[trigger] s[i].name, n) implies lookup(s, n) == Some(s[i].value@) by {
        assert forall|j: int| 0 <= j < i implies !same_name(#[trigger] s[j].name, n) by {
            assert(!same_name(s[j].name, s[i].name));
        }
        lemma_lookup_first(s, n, i);
    }
    if forall|i: int| 0 <= i < s.len() ==> !same_name(#[trigger] s[i].name, n) {
        lemma_lookup_none(s, n);
    }
}

/// Merging into attributes with distinct names keeps them distinct.
pub proof fn lemma_merged_unique(base: Seq<Attribute>, extra: Seq<Attribute>)
    requires
        unique_names(base),
    ensures
        unique_names(merged(base, extra)),
    decreases extra.len(),
{
    if extra.len() > 0 {
        let e = extra[0];
        if lookup(base, e.name) is None {
            let b2 = base.push(e);
            assert forall|i: int, j: int| 0 <= i < j < b2.len() implies !same_name(#[trigger] b2[i].name, #[trigger] b2[j].name) by {
                if j == base.len() {
                    if same_name(base[i].name, e.name) {
                        lemma_lookup_unique(base, e.name);
                    }
                } else {
                    assert(b2[i] == base[i] && b2[j] == base[j]);
                }
            }
            lemma_merged_unique(b2, extra.drop_first());
        } else {
            lemma_merged_unique(base, extra.drop_first());
        }
    }
}

/// An element: its name and its attributes, no two with the same name.
#[derive(Debug, Clone)]
pub struct Element {
    pub name: QualName,
    pub attrs: Vec<Attribute>,
}

impl Element {
    /// An element whose attribute map holds, for each name given, the last
    /// value given for it.
    pub fn new(name: QualName, attrs: Vec<Attribute>) -> (r: Self)
        ensures
            r.name == name,
            unique_names(r.attrs@),
            forall|n: QualName| #[trigger] lookup(r.attrs@, n) == lookup_last(attrs@, n),
    {
        let mut out: Vec<Attribute> = Vec::new();
        let mut i: usize = 0;
        while i < attrs.len()
            invariant
                0 <= i <= attrs@.len(),
                unique_names(out@),
                forall|n: QualName| #[trigger] lookup(out@, n) == lookup_last(attrs@.subrange(0, i as int), n),
            decreases attrs@.len() - i,
        {
            let a = attrs[i].duplicate();
            let ghost before = out@;
            let mut k: usize = 0;
            while k < out.len() && !out[k].name.same(&a.name)
                invariant
                    0 <= k <= out@.len(),
                    forall|j: int| 0 <= j < k ==> !same_name(#[trigger] out@[j].name, a.name),
                decreases out@.len() - k,
            {
                k = k + 1;
            }
            if k < out.len() {
                out.set(k, a);
            } else {
                out.push(a);
            }
            proof {
                let next = attrs@.subrange(0, i + 1);
                assert(next.drop_last() =~= attrs@.subrange(0, i as int));
                assert(next.last() == a);
                assert forall|x: int, y: int| 0 <= x < y < out@.len() implies !same_name(#[trigger] out@[x].name, #[trigger] out@[y].name) by {
                    if k < before.len() {
                        if x == k {
                            assert(!same_name(before[k as int].name, before[y].name));
                        } else if y == k {
                            assert(!same_name(before[x].name, before[k as int].name));
                        } else {
                            assert(!same_name(before[x].name, before[y].name));
                        }
                    } else if y == before.len() {
                        assert(!same_name(before[x].name, a.name));
                    } else {
                        assert(!same_name(before[x].name, before[y].name));
                    }
                }
                assert forall|n: QualName| #[trigger] lookup(out@, n) == lookup_last(next, n) by {
                    lemma_lookup_unique(out@, n);
                    lemma_lookup_unique(before, n);
                    assert(lookup(before, n) == lookup_last(attrs@.subrange(0, i as int), n));
                    if same_name(a.name, n) {
                        if k < before.len() {
                            assert(out@[k as int] == a);
                        } else {
                            assert(out@[before.len() as int] == a);
                        }
                    } else {
                        if k < before.len() {
                            assert(!same_name(before[k as int].name, n));
                            assert forall|j: int| 0 <= j < out@.len() && j != k implies out@[j] == before[j] by {}
                            if exists|j: int| 0 <= j < before.len() && same_name(#[trigger] before[j].name, n) {
                                let j = choose|j: int| 0 <= j < before.len() && same_name(#[trigger] before[j].name, n);
                                assert(out@[j] == before[j]);
                            } else {
                                assert forall|j: int| 0 <= j < out@.len() implies !same_name(#[trigger] out@[j].name, n) by {
                                    if j != k {
                                        assert(out@[j] == before[j]);
                                    }
                                }
                            }
                        } else {
                            if exists|j: int| 0 <= j < before.len() && same_name(#[trigger] before[j].name, n) {
                                let j = choose|j: int| 0 <= j < before.len() && same_name(#[trigger] before[j].name, n);
                                assert(out@[j] == before[j]);
                            } else {
                                assert forall|j: int| 0 <= j < out@.len() implies !same_name(#[trigger] out@[j].name, n) by {
                                    if j < before.len() {
                                        assert(out@[j] == before[j]);
                                    }
                                }
                            }
                        }
                    }
                }
            }
            i = i + 1;
        }
        proof {
            assert(attrs@.subrange(0, attrs@.len() as int) =~= attrs@);
        }
        Element { name, attrs: out }
    }

    pub fn expanded_name(&self) -> (r: &QualName)
        ensures
            *r == self.name,
    {
        &self.name
    }

    /// Value of the first attribute whose local name is `id` in any case.
    pub fn id(&self) -> (r: Option<&String>)
        ensures
            opt_ref_view(r) == id_of(self.attrs@),
    {
        let key = vec!['i', 'd'];
        let mut i: usize = 0;
        proof {
            assert(self.attrs@.subrange(0, self.attrs@.len() as int) =~= self.attrs@);
        }
        while i < self.attrs.len()
            invariant
                0 <= i <= self.attrs@.len(),
                key@ == seq!['i', 'd'],
                id_of(self.attrs@) == id_of(self.attrs@.subrange(i as int, self.attrs@.len() as int)),
            decreases self.attrs@.len() - i,
        {
            let a = &self.attrs[i];
            let ghost rest = self.attrs@.subrange(i as int, self.attrs@.len() as int);
            proof {
                assert(rest[0] == *a);
                assert(rest.drop_first() =~= self.attrs@.subrange(i + 1, self.attrs@.len() as int));
            }
            let local = chars_of(a.name.local.as_str());
            if eq_ignore_ascii_case(&local, &key) {
                return Some(&a.value);
            }
            i = i + 1;
        }
        None
    }

    /// The whitespace-separated tokens of the `class` attributes: a token is
    /// listed exactly when `has_class` holds of it with exact comparison.
    pub fn classes(&self) -> (r: Vec<String>)
        ensures
            forall|t: Seq<char>| #[trigger] class_of(self.attrs@, t, true) <==> listed_from(r@, 0, t),
    {
        let key = vec!['c', 'l', 'a', 's', 's'];
        let mut out: Vec<String> = Vec::new();
        let mut i: usize = 0;
        while i < self.attrs.len()
            invariant
                0 <= i <= self.attrs@.len(),
                key@ == seq!['c', 'l', 'a', 's', 's'],
                forall|t: Seq<char>| #[trigger] class_of(self.attrs@.subrange(0, i as int), t, true) <==> listed_from(out@, 0, t),
            decreases self.attrs@.len() - i,
        {
            let a = &self.attrs[i];
            let local = chars_of(a.name.local.as_str());
            let ghost before = out@;
            let ghost pre = self.attrs@.subrange(0, i as int);
            let ghost next = self.attrs@.subrange(0, i + 1);
            let is_class = eq_ignore_ascii_case(&local, &key);
            if is_class {
                push_tokens(a.value.as_str(), &mut out);
            }
            proof {
                assert forall|t: Seq<char>| #[trigger] class_of(next, t, true) <==> listed_from(out@, 0, t) by {
                    if class_of(next, t, true) {
                        let b = choose|b: int| 0 <= b < next.len() && is_class_name(#[trigger] next[b].name.local@) && has_token(next[b].value@, t, true);
                        if b < i {
                            assert(pre[b] == next[b]);
                            assert(class_of(pre, t, true));
                            let k = choose|k: int| 0 <= k < before.len() && (#[trigger] before[k])@ == t;
                            assert(out@[k] == before[k]);
                        } else {
                            assert(next[b] == *a);
                            assert(has_token(a.value@, t, true));
                        }
                    }
                    if listed_from(out@, 0, t) {
                        let k = choose|k: int| 0 <= k < out@.len() && (#[trigger] out@[k])@ == t;
                        if k < before.len() {
                            assert(out@[k] == before[k]);
                            assert(listed_from(before, 0, t));
                            assert(class_of(pre, t, true));
                            let b = choose|b: int| 0 <= b < pre.len() && is_class_name(#[trigger] pre[b].name.local@) && has_token(pre[b].value@, t, true);
                            assert(next[b] == pre[b]);
                        } else {
                            assert(listed_from(out@, before.len() as int, t));
                            assert(has_token(a.value@, t, true));
                            assert(next[i as int] == *a);
                        }
                    }
                }
            }
            i = i + 1;
        }
        proof {
            assert(self.attrs@.subrange(0, i as int) =~= self.attrs@);
        }
        out
    }

    /// Whether `cls` is one of the whitespace-separated tokens of a `class`
    /// attribute, compared exactly or up to ASCII case.
    pub fn has_class(&self, cls: &str, case_sensitive: bool) -> (r: bool)
        ensures
            r == class_of(self.attrs@, cls@, case_sensitive),
    {
        let key = vec!['c', 'l', 'a', 's', 's'];
        let want = chars_of(cls);
        let mut i: usize = 0;
        while i < self.attrs.len()
            invariant
                0 <= i <= self.attrs@.len(),
                key@ == seq!['c', 'l', 'a', 's', 's'],
                want@ == cls@,
                forall|k: int|
                    0 <= k < i ==> !(is_class_name(#[trigger] self.attrs@[k].name.local@) && has_token(
                        self.attrs@[k].value@,
                        cls@,
                        case_sensitive,
                    )),
            decreases self.attrs@.len() - i,
        {
            let a = &self.attrs[i];
            let local = chars_of(a.name.local.as_str());
            if eq_ignore_ascii_case(&local, &key) {
                let value = chars_of(a.value.as_str());
                if has_token_exec(&value, &want, case_sensitive) {
                    return true;
                }
            }
            i = i + 1;
        }
        false
    }

    /// Value of the first attribute called `name`.
    pub fn get_attrs(&self, name: &QualName) -> (r: Option<&String>)
        ensures
            opt_ref_view(r) == lookup(self.attrs@, *name),
    {
        let mut i: usize = 0;
        proof {
            assert(self.attrs@.subrange(0, self.attrs@.len() as int) =~= self.attrs@);
        }
        while i < self.attrs.len()
            invariant
                0 <= i <= self.attrs@.len(),
                lookup(self.attrs@, *name) == lookup(self.attrs@.subrange(i as int, self.attrs@.len() as int), *name),
            decreases self.attrs@.len() - i,
        {
            let a = &self.attrs[i];
            let ghost rest = self.attrs@.subrange(i as int, self.attrs@.len() as int);
            proof {
                assert(rest[0] == *a);
                assert(rest.drop_first() =~= self.attrs@.subrange(i + 1, self.attrs@.len() as int));
            }
            if a.name.same(name) {
                return Some(&a.value);
            }
            i = i + 1;
        }
        None
    }

    /// Adds each attribute of `attrs` whose name the element does not carry yet.
    pub fn add_attrs(&mut self, attrs: Vec<Attribute>)
        ensures
            final(self).name == old(self).name,
            final(self).attrs@ == merged(old(self).attrs@, attrs@),
            unique_names(old(self).attrs@) ==> unique_names(final(self).attrs@),
    {
        proof {
            if unique_names(self.attrs@) {
                lemma_merged_unique(self.attrs@, attrs@);
            }
        }
        let ghost start = self.attrs@;
        let mut i: usize = 0;
        proof {
            assert(attrs@.subrange(0, attrs@.len() as int) =~= attrs@);
        }
        while i < attrs.len()
            invariant
                0 <= i <= attrs@.len(),
                self.name == old(self).name,
                merged(start, attrs@) == merged(self.attrs@, attrs@.subrange(i as int, attrs@.len() as int)),
            decreases attrs@.len() - i,
        {
            let a = attrs[i].duplicate();
            proof {
                let rest = attrs@.subrange(i as int, attrs@.len() as int);
                assert(rest[0] == a);
                assert(rest.drop_first() =~= attrs@.subrange(i + 1, attrs@.len() as int));
            }
            let missing = self.get_attrs(&a.name).is_none();
            if missing {
                self.attrs.push(a);
            }
            i = i + 1;
        }
        proof {
            assert(attrs@.subrange(i as int, attrs@.len() as int) =~= Seq::<Attribute>::empty());
        }
    }
}

#[derive(Debug, Clone)]
pub struct Text {
    pub text: String,
}

impl Text {
    pub fn new(text: String) -> (r: Self)
        ensures
            r.text == text,
    {
        Text { text }
    }

    pub fn push_tendril(&mut self, s: &str)
        ensures
            final(self).text@ == old(self).text@ + s@,
    {
        self.text.append(s);
    }

    pub fn text(&self) -> (r: &String)
        ensures
            *r == self.text,
    {
        &self.text
    }
}

#[derive(Debug, Clone)]
pub struct Comment {
    pub comment: String,
}

impl Comment {
    pub fn new(comment: String) -> (r: Self)
        ensures
            r.comment == comment,
    {
        Comment { comment }
    }
}

#[derive(Debug, Clone)]
pub struct ProcessingInstruction {
    pub target: String,
    pub data: String,
}

impl ProcessingInstruction {
    pub fn new(target: String, data: String) -> (r: Self)
        ensures
            r.target == target,
            r.data == data,
    {
        ProcessingInstruction { target, data }
    }
}

} // verus!
