//! The tagged value stored in each tree node, and its typed payloads.

use vstd::prelude::*;

use crate::id::{NameId, NamespaceId, PrefixId};

verus! {

/// The kind of value a node holds, usable for dispatch.
#[derive(Debug, Clone, Copy, PartialEq, Eq, Structural)]
pub enum ValueType {
    Root,
    Element,
    Text,
    Comment,
    ProcessingInstruction,
}

/// First-match lookup in an association list; with unique keys this is the
/// map the list represents.
pub open spec fn assoc_get<K, V>(s: Seq<(K, V)>, k: K) -> Option<V>
    decreases s.len(),
{
    if s.len() == 0 {
        None
    } else if s[0].0 == k {
        Some(s[0].1)
    } else {
        assoc_get(s.drop_first(), k)
    }
}

/// No key occurs twice in the association list.
pub open spec fn assoc_keys_unique<K, V>(s: Seq<(K, V)>) -> bool {
    forall|i: int, j: int| 0 <= i < j < s.len() ==> (#[trigger] s[i]).0 != (#[trigger] s[j]).0
}

/// A missing binding means no entry of the list carries the key.
pub proof fn lemma_assoc_get_none_no_key<K, V>(s: Seq<(K, V)>, k: K)
    requires
        assoc_get(s, k) is None,
    ensures
        forall|i: int| 0 <= i < s.len() ==> (#[trigger] s[i]).0 != k,
    decreases s.len(),
{
    if s.len() > 0 {
        lemma_assoc_get_none_no_key(s.drop_first(), k);
        assert(forall|i: int| 1 <= i < s.len() ==> s[i] == s.drop_first()[i - 1]);
    }
}

/// Appending a fresh key leaves every other binding as it was.
pub proof fn lemma_assoc_get_push<K, V>(s: Seq<(K, V)>, k: K, v: V, k2: K)
    ensures
        k2 == k && assoc_get(s, k) is None ==> assoc_get(s.push((k, v)), k2) == Some(v),
        k2 != k ==> assoc_get(s.push((k, v)), k2) == assoc_get(s, k2),
        assoc_get(s, k2) is Some ==> assoc_get(s.push((k, v)), k2) == assoc_get(s, k2),
    decreases s.len(),
{
    if s.len() == 0 {
        assert(s.push((k, v))[0] == (k, v));
        assert(s.push((k, v)).drop_first() =~= Seq::<(K, V)>::empty());
        assert(assoc_get(Seq::<(K, V)>::empty(), k2) is None);
        assert(assoc_get(s, k2) is None);
        if k2 != k {
            assert(assoc_get(s.push((k, v)), k2) == assoc_get(s.push((k, v)).drop_first(), k2));
        }
    } else {
        assert(s.push((k, v))[0] == s[0]);
        assert(s.push((k, v)).drop_first() =~= s.drop_first().push((k, v)));
        lemma_assoc_get_push(s.drop_first(), k, v, k2);
        if s[0].0 == k2 {
            assert(assoc_get(s.push((k, v)), k2) == Some(s[0].1));
            assert(assoc_get(s, k2) == Some(s[0].1));
        } else {
            assert(assoc_get(s.push((k, v)), k2) == assoc_get(s.drop_first().push((k, v)), k2));
            assert(assoc_get(s, k2) == assoc_get(s.drop_first(), k2));
        }
    }
}

/// Replacing the value at an index changes only that key's binding.
pub proof fn lemma_assoc_get_update<K, V>(s: Seq<(K, V)>, i: int, v: V, k2: K)
    requires
        0 <= i < s.len(),
        assoc_keys_unique(s),
    ensures
        k2 == s[i].0 ==> assoc_get(s.update(i, (s[i].0, v)), k2) == Some(v),
        k2 != s[i].0 ==> assoc_get(s.update(i, (s[i].0, v)), k2) == assoc_get(s, k2),
        assoc_keys_unique(s.update(i, (s[i].0, v))),
    decreases s.len(),
{
    let t = s.update(i, (s[i].0, v));
    assert(forall|x: int| 0 <= x < s.len() && x != i ==> t[x] == s[x]);
    assert(forall|x: int, y: int| 0 <= x < y < t.len() ==> (#[trigger] t[x]).0 != (
    #[trigger] t[y]).0) by {
        assert(forall|x: int| 0 <= x < t.len() ==> (#[trigger] t[x]).0 == s[x].0);
    }
    if i == 0 {
        assert(t[0] == (s[0].0, v));
        if k2 != s[0].0 {
            assert(t.drop_first() =~= s.drop_first());
        }
    } else {
        assert(t[0] == s[0]);
        if k2 == s[0].0 {
        } else {
            assert(t.drop_first() =~= s.drop_first().update(i - 1, (s.drop_first()[i - 1].0, v)));
            assert(assoc_keys_unique(s.drop_first())) by {
                assert(forall|x: int| 0 <= x < s.drop_first().len() ==> s.drop_first()[x] == s[x
                    + 1]);
            }
            lemma_assoc_get_update(s.drop_first(), i - 1, v, k2);
        }
    }
}

/// Scanning one entry further keeps the remaining lookup result.
pub proof fn lemma_assoc_get_skip_step<K, V>(s: Seq<(K, V)>, i: int, k: K)
    requires
        0 <= i < s.len(),
    ensures
        s[i].0 != k ==> assoc_get(s.skip(i), k) == assoc_get(s.skip(i + 1), k),
        s[i].0 == k ==> assoc_get(s.skip(i), k) == Some(s[i].1),
{
    assert(s.skip(i)[0] == s[i]);
    assert(s.skip(i).drop_first() =~= s.skip(i + 1));
}

/// The namespace declarations made at one element: a pair of maps,
/// namespace to prefix and prefix to namespace. Declarations are those
/// introduced at the element itself, never inherited ones.
#[verifier::ext_equal]
pub struct NamespaceInfo {
    pub(crate) to_prefix: Vec<(NamespaceId, PrefixId)>,
    pub(crate) to_namespace: Vec<(PrefixId, NamespaceId)>,
}

impl NamespaceInfo {
    /// The namespace-to-prefix map this element declares.
    pub closed spec fn spec_to_prefix(self) -> Seq<(NamespaceId, PrefixId)> {
        self.to_prefix@
    }

    /// The prefix-to-namespace map this element declares.
    pub closed spec fn spec_to_namespace(self) -> Seq<(PrefixId, NamespaceId)> {
        self.to_namespace@
    }

    /// Both association lists have unique keys.
    pub open spec fn wf(self) -> bool {
        assoc_keys_unique(self.spec_to_prefix()) && assoc_keys_unique(self.spec_to_namespace())
    }

    pub fn new() -> (r: NamespaceInfo)
        ensures
            r.spec_to_prefix() == Seq::<(NamespaceId, PrefixId)>::empty(),
            r.spec_to_namespace() == Seq::<(PrefixId, NamespaceId)>::empty(),
            r.wf(),
    {
        NamespaceInfo { to_prefix: Vec::new(), to_namespace: Vec::new() }
    }
}

/// An element node: an interned name plus the namespace declarations made
/// at this element.
#[verifier::ext_equal]
pub struct Element {
    pub(crate) name_id: NameId,
    pub(crate) namespace_info: NamespaceInfo,
}

impl Element {
    /// The namespace declarations made at this element.
    pub closed spec fn spec_namespace_info(self) -> NamespaceInfo {
        self.namespace_info
    }

    pub open spec fn wf(self) -> bool {
        self.spec_namespace_info().wf()
    }

    pub closed spec fn spec_name(self) -> NameId {
        self.name_id
    }

    /// The prefix this element declares for `ns`, if any.
    pub open spec fn spec_prefix_for(self, ns: NamespaceId) -> Option<PrefixId> {
        assoc_get(self.spec_namespace_info().spec_to_prefix(), ns)
    }

    /// The namespace this element declares for `prefix`, if any.
    pub open spec fn spec_namespace_for(self, prefix: PrefixId) -> Option<NamespaceId> {
        assoc_get(self.spec_namespace_info().spec_to_namespace(), prefix)
    }

    pub fn new(name_id: NameId) -> (r: Element)
        ensures
            r.spec_name() == name_id,
            forall|ns: NamespaceId| r.spec_prefix_for(ns) is None,
            forall|p: PrefixId| r.spec_namespace_for(p) is None,
            r.wf(),
    {
        Element { name_id, namespace_info: NamespaceInfo::new() }
    }

    /// The interned name of this element.
    pub fn name(&self) -> (r: NameId)
        ensures
            r == self.spec_name(),
    {
        self.name_id
    }

    /// An element equal to this one in name and declarations.
    pub fn duplicate(&self) -> (r: Element)
        ensures
            r.spec_name() == self.spec_name(),
            r.spec_namespace_info().spec_to_prefix() == self.spec_namespace_info().spec_to_prefix(),
            r.spec_namespace_info().spec_to_namespace()
                == self.spec_namespace_info().spec_to_namespace(),
    {
        Element {
            name_id: self.name_id,
            namespace_info: NamespaceInfo {
                to_prefix: copy_ns_prefix(&self.namespace_info.to_prefix),
                to_namespace: copy_prefix_ns(&self.namespace_info.to_namespace),
            },
        }
    }

    /// Look up the prefix this element declares for the namespace, if any.
    pub fn get_prefix(&self, namespace_id: NamespaceId) -> (r: Option<PrefixId>)
        ensures
            r == self.spec_prefix_for(namespace_id),
    {
        let s = &self.namespace_info.to_prefix;
        let mut i: usize = 0;
        proof {
            assert(s@.skip(0) =~= s@);
        }
        while i < s.len()
            invariant
                i <= s@.len(),
                assoc_get(s@, namespace_id) == assoc_get(s@.skip(i as int), namespace_id),
                s@ == self.spec_namespace_info().spec_to_prefix(),
            decreases s@.len() - i,
        {
            proof {
                lemma_assoc_get_skip_step(s@, i as int, namespace_id);
            }
            if s[i].0 == namespace_id {
                return Some(s[i].1);
            }
            i += 1;
        }
        proof {
            assert(s@.skip(i as int) =~= Seq::<(NamespaceId, PrefixId)>::empty());
        }
        None
    }

    /// Look up the namespace this element declares for the prefix, if any.
    pub fn get_namespace(&self, prefix_id: PrefixId) -> (r: Option<NamespaceId>)
        ensures
            r == self.spec_namespace_for(prefix_id),
    {
        let s = &self.namespace_info.to_namespace;
        let mut i: usize = 0;
        proof {
            assert(s@.skip(0) =~= s@);
        }
        while i < s.len()
            invariant
                i <= s@.len(),
                assoc_get(s@, prefix_id) == assoc_get(s@.skip(i as int), prefix_id),
                s@ == self.spec_namespace_info().spec_to_namespace(),
            decreases s@.len() - i,
        {
            proof {
                lemma_assoc_get_skip_step(s@, i as int, prefix_id);
            }
            if s[i].0 == prefix_id {
                return Some(s[i].1);
            }
            i += 1;
        }
        proof {
            assert(s@.skip(i as int) =~= Seq::<(PrefixId, NamespaceId)>::empty());
        }
        None
    }

    /// Declare, at this element, that `prefix_id` denotes `namespace_id`.
    ///
    /// Both direction maps are updated; an existing binding for the same
    /// prefix, or for the same namespace, is replaced. Bindings for other
    /// prefixes and namespaces are untouched.
    pub fn set_prefix(&mut self, prefix_id: PrefixId, namespace_id: NamespaceId)
        requires
            old(self).wf(),
        ensures
            final(self).wf(),
            final(self).spec_name() == old(self).spec_name(),
            final(self).spec_namespace_for(prefix_id) == Some(namespace_id),
            final(self).spec_prefix_for(namespace_id) == Some(prefix_id),
            forall|p: PrefixId|
                p != prefix_id ==> final(self).spec_namespace_for(p) == old(
                    self,
                ).spec_namespace_for(p),
            forall|n: NamespaceId|
                n != namespace_id ==> final(self).spec_prefix_for(n) == old(self).spec_prefix_for(
                    n,
                ),
    {
        let idx = assoc_index_ns(&self.namespace_info.to_prefix, namespace_id);
        match idx {
            Some(i) => {
                let ghost olds = self.namespace_info.to_prefix@;
                self.namespace_info.to_prefix.set(i, (namespace_id, prefix_id));
                proof {
                    assert forall|n: NamespaceId| n != namespace_id implies assoc_get(
                        self.namespace_info.to_prefix@,
                        n,
                    ) == assoc_get(olds, n) by {
                        lemma_assoc_get_update(olds, i as int, prefix_id, n);
                    }
                    lemma_assoc_get_update(olds, i as int, prefix_id, namespace_id);
                }
            },
            None => {
                let ghost olds = self.namespace_info.to_prefix@;
                self.namespace_info.to_prefix.push((namespace_id, prefix_id));
                proof {
                    lemma_assoc_get_none_no_key(olds, namespace_id);
                    assert forall|n: NamespaceId| n != namespace_id implies assoc_get(
                        self.namespace_info.to_prefix@,
                        n,
                    ) == assoc_get(olds, n) by {
                        lemma_assoc_get_push(olds, namespace_id, prefix_id, n);
                    }
                    lemma_assoc_get_push(olds, namespace_id, prefix_id, namespace_id);
                    let t = self.namespace_info.to_prefix@;
                    assert forall|x: int, y: int| 0 <= x < y < t.len() implies (
                    #[trigger] t[x]).0 != (#[trigger] t[y]).0 by {
                        if y == t.len() - 1 {
                            assert(t[x] == olds[x]);
                        } else {
                            assert(t[x] == olds[x] && t[y] == olds[y]);
                        }
                    }
                }
            },
        }
        let idx2 = assoc_index_prefix(&self.namespace_info.to_namespace, prefix_id);
        match idx2 {
            Some(i) => {
                let ghost olds = self.namespace_info.to_namespace@;
                self.namespace_info.to_namespace.set(i, (prefix_id, namespace_id));
                proof {
                    assert forall|p: PrefixId| p != prefix_id implies assoc_get(
                        self.namespace_info.to_namespace@,
                        p,
                    ) == assoc_get(olds, p) by {
                        lemma_assoc_get_update(olds, i as int, namespace_id, p);
                    }
                    lemma_assoc_get_update(olds, i as int, namespace_id, prefix_id);
                }
            },
            None => {
                let ghost olds = self.namespace_info.to_namespace@;
                self.namespace_info.to_namespace.push((prefix_id, namespace_id));
                proof {
                    lemma_assoc_get_none_no_key(olds, prefix_id);
                    assert forall|p: PrefixId| p != prefix_id implies assoc_get(
                        self.namespace_info.to_namespace@,
                        p,
                    ) == assoc_get(olds, p) by {
                        lemma_assoc_get_push(olds, prefix_id, namespace_id, p);
                    }
                    lemma_assoc_get_push(olds, prefix_id, namespace_id, prefix_id);
                    let t = self.namespace_info.to_namespace@;
                    assert forall|x: int, y: int| 0 <= x < y < t.len() implies (
                    #[trigger] t[x]).0 != (#[trigger] t[y]).0 by {
                        if y == t.len() - 1 {
                            assert(t[x] == olds[x]);
                        } else {
                            assert(t[x] == olds[x] && t[y] == olds[y]);
                        }
                    }
                }
            },
        }
    }
}

/// Copy a namespace-to-prefix list entry by entry.
fn copy_ns_prefix(v: &Vec<(NamespaceId, PrefixId)>) -> (r: Vec<(NamespaceId, PrefixId)>)
    ensures
        r@ == v@,
{
    let mut r: Vec<(NamespaceId, PrefixId)> = Vec::new();
    let mut i: usize = 0;
    while i < v.len()
        invariant
            i <= v@.len(),
            r@ == v@.subrange(0, i as int),
        decreases v@.len() - i,
    {
        r.push(v[i]);
        proof {
            assert(r@ =~= v@.subrange(0, i as int + 1));
        }
        i += 1;
    }
    proof {
        assert(r@ =~= v@);
    }
    r
}

/// Copy a prefix-to-namespace list entry by entry.
fn copy_prefix_ns(v: &Vec<(PrefixId, NamespaceId)>) -> (r: Vec<(PrefixId, NamespaceId)>)
    ensures
        r@ == v@,
{
    let mut r: Vec<(PrefixId, NamespaceId)> = Vec::new();
    let mut i: usize = 0;
    while i < v.len()
        invariant
            i <= v@.len(),
            r@ == v@.subrange(0, i as int),
        decreases v@.len() - i,
    {
        r.push(v[i]);
        proof {
            assert(r@ =~= v@.subrange(0, i as int + 1));
        }
        i += 1;
    }
    proof {
        assert(r@ =~= v@);
    }
    r
}

/// First index carrying the namespace key, if the key is present at all.
fn assoc_index_ns(s: &Vec<(NamespaceId, PrefixId)>, k: NamespaceId) -> (r: Option<usize>)
    ensures
        match r {
            Some(i) => i < s@.len() && s@[i as int].0 == k,
            None => assoc_get(s@, k) is None,
        },
{
    let mut i: usize = 0;
    proof {
        assert(s@.skip(0) =~= s@);
    }
    while i < s.len()
        invariant
            i <= s@.len(),
            assoc_get(s@, k) == assoc_get(s@.skip(i as int), k),
        decreases s@.len() - i,
    {
        proof {
            lemma_assoc_get_skip_step(s@, i as int, k);
        }
        if s[i].0 == k {
            return Some(i);
        }
        i += 1;
    }
    proof {
        assert(s@.skip(i as int) =~= Seq::<(NamespaceId, PrefixId)>::empty());
    }
    None
}

/// First index carrying the prefix key, if the key is present at all.
fn assoc_index_prefix(s: &Vec<(PrefixId, NamespaceId)>, k: PrefixId) -> (r: Option<usize>)
    ensures
        match r {
            Some(i) => i < s@.len() && s@[i as int].0 == k,
            None => assoc_get(s@, k) is None,
        },
{
    let mut i: usize = 0;
    proof {
        assert(s@.skip(0) =~= s@);
    }
    while i < s.len()
        invariant
            i <= s@.len(),
            assoc_get(s@, k) == assoc_get(s@.skip(i as int), k),
        decreases s@.len() - i,
    {
        proof {
            lemma_assoc_get_skip_step(s@, i as int, k);
        }
        if s[i].0 == k {
            return Some(i);
        }
        i += 1;
    }
    proof {
        assert(s@.skip(i as int) =~= Seq::<(PrefixId, NamespaceId)>::empty());
    }
    None
}

/// A text node's content.
#[verifier::ext_equal]
pub struct Text {
    pub(crate) content: String,
}

impl Text {
    pub closed spec fn spec_get(self) -> Seq<char> {
        self.content@
    }

    pub fn new(content: String) -> (r: Text)
        ensures
            r.spec_get() == content@,
    {
        Text { content }
    }

    pub fn get(&self) -> (r: &str)
        ensures
            r@ == self.spec_get(),
    {
        self.content.as_str()
    }

    pub fn set(&mut self, content: String)
        ensures
            final(self).spec_get() == content@,
    {
        self.content = content;
    }
}

/// A comment node's content.
#[verifier::ext_equal]
pub struct Comment {
    pub(crate) content: String,
}

impl Comment {
    pub closed spec fn spec_get(self) -> Seq<char> {
        self.content@
    }

    pub fn new(content: String) -> (r: Comment)
        ensures
            r.spec_get() == content@,
    {
        Comment { content }
    }

    pub fn get(&self) -> (r: &str)
        ensures
            r@ == self.spec_get(),
    {
        self.content.as_str()
    }

    pub fn set(&mut self, content: String)
        ensures
            final(self).spec_get() == content@,
    {
        self.content = content;
    }
}

/// A processing instruction: a target and optional data.
#[verifier::ext_equal]
pub struct ProcessingInstruction {
    pub(crate) target: String,
    pub(crate) data: Option<String>,
}

impl ProcessingInstruction {
    pub closed spec fn spec_target(self) -> Seq<char> {
        self.target@
    }

    pub closed spec fn spec_data(self) -> Option<Seq<char>> {
        match self.data {
            Some(d) => Some(d@),
            None => None,
        }
    }

    pub fn new(target: String, data: Option<String>) -> (r: ProcessingInstruction)
        ensures
            r.spec_target() == target@,
            data is Some ==> r.spec_data() == Some(data->Some_0@),
            data is None ==> r.spec_data() is None,
    {
        ProcessingInstruction { target, data }
    }

    pub fn target(&self) -> (r: &str)
        ensures
            r@ == self.spec_target(),
    {
        self.target.as_str()
    }

    pub fn data(&self) -> (r: Option<&str>)
        ensures
            r is Some <==> self.spec_data() is Some,
            r is Some ==> r->Some_0@ == self.spec_data()->Some_0,
    {
        match &self.data {
            Some(d) => Some(d.as_str()),
            None => None,
        }
    }
}

/// The tagged value a node holds: the closed set of node kinds.
#[verifier::ext_equal]
pub enum XmlValue {
    /// The singleton top of a document subtree.
    Root,
    Element(Element),
    Text(Text),
    Comment(Comment),
    ProcessingInstruction(ProcessingInstruction),
}

impl XmlValue {
    pub open spec fn spec_value_type(self) -> ValueType {
        match self {
            XmlValue::Root => ValueType::Root,
            XmlValue::Element(_) => ValueType::Element,
            XmlValue::Text(_) => ValueType::Text,
            XmlValue::Comment(_) => ValueType::Comment,
            XmlValue::ProcessingInstruction(_) => ValueType::ProcessingInstruction,
        }
    }

    /// The element's namespace declarations are association lists with
    /// unique keys; other kinds carry no such lists.
    pub open spec fn wf(self) -> bool {
        match self {
            XmlValue::Element(e) => e.wf(),
            _ => true,
        }
    }

    /// The kind of this value.
    pub fn value_type(&self) -> (r: ValueType)
        ensures
            r == self.spec_value_type(),
    {
        match self {
            XmlValue::Root => ValueType::Root,
            XmlValue::Element(_) => ValueType::Element,
            XmlValue::Text(_) => ValueType::Text,
            XmlValue::Comment(_) => ValueType::Comment,
            XmlValue::ProcessingInstruction(_) => ValueType::ProcessingInstruction,
        }
    }
}

} // verus!
