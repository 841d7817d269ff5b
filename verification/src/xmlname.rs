//! Contextual names: an interned name identity paired with a resolution
//! context, able to render its local name, namespace, prefix and full
//! name on demand.

use vstd::prelude::*;

use crate::error::Error;
use crate::id::{NameId, NamespaceId, PrefixId};
use crate::xmldata::{XmlData, XmlNode};
use crate::xmlvalue::{assoc_get, lemma_assoc_get_skip_step};

verus! {

/// The first colon in a string, if any: the prefix/local-name split point
/// of a full name.
pub open spec fn spec_first_colon(s: Seq<char>) -> Option<int>
    decreases s.len(),
{
    if s.len() == 0 {
        None
    } else if s[0] == ':' {
        Some(0)
    } else {
        match spec_first_colon(s.drop_first()) {
            Some(i) => Some(i + 1),
            None => None,
        }
    }
}

/// What the split point means: the character there is a colon and none
/// before it is.
pub proof fn lemma_first_colon_ensures(s: Seq<char>)
    ensures
        match spec_first_colon(s) {
            Some(i) => 0 <= i < s.len() && s[i] == ':' && (forall|j: int|
                0 <= j < i ==> s[j] != ':'),
            None => forall|j: int| 0 <= j < s.len() ==> s[j] != ':',
        },
    decreases s.len(),
{
    if s.len() > 0 && s[0] != ':' {
        lemma_first_colon_ensures(s.drop_first());
        assert(forall|j: int| 1 <= j < s.len() ==> s[j] == s.drop_first()[j - 1]);
    }
}

/// A way to look up prefix bindings: either a node's position in a tree or
/// an explicit caller-supplied map.
pub trait Lookup {
    /// What this context must satisfy for lookups to be asked.
    spec fn inv(&self) -> bool;

    /// The prefix this context binds to the namespace, if any.
    spec fn spec_prefix_for_namespace(&self, namespace_id: NamespaceId) -> Option<PrefixId>;

    /// The namespace this context binds to the prefix, if any.
    spec fn spec_namespace_for_prefix(&self, prefix_id: PrefixId) -> Option<NamespaceId>;

    fn prefix_id_for_namespace_id(&self, namespace_id: NamespaceId) -> (r: Option<PrefixId>)
        requires
            self.inv(),
        ensures
            r == self.spec_prefix_for_namespace(namespace_id),
    ;

    fn namespace_id_for_prefix_id(&self, prefix_id: PrefixId) -> (r: Option<NamespaceId>)
        requires
            self.inv(),
        ensures
            r == self.spec_namespace_for_prefix(prefix_id),
    ;
}

/// Resolution relative to a node's position: the nearest enclosing
/// declaration wins.
#[derive(Clone)]
pub struct NodeLookup<'a> {
    pub(crate) data: &'a XmlData,
    pub(crate) node: XmlNode,
}

impl<'a> NodeLookup<'a> {
    /// The store the lookup resolves against.
    pub closed spec fn spec_data(self) -> XmlData {
        *self.data
    }

    /// The node the lookup resolves at.
    pub closed spec fn spec_node(self) -> XmlNode {
        self.node
    }

    pub fn new(data: &'a XmlData, node: XmlNode) -> (r: NodeLookup<'a>)
        requires
            data.wf(),
            data.live_node(node),
        ensures
            r.inv(),
            r.spec_data() == *data,
            r.spec_node() == node,
    {
        NodeLookup { data, node }
    }
}

impl<'a> Lookup for NodeLookup<'a> {
    open spec fn inv(&self) -> bool {
        self.spec_data().wf() && self.spec_data().live_node(self.spec_node())
    }

    open spec fn spec_prefix_for_namespace(&self, namespace_id: NamespaceId) -> Option<PrefixId> {
        crate::xmldata::spec_prefix_for_namespace(
            self.spec_data().spec_arena(),
            self.spec_node().spec_index(),
            namespace_id,
            self.spec_data().spec_arena().spec_len(),
        )
    }

    open spec fn spec_namespace_for_prefix(&self, prefix_id: PrefixId) -> Option<NamespaceId> {
        crate::xmldata::spec_namespace_for_prefix(
            self.spec_data().spec_arena(),
            self.spec_node().spec_index(),
            prefix_id,
            self.spec_data().spec_arena().spec_len(),
        )
    }

    fn prefix_id_for_namespace_id(&self, namespace_id: NamespaceId) -> (r: Option<PrefixId>) {
        self.data.prefix_for_namespace(self.node, namespace_id)
    }

    fn namespace_id_for_prefix_id(&self, prefix_id: PrefixId) -> (r: Option<NamespaceId>) {
        self.data.namespace_for_prefix(self.node, prefix_id)
    }
}

/// First binding in the list whose namespace is `ns`, read right to left
/// of the pairs.
pub open spec fn rev_assoc_get(s: Seq<(PrefixId, NamespaceId)>, ns: NamespaceId) -> Option<
    PrefixId,
>
    decreases s.len(),
{
    if s.len() == 0 {
        None
    } else if s[0].1 == ns {
        Some(s[0].0)
    } else {
        rev_assoc_get(s.drop_first(), ns)
    }
}

proof fn lemma_rev_assoc_get_skip_step(s: Seq<(PrefixId, NamespaceId)>, i: int, ns: NamespaceId)
    requires
        0 <= i < s.len(),
    ensures
        s[i].1 != ns ==> rev_assoc_get(s.skip(i), ns) == rev_assoc_get(s.skip(i + 1), ns),
        s[i].1 == ns ==> rev_assoc_get(s.skip(i), ns) == Some(s[i].0),
{
    assert(s.skip(i)[0] == s[i]);
    assert(s.skip(i).drop_first() =~= s.skip(i + 1));
}

/// An explicit caller-supplied prefix map, usable as a resolution context
/// without any tree position.
pub struct MapLookup {
    pub(crate) decls: Vec<(PrefixId, NamespaceId)>,
}

impl MapLookup {
    /// The declarations, earliest first; the earliest binding for a key
    /// wins.
    pub closed spec fn spec_decls(self) -> Seq<(PrefixId, NamespaceId)> {
        self.decls@
    }

    pub fn new() -> (r: MapLookup)
        ensures
            r.spec_decls() == Seq::<(PrefixId, NamespaceId)>::empty(),
    {
        MapLookup { decls: Vec::new() }
    }

    /// Record that `prefix_id` denotes `namespace_id`; an earlier binding
    /// for the same prefix keeps priority.
    pub fn insert(&mut self, prefix_id: PrefixId, namespace_id: NamespaceId)
        ensures
            final(self).spec_decls() == old(self).spec_decls().push((prefix_id, namespace_id)),
    {
        self.decls.push((prefix_id, namespace_id));
    }
}

impl Lookup for MapLookup {
    open spec fn inv(&self) -> bool {
        true
    }

    open spec fn spec_prefix_for_namespace(&self, namespace_id: NamespaceId) -> Option<PrefixId> {
        rev_assoc_get(self.spec_decls(), namespace_id)
    }

    open spec fn spec_namespace_for_prefix(&self, prefix_id: PrefixId) -> Option<NamespaceId> {
        assoc_get(self.spec_decls(), prefix_id)
    }

    fn prefix_id_for_namespace_id(&self, namespace_id: NamespaceId) -> (r: Option<PrefixId>) {
        let n = self.decls.len();
        let mut i: usize = 0;
        proof {
            assert(self.decls@.skip(0) =~= self.decls@);
        }
        while i < n
            invariant
                i <= n,
                n == self.spec_decls().len(),
                rev_assoc_get(self.spec_decls(), namespace_id) == rev_assoc_get(
                    self.spec_decls().skip(i as int),
                    namespace_id,
                ),
            decreases n - i,
        {
            proof {
                lemma_rev_assoc_get_skip_step(self.decls@, i as int, namespace_id);
            }
            if self.decls[i].1 == namespace_id {
                return Some(self.decls[i].0);
            }
            i += 1;
        }
        proof {
            assert(self.decls@.skip(i as int) =~= Seq::<(PrefixId, NamespaceId)>::empty());
        }
        None
    }

    fn namespace_id_for_prefix_id(&self, prefix_id: PrefixId) -> (r: Option<NamespaceId>) {
        let n = self.decls.len();
        let mut i: usize = 0;
        proof {
            assert(self.decls@.skip(0) =~= self.decls@);
        }
        while i < n
            invariant
                i <= n,
                n == self.spec_decls().len(),
                assoc_get(self.spec_decls(), prefix_id) == assoc_get(
                    self.spec_decls().skip(i as int),
                    prefix_id,
                ),
            decreases n - i,
        {
            proof {
                lemma_assoc_get_skip_step(self.decls@, i as int, prefix_id);
            }
            if self.decls[i].0 == prefix_id {
                return Some(self.decls[i].1);
            }
            i += 1;
        }
        proof {
            assert(self.decls@.skip(i as int) =~= Seq::<(PrefixId, NamespaceId)>::empty());
        }
        None
    }
}

/// A fully resolved name: identity, namespace and the prefix it carried
/// when it was resolved.
#[derive(Debug, Clone, Copy, PartialEq, Eq, Hash, Structural)]
pub struct XmlNameState {
    pub(crate) name_id: NameId,
    pub(crate) namespace_id: NamespaceId,
    pub(crate) prefix_id: PrefixId,
}

impl XmlNameState {
    pub closed spec fn spec_name_id(self) -> NameId {
        self.name_id
    }

    pub closed spec fn spec_namespace_id(self) -> NamespaceId {
        self.namespace_id
    }

    pub closed spec fn spec_prefix_id(self) -> PrefixId {
        self.prefix_id
    }

    pub fn new(name_id: NameId, namespace_id: NamespaceId, prefix_id: PrefixId) -> (r:
        XmlNameState)
        ensures
            r.spec_name_id() == name_id,
            r.spec_namespace_id() == namespace_id,
            r.spec_prefix_id() == prefix_id,
    {
        XmlNameState { name_id, namespace_id, prefix_id }
    }

    pub fn name_id(&self) -> (r: NameId)
        ensures
            r == self.spec_name_id(),
    {
        self.name_id
    }

    pub fn namespace_id(&self) -> (r: NamespaceId)
        ensures
            r == self.spec_namespace_id(),
    {
        self.namespace_id
    }

    pub fn prefix_id(&self) -> (r: PrefixId)
        ensures
            r == self.spec_prefix_id(),
    {
        self.prefix_id
    }
}

/// Access to the identity behind a contextual name.
pub trait NameIdInfo {
    /// What the carrier must satisfy for the accessors to be asked.
    spec fn inv(&self) -> bool;

    /// The identity of the name.
    spec fn spec_name_id(&self) -> NameId;

    /// The namespace the name lives in.
    spec fn spec_namespace_id(&self) -> NamespaceId;

    /// Access the underlying name id.
    fn name_id(&self) -> (r: NameId)
        requires
            self.inv(),
        ensures
            r == self.spec_name_id(),
    ;

    /// Access the underlying namespace id.
    fn namespace_id(&self) -> (r: NamespaceId)
        requires
            self.inv(),
        ensures
            r == self.spec_namespace_id(),
    ;

    /// Access the prefix id in this context.
    fn prefix_id(&self) -> (r: Result<PrefixId, Error>)
        requires
            self.inv(),
    ;
}

/// A structure for reading names in a tree: an interned name identity plus
/// a lookup context. Only the name id takes part in equality; the context
/// and any prefix are presentational.
#[derive(Clone)]
pub struct XmlNameRef<'a, L: Lookup> {
    pub(crate) data: &'a XmlData,
    pub(crate) lookup: L,
    pub(crate) name_id: NameId,
}

impl<'a, L: Lookup> XmlNameRef<'a, L> {
    /// The store the name was interned in.
    pub closed spec fn spec_data(self) -> XmlData {
        *self.data
    }

    /// The lookup context.
    pub closed spec fn spec_lookup(self) -> L {
        self.lookup
    }

    /// The identity of the name.
    pub closed spec fn spec_name_id(self) -> NameId {
        self.name_id
    }

    /// A usable contextual name: a well-formed store, a valid name id and
    /// a usable lookup context.
    pub open spec fn inv(self) -> bool {
        &&& self.spec_data().wf()
        &&& self.spec_name_id().spec_index() < self.spec_data().spec_name_lookup().spec_len()
        &&& self.spec_lookup().inv()
    }

    /// The namespace id embedded in the name.
    pub open spec fn spec_namespace_id(self) -> NamespaceId {
        self.spec_data().spec_name_lookup().spec_entry(self.spec_name_id().spec_index() as int).1
    }

    /// Create a contextual name from an existing name id.
    pub fn new(data: &'a XmlData, lookup: L, name_id: NameId) -> (r: XmlNameRef<'a, L>)
        requires
            data.wf(),
            name_id.spec_index() < data.spec_name_lookup().spec_len(),
            lookup.inv(),
        ensures
            r.inv(),
            r.spec_data() == *data,
            r.spec_lookup() == lookup,
            r.spec_name_id() == name_id,
    {
        XmlNameRef { data, lookup, name_id }
    }

    /// Create a contextual name from a local name and a namespace string,
    /// interning both. The empty namespace string means "not in a
    /// namespace".
    pub fn from_name_ns(data: &'a mut XmlData, lookup: L, local_name: &str, namespace: &str) -> (r:
        XmlNameRef<'a, L>)
        requires
            old(data).wf(),
            lookup.inv(),
        ensures
            final(data).wf(),
            XmlData::tables_extended(*old(data), *final(data)),
            final(data).spec_prefix_lookup() == old(data).spec_prefix_lookup(),
            r.inv(),
            r.spec_lookup() == lookup,
            r.spec_data() == *final(data),
            r.spec_name_id().spec_index() < final(data).spec_name_lookup().spec_len(),
            final(data).spec_name_lookup().spec_entry(r.spec_name_id().spec_index() as int) == (
                local_name@,
                r.spec_namespace_id(),
            ),
            r.spec_namespace_id().spec_index() < final(data).spec_namespace_lookup().spec_len(),
            final(data).spec_namespace_lookup().spec_entry(
                r.spec_namespace_id().spec_index() as int,
            ) == namespace@,
    {
        let ghost d0 = *data;
        let namespace_id = data.add_namespace(namespace);
        let ghost d1 = *data;
        let name_id = data.add_name_ns(local_name, namespace_id);
        proof {
            assert(XmlData::tables_extended(d0, d1));
            assert(XmlData::tables_extended(d1, *data));
            XmlData::lemma_tables_extended_trans(d0, d1, *data);
            assert(data.spec_namespace_lookup().spec_entry(namespace_id.spec_index() as int)
                == namespace@) by {
                assert(d1.spec_namespace_lookup().spec_entry(namespace_id.spec_index() as int)
                    == namespace@);
            }
        }
        XmlNameRef { data, lookup, name_id }
    }

    /// Create a contextual name from a prefix and a local name: the prefix
    /// must already resolve to a namespace in the supplied context.
    /// Succeeds exactly when the context binds the (freshly interned)
    /// prefix to a namespace of this store. The prefix is interned even on
    /// failure; no name is interned then.
    pub fn from_prefix_name(data: &'a mut XmlData, lookup: L, prefix: &str, local_name: &str) -> (r:
        Result<XmlNameRef<'a, L>, Error>)
        requires
            old(data).wf(),
            lookup.inv(),
        ensures
            final(data).wf(),
            XmlData::tables_extended(*old(data), *final(data)),
            final(data).spec_namespace_lookup() == old(data).spec_namespace_lookup(),
            final(data).spec_prefix_lookup().spec_contains(prefix@),
            forall|pid: PrefixId|
                #![trigger lookup.spec_namespace_for_prefix(pid)]
                pid.spec_index() < final(data).spec_prefix_lookup().spec_len() && final(data).spec_prefix_lookup().spec_entry(pid.spec_index() as int) == prefix@ ==> {
                    &&& (r is Ok <==> (lookup.spec_namespace_for_prefix(pid) matches Some(ns)
                        && ns.spec_index() < old(data).spec_namespace_lookup().spec_len()))
                    &&& (r matches Ok(nr) ==> lookup.spec_namespace_for_prefix(pid) == Some(
                        nr.spec_namespace_id(),
                    ))
                },
            r matches Err(e) ==> (e matches Error::UnknownPrefix(s) && s@ == prefix@),
            r is Err ==> final(data).spec_name_lookup() == old(data).spec_name_lookup(),
            r matches Ok(nr) ==> {
                &&& nr.inv()
                &&& nr.spec_lookup() == lookup
                &&& nr.spec_data() == *final(data)
                &&& nr.spec_name_id().spec_index() < final(data).spec_name_lookup().spec_len()
                &&& final(data).spec_name_lookup().spec_entry(
                    nr.spec_name_id().spec_index() as int,
                ) == (local_name@, nr.spec_namespace_id())
            },
    {
        let ghost d0 = *data;
        let prefix_id = data.add_prefix(prefix);
        let ghost d1 = *data;
        proof {
            assert(XmlData::tables_extended(d0, d1));
        }
        let namespace_id = match lookup.namespace_id_for_prefix_id(prefix_id) {
            Some(ns) => ns,
            None => {
                proof {
                    data.lemma_prefix_entry_unique(prefix_id);
                }
                return Err(Error::UnknownPrefix(String::from_str(prefix)));
            },
        };
        if data.namespace_id_in_range(namespace_id) {
            let name_id = data.add_name_ns(local_name, namespace_id);
            proof {
                assert(XmlData::tables_extended(d1, *data));
                XmlData::lemma_tables_extended_trans(d0, d1, *data);
                data.lemma_prefix_entry_unique(prefix_id);
                assert(data.spec_prefix_lookup().spec_entry(prefix_id.spec_index() as int)
                    == prefix@) by {
                    assert(d1.spec_prefix_lookup().spec_entry(prefix_id.spec_index() as int)
                        == prefix@);
                }
            }
            Ok(XmlNameRef { data, lookup, name_id })
        } else {
            proof {
                data.lemma_prefix_entry_unique(prefix_id);
            }
            Err(Error::UnknownPrefix(String::from_str(prefix)))
        }
    }

    /// Create a contextual name by splitting a full name at its first
    /// colon into a prefix and a local part.
    pub fn from_fullname(data: &'a mut XmlData, lookup: L, fullname: &str) -> (r: Result<
        XmlNameRef<'a, L>,
        Error,
    >)
        requires
            old(data).wf(),
            lookup.inv(),
        ensures
            final(data).wf(),
            XmlData::tables_extended(*old(data), *final(data)),
            final(data).spec_namespace_lookup() == old(data).spec_namespace_lookup(),
            ({
                let pfx = match spec_first_colon(fullname@) {
                    Some(i) => fullname@.subrange(0, i),
                    None => Seq::<char>::empty(),
                };
                let loc = match spec_first_colon(fullname@) {
                    Some(i) => fullname@.subrange(i + 1, fullname@.len() as int),
                    None => fullname@,
                };
                &&& final(data).spec_prefix_lookup().spec_contains(pfx)
                &&& (forall|pid: PrefixId|
                    #![trigger lookup.spec_namespace_for_prefix(pid)]
                    pid.spec_index() < final(data).spec_prefix_lookup().spec_len() && final(data).spec_prefix_lookup().spec_entry(pid.spec_index() as int) == pfx ==> {
                        &&& (r is Ok <==> (lookup.spec_namespace_for_prefix(pid) matches Some(ns)
                            && ns.spec_index() < old(data).spec_namespace_lookup().spec_len()))
                        &&& (r matches Ok(nr) ==> lookup.spec_namespace_for_prefix(pid) == Some(
                            nr.spec_namespace_id(),
                        ))
                    })
                &&& (r matches Err(e) ==> (e matches Error::UnknownPrefix(s) && s@ == pfx))
                &&& (r is Err ==> final(data).spec_name_lookup() == old(data).spec_name_lookup())
                &&& (r matches Ok(nr) ==> {
                    &&& nr.inv()
                    &&& nr.spec_lookup() == lookup
                    &&& nr.spec_data() == *final(data)
                    &&& nr.spec_name_id().spec_index() < final(data).spec_name_lookup().spec_len()
                    &&& final(data).spec_name_lookup().spec_entry(
                        nr.spec_name_id().spec_index() as int,
                    ) == (loc, nr.spec_namespace_id())
                })
            }),
    {
        let len = fullname.unicode_len();
        let mut i: usize = 0;
        let mut found = false;
        proof {
            lemma_first_colon_ensures(fullname@);
        }
        while i < len && !found
            invariant
                i <= len,
                len == fullname@.len(),
                forall|j: int| 0 <= j < i ==> fullname@[j] != ':',
                found ==> i < len && fullname@[i as int] == ':',
            decreases 2 * (len - i) + (if found {
                0int
            } else {
                1int
            }),
        {
            if fullname.get_char(i) == ':' {
                found = true;
            } else {
                i += 1;
            }
        }
        let colon: Option<usize> = if found {
            Some(i)
        } else {
            None
        };
        match colon {
            Some(pos) => {
                proof {
                    assert(spec_first_colon(fullname@) == Some(pos as int)) by {
                        match spec_first_colon(fullname@) {
                            Some(k) => {
                                if k < pos {
                                    assert(fullname@[k] != ':');
                                } else if k > pos {
                                    assert(fullname@[pos as int] != ':');
                                }
                            },
                            None => {
                                assert(fullname@[pos as int] != ':');
                            },
                        }
                    }
                }
                let prefix = fullname.substring_char(0, pos);
                let local_name = fullname.substring_char(pos + 1, len);
                Self::from_prefix_name(data, lookup, prefix, local_name)
            },
            None => {
                proof {
                    assert(spec_first_colon(fullname@) is None) by {
                        match spec_first_colon(fullname@) {
                            Some(k) => {
                                assert(fullname@[k] != ':');
                            },
                            None => {},
                        }
                    }
                    assert(fullname@.subrange(0, 0) =~= Seq::<char>::empty());
                    assert(fullname@.subrange(0, fullname@.len() as int) =~= fullname@);
                }
                let prefix = fullname.substring_char(0, 0);
                let local_name = fullname.substring_char(0, len);
                Self::from_prefix_name(data, lookup, prefix, local_name)
            },
        }
    }

    /// The prefix id for the name's namespace in this context: the "no
    /// namespace" sentinel always resolves to the empty prefix without a
    /// lookup; any other namespace asks the context for the nearest
    /// binding and fails with a missing-prefix error when there is none.
    pub fn resolve_prefix_id(&self) -> (r: Result<PrefixId, Error>)
        requires
            self.inv(),
        ensures
            self.spec_namespace_id() == self.spec_data().spec_no_namespace() ==> r == Ok::<
                PrefixId,
                Error,
            >(self.spec_data().spec_empty_prefix()),
            self.spec_namespace_id() != self.spec_data().spec_no_namespace() ==> {
                &&& (r is Ok <==> self.spec_lookup().spec_prefix_for_namespace(
                    self.spec_namespace_id(),
                ) is Some)
                &&& (r matches Ok(pid) ==> Some(pid) == self.spec_lookup()
                    .spec_prefix_for_namespace(self.spec_namespace_id()))
                &&& (r matches Err(e) ==> e matches Error::MissingPrefix(ns) && ns
                    == self.spec_namespace_id())
            },
    {
        let namespace_id = self.data.namespace_for_name(self.name_id);
        if namespace_id == self.data.no_namespace() {
            return Ok(self.data.empty_prefix());
        }
        match self.lookup.prefix_id_for_namespace_id(namespace_id) {
            Some(prefix_id) => Ok(prefix_id),
            None => Err(Error::MissingPrefix(namespace_id)),
        }
    }

    /// Freeze the name with its resolved namespace and prefix.
    pub fn to_state(&self) -> (r: Result<XmlNameState, Error>)
        requires
            self.inv(),
        ensures
            r matches Ok(st) ==> st.spec_name_id() == self.spec_name_id()
                && st.spec_namespace_id() == self.spec_namespace_id(),
            r matches Ok(st) ==> (self.spec_namespace_id() != self.spec_data().spec_no_namespace()
                ==> self.spec_lookup().spec_prefix_for_namespace(self.spec_namespace_id()) == Some(
                st.spec_prefix_id(),
            )),
            self.spec_namespace_id() == self.spec_data().spec_no_namespace() ==> (r matches Ok(st)
                && st.spec_prefix_id() == self.spec_data().spec_empty_prefix()),
            r matches Err(e) ==> e is MissingPrefix && self.spec_lookup()
                .spec_prefix_for_namespace(self.spec_namespace_id()) is None,
    {
        let name_id = self.name_id;
        let namespace_id = self.data.namespace_for_name(self.name_id);
        match self.resolve_prefix_id() {
            Ok(prefix_id) => Ok(XmlNameState::new(name_id, namespace_id, prefix_id)),
            Err(e) => Err(e),
        }
    }

    /// Get the local name as a string slice.
    pub fn local_name(&self) -> (r: &str)
        requires
            self.inv(),
        ensures
            r@ == self.spec_data().spec_name_lookup().spec_entry(
                self.spec_name_id().spec_index() as int,
            ).0,
    {
        self.data.local_name_str(self.name_id)
    }

    /// Get the namespace as a string slice; the empty string when the name
    /// is in no namespace.
    pub fn namespace(&self) -> (r: &str)
        requires
            self.inv(),
        ensures
            r@ == self.spec_data().spec_namespace_lookup().spec_entry(
                self.spec_namespace_id().spec_index() as int,
            ),
    {
        let namespace_id = self.data.namespace_for_name(self.name_id);
        self.data.namespace_str(namespace_id)
    }

    /// Get the prefix the context binds to the name's namespace: the
    /// empty string for a name in no namespace, otherwise the nearest
    /// declared prefix. Fails with a missing-prefix error when no
    /// enclosing declaration binds the namespace, or when the binding
    /// found does not belong to this store.
    pub fn prefix(&self) -> (r: Result<&str, Error>)
        requires
            self.inv(),
        ensures
            self.spec_namespace_id() == self.spec_data().spec_no_namespace() ==> (r matches Ok(p)
                && p@ == Seq::<char>::empty()),
            self.spec_namespace_id() != self.spec_data().spec_no_namespace() ==> (r is Ok <==> (
            self.spec_lookup().spec_prefix_for_namespace(self.spec_namespace_id()) matches Some(
                pid,
            ) && pid.spec_index() < self.spec_data().spec_prefix_lookup().spec_len())),
            r matches Ok(p) ==> (self.spec_namespace_id() != self.spec_data().spec_no_namespace()
                ==> (self.spec_lookup().spec_prefix_for_namespace(self.spec_namespace_id())
                matches Some(pid) && p@ == self.spec_data().spec_prefix_lookup().spec_entry(
                pid.spec_index() as int,
            ))),
            r matches Err(e) ==> e matches Error::MissingPrefix(ns) && ns
                == self.spec_namespace_id(),
    {
        match self.resolve_prefix_id() {
            Ok(prefix_id) => {
                if self.data.prefix_id_in_range(prefix_id) {
                    Ok(self.data.prefix_str(prefix_id))
                } else {
                    let namespace_id = self.data.namespace_for_name(self.name_id);
                    Err(Error::MissingPrefix(namespace_id))
                }
            },
            Err(e) => Err(e),
        }
    }

    /// Get the full name in this context: `prefix:local` when the resolved
    /// prefix is non-empty, the bare local name otherwise. Succeeds
    /// exactly when `prefix` does.
    pub fn fullname(&self) -> (r: Result<String, Error>)
        requires
            self.inv(),
        ensures
            ({
                let loc = self.spec_data().spec_name_lookup().spec_entry(
                    self.spec_name_id().spec_index() as int,
                ).0;
                &&& (self.spec_namespace_id() == self.spec_data().spec_no_namespace() ==> (
                r matches Ok(s) && s@ == loc))
                &&& (self.spec_namespace_id() != self.spec_data().spec_no_namespace() ==> (r is Ok
                    <==> (self.spec_lookup().spec_prefix_for_namespace(self.spec_namespace_id())
                    matches Some(pid) && pid.spec_index() < self.spec_data().spec_prefix_lookup()
                    .spec_len())))
                &&& (r matches Ok(s) ==> (self.spec_namespace_id() != self.spec_data()
                    .spec_no_namespace() ==> (self.spec_lookup().spec_prefix_for_namespace(
                    self.spec_namespace_id(),
                ) matches Some(pid) && {
                    let ps = self.spec_data().spec_prefix_lookup().spec_entry(
                        pid.spec_index() as int,
                    );
                    s@ == if ps.len() == 0 {
                        loc
                    } else {
                        ps + ":"@ + loc
                    }
                })))
                &&& (r matches Err(e) ==> e matches Error::MissingPrefix(ns) && ns
                    == self.spec_namespace_id())
            }),
    {
        let local = self.data.local_name_str(self.name_id);
        match self.prefix() {
            Ok(p) => {
                if p.unicode_len() > 0 {
                    Ok(String::from_str(p).concat(":").concat(local))
                } else {
                    Ok(String::from_str(local))
                }
            },
            Err(e) => Err(e),
        }
    }
}

impl<'a, L: Lookup> PartialEq for XmlNameRef<'a, L> {
    /// Equality is name identity alone: the context and prefix never take
    /// part.
    fn eq(&self, other: &Self) -> (r: bool) {
        self.name_id == other.name_id
    }
}

impl<'a, L: Lookup> vstd::std_specs::cmp::PartialEqSpecImpl for XmlNameRef<'a, L> {
    open spec fn obeys_eq_spec() -> bool {
        true
    }

    open spec fn eq_spec(&self, other: &XmlNameRef<'a, L>) -> bool {
        self.spec_name_id() == other.spec_name_id()
    }
}

impl<'a, L: Lookup> NameIdInfo for XmlNameRef<'a, L> {
    open spec fn inv(&self) -> bool {
        XmlNameRef::inv(*self)
    }

    open spec fn spec_name_id(&self) -> NameId {
        XmlNameRef::spec_name_id(*self)
    }

    open spec fn spec_namespace_id(&self) -> NamespaceId {
        XmlNameRef::spec_namespace_id(*self)
    }

    /// Access the underlying name id.
    fn name_id(&self) -> (r: NameId) {
        self.name_id
    }

    /// Access the underlying namespace id.
    fn namespace_id(&self) -> (r: NamespaceId) {
        self.data.namespace_for_name(self.name_id)
    }

    /// Access the prefix id in this context.
    fn prefix_id(&self) -> (r: Result<PrefixId, Error>) {
        self.resolve_prefix_id()
    }
}

} // verus!
