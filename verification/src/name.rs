//! Interning of names: a name is a local string scoped by a namespace.

use vstd::prelude::*;

use crate::id::{NameId, NamespaceId};

verus! {

/// The key of the name table: a local name string together with the
/// namespace it lives in. Identical local spellings in different namespaces
/// are different names; the prefix is never part of a name's identity.
pub struct Name {
    pub(crate) name: String,
    pub(crate) namespace_id: NamespaceId,
}

impl Name {
    pub closed spec fn spec_local(self) -> Seq<char> {
        self.name@
    }

    pub closed spec fn spec_namespace(self) -> NamespaceId {
        self.namespace_id
    }

    pub fn new(name: String, namespace_id: NamespaceId) -> (r: Name)
        ensures
            r.spec_local() == name@,
            r.spec_namespace() == namespace_id,
    {
        Name { name, namespace_id }
    }

    /// The local name string.
    pub fn local(&self) -> (r: &str)
        ensures
            r@ == self.spec_local(),
    {
        self.name.as_str()
    }

    /// The namespace the name lives in.
    pub fn namespace(&self) -> (r: NamespaceId)
        ensures
            r == self.spec_namespace(),
    {
        self.namespace_id
    }
}

/// A bidirectional map between (local name, namespace) pairs and `NameId`s.
///
/// An id is an index into the table; entries are unique as pairs, so the
/// same local string in the same namespace always interns to the same id,
/// while the same local string in different namespaces interns to different
/// ids. Ids are never reused.
pub struct NameLookup {
    pub(crate) entries: Vec<Name>,
}

impl NameLookup {
    /// How many names have been interned.
    pub closed spec fn spec_len(self) -> nat {
        self.entries@.len()
    }

    /// The (local name, namespace) pair stored under index `i`.
    pub closed spec fn spec_entry(self, i: int) -> (Seq<char>, NamespaceId) {
        (self.entries@[i].spec_local(), self.entries@[i].spec_namespace())
    }

    /// No pair is stored twice.
    pub open spec fn wf(self) -> bool {
        forall|i: int, j: int|
            0 <= i < j < self.spec_len() ==> #[trigger] self.spec_entry(i) != #[trigger] self.spec_entry(j)
    }

    /// Some entry holds this pair.
    pub open spec fn spec_contains(self, key: (Seq<char>, NamespaceId)) -> bool {
        exists|i: int| 0 <= i < self.spec_len() && #[trigger] self.spec_entry(i) == key
    }

    pub fn new() -> (r: NameLookup)
        ensures
            r.spec_len() == 0,
            r.wf(),
    {
        NameLookup { entries: Vec::new() }
    }

    /// How many entries the table holds.
    pub fn len(&self) -> (r: usize)
        ensures
            r == self.spec_len(),
    {
        self.entries.len()
    }

    /// The id of an already-interned name, if the pair was seen before.
    pub fn get_id(&self, value: &Name) -> (r: Option<NameId>)
        ensures
            match r {
                Some(id) => id.spec_index() < self.spec_len() && self.spec_entry(id.spec_index() as int) == (
                value.spec_local(), value.spec_namespace()),
                None => !self.spec_contains((value.spec_local(), value.spec_namespace())),
            },
    {
        let n = self.entries.len();
        let mut i: usize = 0;
        while i < n
            invariant
                i <= n,
                n == self.spec_len(),
                forall|j: int|
                    0 <= j < i ==> #[trigger] self.spec_entry(j) != (
                    value.spec_local(),
                    value.spec_namespace(),
                    ),
            decreases n - i,
        {
            if self.entries[i].name == value.name && self.entries[i].namespace_id
                == value.namespace_id {
                return Some(NameId::new(i));
            }
            i += 1;
        }
        None
    }

    /// The id of the name, interning the pair first if it is new.
    ///
    /// An already-known pair keeps its id and leaves the table unchanged; a
    /// new pair is stored under the next id, monotonically increasing and
    /// never reused.
    pub fn get_id_mut(&mut self, value: Name) -> (r: NameId)
        requires
            old(self).wf(),
        ensures
            final(self).wf(),
            r.spec_index() < final(self).spec_len(),
            final(self).spec_entry(r.spec_index() as int) == (value.spec_local(), value.spec_namespace()),
            old(self).spec_contains((value.spec_local(), value.spec_namespace())) ==> *final(self)
                == *old(self),
            !old(self).spec_contains((value.spec_local(), value.spec_namespace())) ==> {
                &&& final(self).spec_len() == old(self).spec_len() + 1
                &&& r.spec_index() == old(self).spec_len()
                &&& forall|i: int|
                    0 <= i < old(self).spec_len() ==> #[trigger] final(self).spec_entry(i) == old(
                        self,
                    ).spec_entry(i)
            },
    {
        match self.get_id(&value) {
            Some(id) => id,
            None => {
                let id = self.entries.len();
                let ghost oldt = *self;
                self.entries.push(value);
                proof {
                    assert forall|i: int| 0 <= i < oldt.spec_len() implies #[trigger] self.spec_entry(i)
                        == oldt.spec_entry(i) by {
                        assert(self.entries@[i] == oldt.entries@[i]);
                    }
                    assert(self.spec_entry(id as int) == (value.spec_local(), value.spec_namespace()));
                    assert forall|i: int, j: int| 0 <= i < j < self.spec_len() implies
                        #[trigger] self.spec_entry(i) != #[trigger] self.spec_entry(j) by {
                        if j + 1 < self.spec_len() {
                            assert(oldt.spec_entry(i) != oldt.spec_entry(j));
                        } else {
                            assert(self.spec_entry(i) == oldt.spec_entry(i));
                            assert(!oldt.spec_contains((value.spec_local(), value.spec_namespace())));
                        }
                    }
                }
                NameId::new(id)
            },
        }
    }

    /// The name interned under `id`.
    pub fn get_value(&self, id: NameId) -> (r: &Name)
        requires
            id.spec_index() < self.spec_len(),
        ensures
            r.spec_local() == self.spec_entry(id.spec_index() as int).0,
            r.spec_namespace() == self.spec_entry(id.spec_index() as int).1,
    {
        &self.entries[id.index()]
    }
}

} // verus!
