//! Interning of namespace URI strings.

use vstd::prelude::*;

use crate::id::NamespaceId;

verus! {

/// A namespace URI string, the key of the namespace table.
///
/// The empty string stands for "no namespace".
pub struct Namespace {
    pub(crate) value: String,
}

impl Namespace {
    pub closed spec fn spec_str(self) -> Seq<char> {
        self.value@
    }

    pub fn new(value: String) -> (r: Namespace)
        ensures
            r.spec_str() == value@,
    {
        Namespace { value }
    }

    pub fn as_str(&self) -> (r: &str)
        ensures
            r@ == self.spec_str(),
    {
        self.value.as_str()
    }
}

/// A bidirectional map between namespace strings and `NamespaceId`s.
///
/// An id is an index into the table; entries are unique, so equal strings
/// always intern to the same id, and ids are never reused.
pub struct NamespaceLookup {
    pub(crate) entries: Vec<Namespace>,
}

impl NamespaceLookup {
    /// How many strings have been interned.
    pub closed spec fn spec_len(self) -> nat {
        self.entries@.len()
    }

    /// The string stored under index `i`.
    pub closed spec fn spec_entry(self, i: int) -> Seq<char> {
        self.entries@[i].spec_str()
    }

    /// No string is stored twice.
    pub open spec fn wf(self) -> bool {
        forall|i: int, j: int|
            0 <= i < j < self.spec_len() ==> #[trigger] self.spec_entry(i) != #[trigger] self.spec_entry(j)
    }

    /// Some entry holds this string.
    pub open spec fn spec_contains(self, s: Seq<char>) -> bool {
        exists|i: int| 0 <= i < self.spec_len() && #[trigger] self.spec_entry(i) == s
    }

    pub fn new() -> (r: NamespaceLookup)
        ensures
            r.spec_len() == 0,
            r.wf(),
    {
        NamespaceLookup { entries: Vec::new() }
    }

    /// How many entries the table holds.
    pub fn len(&self) -> (r: usize)
        ensures
            r == self.spec_len(),
    {
        self.entries.len()
    }

    /// The id of an already-interned string, if the string was seen before.
    pub fn get_id(&self, value: &Namespace) -> (r: Option<NamespaceId>)
        ensures
            match r {
                Some(id) => id.spec_index() < self.spec_len() && self.spec_entry(id.spec_index() as int)
                    == value.spec_str(),
                None => !self.spec_contains(value.spec_str()),
            },
    {
        let n = self.entries.len();
        let mut i: usize = 0;
        while i < n
            invariant
                i <= n,
                n == self.spec_len(),
                forall|j: int| 0 <= j < i ==> #[trigger] self.spec_entry(j) != value.spec_str(),
            decreases n - i,
        {
            if self.entries[i].value == value.value {
                return Some(NamespaceId::new(i));
            }
            i += 1;
        }
        None
    }

    /// The id of the string, interning it first if it is new.
    ///
    /// An already-known string keeps its id and leaves the table unchanged;
    /// a new string is stored under the next id, monotonically increasing
    /// and never reused.
    pub fn get_id_mut(&mut self, value: Namespace) -> (r: NamespaceId)
        requires
            old(self).wf(),
        ensures
            final(self).wf(),
            r.spec_index() < final(self).spec_len(),
            final(self).spec_entry(r.spec_index() as int) == value.spec_str(),
            old(self).spec_contains(value.spec_str()) ==> *final(self) == *old(self),
            !old(self).spec_contains(value.spec_str()) ==> {
                &&& final(self).spec_len() == old(self).spec_len() + 1
                &&& r.spec_index() == old(self).spec_len()
                &&& forall|i: int|
                    0 <= i < old(self).spec_len() ==> #[trigger] final(self).spec_entry(i) == old(
                        self,
                    ).spec_entry(i)
            },
    {
        match self.get_id(&value) {
            Some(id) => id,
            None => {
                let id = self.entries.len();
                let ghost oldt = *self;
                self.entries.push(value);
                proof {
                    assert forall|i: int| 0 <= i < oldt.spec_len() implies #[trigger] self.spec_entry(i)
                        == oldt.spec_entry(i) by {
                        assert(self.entries@[i] == oldt.entries@[i]);
                    }
                    assert(self.spec_entry(id as int) == value.spec_str());
                    assert forall|i: int, j: int| 0 <= i < j < self.spec_len() implies
                        #[trigger] self.spec_entry(i) != #[trigger] self.spec_entry(j) by {
                        if j + 1 < self.spec_len() {
                            assert(oldt.spec_entry(i) != oldt.spec_entry(j));
                        } else {
                            assert(self.spec_entry(i) == oldt.spec_entry(i));
                            assert(!oldt.spec_contains(value.spec_str()));
                        }
                    }
                }
                NamespaceId::new(id)
            },
        }
    }

    /// The string interned under `id`.
    pub fn get_value(&self, id: NamespaceId) -> (r: &Namespace)
        requires
            id.spec_index() < self.spec_len(),
        ensures
            r.spec_str() == self.spec_entry(id.spec_index() as int),
    {
        &self.entries[id.index()]
    }
}

} // verus!
