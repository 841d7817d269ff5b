//! Interned identifiers for names, namespaces and prefixes.
//!
//! Each identifier stands for one entry of the owning lookup table and is
//! only meaningful relative to the `XmlData` instance that produced it.
//! Identifiers are created once and never reused.

use vstd::prelude::*;

verus! {

/// Identifies a (local name, namespace) pair interned in the name table.
///
/// Two occurrences of the same local string in the same namespace always
/// carry the same `NameId`; the same local string in different namespaces
/// carries different `NameId`s. The prefix is never part of this identity.
#[derive(Debug, Clone, Copy, PartialEq, Eq, Hash, Structural)]
pub struct NameId(pub(crate) usize);

impl NameId {
    /// The position of the entry in the owning name table.
    pub closed spec fn spec_index(self) -> nat {
        self.0 as nat
    }

    pub(crate) fn new(i: usize) -> (r: NameId)
        ensures
            r.spec_index() == i,
    {
        NameId(i)
    }

    pub(crate) fn index(self) -> (r: usize)
        ensures
            r == self.spec_index(),
    {
        self.0
    }
}

/// Identifies a namespace URI string interned in the namespace table.
///
/// The empty string is the distinguished "no namespace" entry, interned when
/// the table is created.
#[derive(Debug, Clone, Copy, PartialEq, Eq, Hash, Structural)]
pub struct NamespaceId(pub(crate) usize);

impl NamespaceId {
    /// The position of the entry in the owning namespace table.
    pub closed spec fn spec_index(self) -> nat {
        self.0 as nat
    }

    pub(crate) fn new(i: usize) -> (r: NamespaceId)
        ensures
            r.spec_index() == i,
    {
        NamespaceId(i)
    }

    pub(crate) fn index(self) -> (r: usize)
        ensures
            r == self.spec_index(),
    {
        self.0
    }
}

/// Identifies a prefix string interned in the prefix table.
///
/// The empty string is the distinguished "no prefix" entry, interned when
/// the table is created.
#[derive(Debug, Clone, Copy, PartialEq, Eq, Hash, Structural)]
pub struct PrefixId(pub(crate) usize);

impl PrefixId {
    /// The position of the entry in the owning prefix table.
    pub closed spec fn spec_index(self) -> nat {
        self.0 as nat
    }

    pub(crate) fn new(i: usize) -> (r: PrefixId)
        ensures
            r.spec_index() == i,
    {
        PrefixId(i)
    }

    pub(crate) fn index(self) -> (r: usize)
        ensures
            r == self.spec_index(),
    {
        self.0
    }
}

/// Name identity is exactly the table position.
pub proof fn lemma_name_id_injective(a: NameId, b: NameId)
    requires
        a.spec_index() == b.spec_index(),
    ensures
        a == b,
{
}

/// Namespace identity is exactly the table position.
pub proof fn lemma_namespace_id_injective(a: NamespaceId, b: NamespaceId)
    requires
        a.spec_index() == b.spec_index(),
    ensures
        a == b,
{
}

/// Prefix identity is exactly the table position.
pub proof fn lemma_prefix_id_injective(a: PrefixId, b: PrefixId)
    requires
        a.spec_index() == b.spec_index(),
    ensures
        a == b,
{
}

} // verus!
