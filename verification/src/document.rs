//! A document: a handle to a `Root` node of the store.

use vstd::prelude::*;

use crate::xmldata::XmlNode;

verus! {

/// A document is named by its root node. The invariant that the root owns
/// exactly one element child is enforced by the mutation engine, which
/// refuses any insertion of a text child or of a second element child
/// under a root, and refuses to move or remove the root element.
pub struct Document {
    pub(crate) root: XmlNode,
}

impl Document {
    /// The root node the document was built around.
    pub closed spec fn spec_root(self) -> XmlNode {
        self.root
    }

    pub(crate) fn from_root(root: XmlNode) -> (d: Document)
        ensures
            d.spec_root() == root,
    {
        Document { root }
    }

    /// The root node of the document.
    pub fn root(&self) -> (r: XmlNode)
        ensures
            r == self.spec_root(),
    {
        self.root
    }
}

} // verus!
