//! The document store: node creation, structural mutation, traversal,
//! value access and the naming surface.
//!
//! `XmlData` owns the arena and the three interning tables. The mutation
//! operations validate first and mutate second: on a validation failure the
//! tree is left untouched and a structured error is returned. Insertions
//! and removals consolidate text nodes so that no two text nodes are ever
//! adjacent siblings.

use vstd::prelude::*;

use crate::arena::{lemma_remove_no_dup, slot_eq, spec_chain_has, spec_descends, XmlArena};
use crate::document::Document;
use crate::error::Error;
use crate::id::{NameId, NamespaceId, PrefixId};
use crate::name::{Name, NameLookup};
use crate::namespace::{Namespace, NamespaceLookup};
use crate::prefix::{Prefix, PrefixLookup};
use crate::xmlvalue::{Comment, Element, ProcessingInstruction, Text, ValueType, XmlValue};

verus! {

/// An opaque, copyable handle to a node slot. Equality is handle identity,
/// not content; a handle is only meaningful to the `XmlData` that made it.
#[derive(Debug, Clone, Copy, PartialEq, Eq, Hash, Structural)]
pub struct XmlNode(pub(crate) usize);

impl XmlNode {
    /// The slot index behind the handle.
    pub closed spec fn spec_index(self) -> int {
        self.0 as int
    }

    pub(crate) fn new(i: usize) -> (r: XmlNode)
        ensures
            r.spec_index() == i,
    {
        XmlNode(i)
    }

    pub(crate) fn get(&self) -> (r: usize)
        ensures
            r == self.spec_index(),
    {
        self.0
    }
}

/// One step of a depth-first edge traversal: entering or leaving a node.
#[derive(Debug, Clone, Copy, PartialEq, Eq, Hash, Structural)]
pub enum XmlNodeEdge {
    Start(XmlNode),
    End(XmlNode),
}

/// The node's value is a text node.
pub open spec fn spec_is_text(a: XmlArena, n: int) -> bool {
    a.spec_value(n) is Text
}

/// The node's value is an element.
pub open spec fn spec_is_element(a: XmlArena, n: int) -> bool {
    a.spec_value(n) is Element
}

/// The node's value is a document root.
pub open spec fn spec_is_root(a: XmlArena, n: int) -> bool {
    a.spec_value(n) is Root
}

/// The content of a text value.
pub open spec fn spec_text_of(v: XmlValue) -> Seq<char> {
    v->Text_0.spec_get()
}

/// No two of the listed nodes that stand next to each other are both text.
pub open spec fn seq_no_adjacent_text(a: XmlArena, ks: Seq<usize>) -> bool {
    forall|i: int|
        0 <= i && i + 1 < ks.len() ==> !(spec_is_text(a, (#[trigger] ks[i]) as int)
            && spec_is_text(a, ks[i + 1] as int))
}

/// Of the listed nodes, none is text and at most one is an element.
pub open spec fn seq_root_ok(a: XmlArena, ks: Seq<usize>) -> bool {
    &&& (forall|i: int| 0 <= i < ks.len() ==> !spec_is_text(a, (#[trigger] ks[i]) as int))
    &&& (forall|i: int, j: int|
        0 <= i < j < ks.len() ==> !(spec_is_element(a, (#[trigger] ks[i]) as int)
            && spec_is_element(a, (#[trigger] ks[j]) as int)))
}

/// No two text nodes stand next to each other among `n`'s children.
pub open spec fn no_adjacent_text_at(a: XmlArena, n: int) -> bool {
    seq_no_adjacent_text(a, a.spec_kids(n))
}

/// A root node owns no text child and at most one element child.
pub open spec fn root_shape_at(a: XmlArena, n: int) -> bool {
    spec_is_root(a, n) ==> seq_root_ok(a, a.spec_kids(n))
}

/// Removing a listed node keeps the adjacency rule, unless a non-text node
/// is lifted out from between two texts.
pub proof fn lemma_seq_nat_remove(a: XmlArena, ks: Seq<usize>, pos: int)
    requires
        seq_no_adjacent_text(a, ks),
        0 <= pos < ks.len(),
        spec_is_text(a, ks[pos] as int) || pos == 0 || pos + 1 == ks.len() || !(spec_is_text(
            a,
            ks[pos - 1] as int,
        ) && spec_is_text(a, ks[pos + 1] as int)),
    ensures
        seq_no_adjacent_text(a, ks.remove(pos)),
{
    ks.remove_ensures(pos);
    let t = ks.remove(pos);
    assert forall|i: int|
        0 <= i && i + 1 < t.len() implies !(spec_is_text(a, (#[trigger] t[i]) as int)
        && spec_is_text(a, t[i + 1] as int)) by {
        if i + 1 < pos {
            assert(t[i] == ks[i] && t[i + 1] == ks[i + 1]);
        } else if i + 1 == pos {
            assert(t[i] == ks[i] && t[i + 1] == ks[pos + 1]);
            if spec_is_text(a, ks[pos] as int) {
                assert(!(spec_is_text(a, ks[pos - 1] as int) && spec_is_text(a, ks[pos] as int)));
            }
        } else {
            assert(t[i] == ks[i + 1] && t[i + 1] == ks[i + 2]);
        }
    }
}

/// Inserting keeps the adjacency rule when the inserted node is not text,
/// or when neither final neighbour is text.
pub proof fn lemma_seq_nat_insert(a: XmlArena, ks: Seq<usize>, pos: int, c: usize)
    requires
        seq_no_adjacent_text(a, ks),
        0 <= pos <= ks.len(),
        spec_is_text(a, c as int) ==> (pos > 0 ==> !spec_is_text(a, ks[pos - 1] as int)) && (pos
            < ks.len() ==> !spec_is_text(a, ks[pos] as int)),
    ensures
        seq_no_adjacent_text(a, ks.insert(pos, c)),
{
    ks.insert_ensures(pos, c);
    let t = ks.insert(pos, c);
    assert forall|i: int|
        0 <= i && i + 1 < t.len() implies !(spec_is_text(a, (#[trigger] t[i]) as int)
        && spec_is_text(a, t[i + 1] as int)) by {
        if i + 1 < pos {
            assert(t[i] == ks[i] && t[i + 1] == ks[i + 1]);
        } else if i + 1 == pos {
            assert(t[i] == ks[i] && t[i + 1] == c);
        } else if i == pos {
            assert(t[i] == c && t[i + 1] == ks[pos]);
        } else {
            assert(t[i] == ks[i - 1] && t[i + 1] == ks[i]);
        }
    }
}

/// Removing a listed node keeps the root-children rule.
pub proof fn lemma_seq_root_remove(a: XmlArena, ks: Seq<usize>, pos: int)
    requires
        seq_root_ok(a, ks),
        0 <= pos < ks.len(),
    ensures
        seq_root_ok(a, ks.remove(pos)),
{
    ks.remove_ensures(pos);
    let t = ks.remove(pos);
    assert forall|i: int| 0 <= i < t.len() implies !spec_is_text(a, (#[trigger] t[i]) as int) by {
        if i < pos {
            assert(t[i] == ks[i]);
        } else {
            assert(t[i] == ks[i + 1]);
        }
    }
    assert forall|i: int, j: int|
        0 <= i < j < t.len() implies !(spec_is_element(a, (#[trigger] t[i]) as int)
        && spec_is_element(a, (#[trigger] t[j]) as int)) by {
        let si = if i < pos {
            i
        } else {
            i + 1
        };
        let sj = if j < pos {
            j
        } else {
            j + 1
        };
        assert(t[i] == ks[si] && t[j] == ks[sj]);
    }
}

/// Inserting a non-text node that is not a second element keeps the
/// root-children rule.
pub proof fn lemma_seq_root_insert(a: XmlArena, ks: Seq<usize>, pos: int, c: usize)
    requires
        seq_root_ok(a, ks),
        0 <= pos <= ks.len(),
        !spec_is_text(a, c as int),
        spec_is_element(a, c as int) ==> (forall|i: int|
            0 <= i < ks.len() ==> !spec_is_element(a, (#[trigger] ks[i]) as int)),
    ensures
        seq_root_ok(a, ks.insert(pos, c)),
{
    ks.insert_ensures(pos, c);
    let t = ks.insert(pos, c);
    assert forall|i: int| 0 <= i < t.len() implies !spec_is_text(a, (#[trigger] t[i]) as int) by {
        if i < pos {
            assert(t[i] == ks[i]);
        } else if i == pos {
            assert(t[i] == c);
        } else {
            assert(t[i] == ks[i - 1]);
        }
    }
    assert forall|i: int, j: int|
        0 <= i < j < t.len() implies !(spec_is_element(a, (#[trigger] t[i]) as int)
        && spec_is_element(a, (#[trigger] t[j]) as int)) by {
        if i != pos && j != pos {
            let si = if i < pos {
                i
            } else {
                i - 1
            };
            let sj = if j < pos {
                j
            } else {
                j - 1
            };
            assert(t[i] == ks[si] && t[j] == ks[sj]);
        } else if i == pos {
            assert(t[i] == c);
            assert(t[j] == ks[j - 1]);
        } else {
            assert(t[j] == c);
            assert(t[i] == ks[i]);
        }
    }
}

/// The adjacency rule over a list only looks at the textness of the listed
/// nodes.
pub proof fn lemma_seq_nat_same(a0: XmlArena, a1: XmlArena, ks: Seq<usize>)
    requires
        seq_no_adjacent_text(a0, ks),
        forall|i: int|
            0 <= i < ks.len() ==> spec_is_text(a1, (#[trigger] ks[i]) as int) == spec_is_text(
                a0,
                ks[i] as int,
            ),
    ensures
        seq_no_adjacent_text(a1, ks),
{
}

/// The root-children rule over a list only looks at the kinds of the
/// listed nodes.
pub proof fn lemma_seq_root_same(a0: XmlArena, a1: XmlArena, ks: Seq<usize>)
    requires
        seq_root_ok(a0, ks),
        forall|i: int|
            0 <= i < ks.len() ==> spec_is_text(a1, (#[trigger] ks[i]) as int) == spec_is_text(
                a0,
                ks[i] as int,
            ) && spec_is_element(a1, ks[i] as int) == spec_is_element(a0, ks[i] as int),
    ensures
        seq_root_ok(a1, ks),
{
}

/// Chains to `tgt` ignore every parent link except those of the nodes on
/// the way, and never step through `tgt`'s own link.
pub proof fn lemma_chain_same_except(a0: XmlArena, a1: XmlArena, i: int, tgt: int, f: nat)
    requires
        a1.spec_len() == a0.spec_len(),
        forall|j: int| 0 <= j < a0.spec_len() && j != tgt ==> a1.spec_parent(j) == a0.spec_parent(
            j,
        ),
    ensures
        spec_chain_has(a0, i, tgt, f) == spec_chain_has(a1, i, tgt, f),
    decreases f,
{
    if i != tgt && f > 0 && a0.in_bounds(i) {
        assert(a1.spec_parent(i) == a0.spec_parent(i));
        match a0.spec_parent(i) {
            Some(p) => {
                lemma_chain_same_except(a0, a1, p as int, tgt, (f - 1) as nat);
            },
            None => {},
        }
    }
}

/// The document-shape invariant: text consolidation and the root rules
/// hold at every live node.
pub open spec fn shape_ok(a: XmlArena) -> bool {
    &&& (forall|n: int| a.live(n) ==> #[trigger] no_adjacent_text_at(a, n))
    &&& (forall|n: int| a.live(n) ==> #[trigger] root_shape_at(a, n))
}

/// Some child of `n` is an element.
pub open spec fn has_element_kid(a: XmlArena, n: int) -> bool {
    exists|i: int|
        0 <= i < a.spec_kids(n).len() && spec_is_element(a, (#[trigger] a.spec_kids(n)[i]) as int)
}

/// The node's current parent is a root node.
pub open spec fn under_root(a: XmlArena, c: int) -> bool {
    match a.spec_parent(c) {
        Some(q) => spec_is_root(a, q as int),
        None => false,
    }
}

/// The uniform validation rule for every insertion, evaluated against the
/// effective parent `p`: roots are never moved, the root element is never
/// moved, a text child or a second element child is never placed directly
/// under a root.
pub open spec fn spec_insert_blocked(a: XmlArena, p: int, c: int) -> bool {
    ||| spec_is_root(a, c)
    ||| (spec_is_element(a, c) && under_root(a, c))
    ||| (spec_is_element(a, c) && spec_is_root(a, p) && has_element_kid(a, p))
    ||| (spec_is_text(a, c) && spec_is_root(a, p))
}

/// The validation rule for `detach` and `remove`: a root, and the current
/// root element, stay where they are.
pub open spec fn spec_remove_blocked(a: XmlArena, n: int) -> bool {
    ||| spec_is_root(a, n)
    ||| (spec_is_element(a, n) && under_root(a, n))
}

/// Appending a text child to `p` merges into `p`'s last child.
pub open spec fn spec_append_merges(a: XmlArena, p: int, c: int) -> bool {
    spec_is_text(a, c) && a.spec_kids(p).len() > 0 && spec_is_text(a, a.spec_kids(p).last() as int)
}

/// Prepending a text child to `p` merges into `p`'s first child.
pub open spec fn spec_prepend_merges(a: XmlArena, p: int, c: int) -> bool {
    spec_is_text(a, c) && a.spec_kids(p).len() > 0 && spec_is_text(a, a.spec_kids(p)[0] as int)
}

/// The sibling after `n` among `q`'s children.
pub open spec fn spec_next_sibling_of(a: XmlArena, q: int, n: usize) -> Option<usize> {
    let ks = a.spec_kids(q);
    match ks.index_of_first(n) {
        Some(pos) => if pos + 1 < ks.len() {
            Some(ks[pos + 1])
        } else {
            None
        },
        None => None,
    }
}

/// The sibling before `n` among `q`'s children.
pub open spec fn spec_prev_sibling_of(a: XmlArena, q: int, n: usize) -> Option<usize> {
    let ks = a.spec_kids(q);
    match ks.index_of_first(n) {
        Some(pos) => if pos > 0 {
            Some(ks[pos - 1])
        } else {
            None
        },
        None => None,
    }
}

/// The node was moved out of its old place, if it had one, and linked into
/// `p`'s children at position `idx`; nothing else changed.
pub open spec fn spec_moved_to(a0: XmlArena, a1: XmlArena, p: int, c: int, idx: int) -> bool {
    &&& a1.spec_len() == a0.spec_len()
    &&& a1.spec_kids(p) == a0.spec_kids(p).remove_value(c as usize).insert(idx, c as usize)
    &&& (forall|i: int|
        0 <= i < a0.spec_len() && i != p ==> a1.spec_kids(i) == (#[trigger] a0.spec_kids(
            i,
        )).remove_value(c as usize))
    &&& a1.spec_parent(c) == Some(p as usize)
    &&& (forall|i: int|
        0 <= i < a0.spec_len() && i != c ==> a1.spec_parent(i) == a0.spec_parent(i))
    &&& (forall|i: int|
        0 <= i < a0.spec_len() ==> a1.spec_value(i) == (#[trigger] a0.spec_value(i))
            && a1.spec_removed(i) == a0.spec_removed(i))
}

/// The text of `c` was absorbed into `target` (before `target`'s own text
/// if `c_first`, after it otherwise), and `c` was discarded together with
/// everything that descended from it. The clauses about `target` and about
/// `c`'s old parent hold whenever that node did not itself sit in the
/// discarded subtree, which in a document tree it never does.
pub open spec fn spec_text_merged(
    a0: XmlArena,
    a1: XmlArena,
    target: int,
    c: int,
    c_first: bool,
) -> bool {
    &&& a1.spec_len() == a0.spec_len()
    &&& a1.spec_removed(c)
    &&& (forall|i: int| a0.live(i) && spec_descends(a0, i, c) ==> a1.spec_removed(i))
    &&& (forall|i: int| a1.live(i) ==> a0.live(i))
    &&& (forall|i: int|
        #![trigger a0.live(i)]
        a0.live(i) && i != c && !spec_descends(a0, i, c) ==> {
            &&& a1.live(i)
            &&& a1.spec_kids(i) == a0.spec_kids(i).remove_value(c as usize)
            &&& a1.spec_parent(i) == a0.spec_parent(i)
            &&& (i != target ==> a1.spec_value(i) == a0.spec_value(i))
        })
    &&& (c != target && !spec_descends(a0, target, c) ==> {
        &&& spec_is_text(a1, target)
        &&& spec_text_of(a1.spec_value(target)) == (if c_first {
            spec_text_of(a0.spec_value(c)) + spec_text_of(a0.spec_value(target))
        } else {
            spec_text_of(a0.spec_value(target)) + spec_text_of(a0.spec_value(c))
        })
    })
}

/// Two arenas whose parent links agree except at `c` have the same
/// descendants of `c`.
pub proof fn lemma_descends_same_except(a0: XmlArena, a1: XmlArena, c: int)
    requires
        a1.spec_len() == a0.spec_len(),
        forall|j: int| 0 <= j < a0.spec_len() && j != c ==> a1.spec_parent(j) == a0.spec_parent(j),
    ensures
        forall|i: int| spec_descends(a0, i, c) == spec_descends(a1, i, c),
{
    assert forall|i: int| spec_descends(a0, i, c) == spec_descends(a1, i, c) by {
        if spec_descends(a0, i, c) {
            let f = choose|f: nat| spec_chain_has(a0, i, c, f);
            lemma_chain_same_except(a0, a1, i, c, f);
            assert(spec_chain_has(a1, i, c, f));
        }
        if spec_descends(a1, i, c) {
            let f = choose|f: nat| spec_chain_has(a1, i, c, f);
            lemma_chain_same_except(a0, a1, i, c, f);
            assert(spec_chain_has(a0, i, c, f));
        }
    }
}

/// With distinct entries, removing the entry at a known index is removal
/// by value.
pub proof fn lemma_remove_is_remove_value(ks: Seq<usize>, j: int, c: usize)
    requires
        ks.no_duplicates(),
        0 <= j < ks.len(),
        ks[j] == c,
    ensures
        ks.remove(j) == ks.remove_value(c),
{
    ks.index_of_first_ensures(c);
    assert(ks.contains(c));
    let pos = ks.index_of_first(c)->Some_0;
    assert(ks[pos] == c);
    assert(pos == j);
}

/// Removing an absent value changes nothing.
pub proof fn lemma_remove_value_absent(ks: Seq<usize>, c: usize)
    requires
        !ks.contains(c),
    ensures
        ks.remove_value(c) == ks,
{
    ks.index_of_first_ensures(c);
}

/// The node lost its parent link and left its old children list; nothing
/// else changed.
pub open spec fn spec_unlinked(a0: XmlArena, a1: XmlArena, n: int) -> bool {
    &&& a1.spec_len() == a0.spec_len()
    &&& a1.spec_parent(n) is None
    &&& (forall|i: int|
        0 <= i < a0.spec_len() ==> (#[trigger] a1.spec_kids(i)) == a0.spec_kids(i).remove_value(
            n as usize,
        ))
    &&& (forall|i: int|
        0 <= i < a0.spec_len() && i != n ==> (#[trigger] a1.spec_parent(i)) == a0.spec_parent(i))
    &&& (forall|i: int|
        0 <= i < a0.spec_len() ==> (#[trigger] a1.spec_value(i)) == a0.spec_value(i)
            && a1.spec_removed(i) == a0.spec_removed(i))
}

/// The node and everything descending from it was invalidated; everything
/// still live is untouched.
pub open spec fn spec_subtree_removed(a0: XmlArena, a1: XmlArena, n: int) -> bool {
    &&& a1.spec_len() == a0.spec_len()
    &&& a1.spec_removed(n)
    &&& (forall|i: int| 0 <= i < a0.spec_len() && a0.spec_removed(i) ==> a1.spec_removed(i))
    &&& (forall|i: int| a1.live(i) ==> slot_eq(a0, a1, i))
    &&& (forall|i: int| a0.live(i) && !spec_descends(a0, i, n) ==> a1.live(i))
    &&& (forall|i: int| a0.live(i) && spec_descends(a0, i, n) ==> a1.spec_removed(i))
}

/// Chain the three steps of a text merge into `spec_text_merged`.
pub proof fn lemma_merge_assemble(
    a0: XmlArena,
    amid: XmlArena,
    amid2: XmlArena,
    a1: XmlArena,
    tn: int,
    cn: int,
    c_first: bool,
    set_happened: bool,
    mtext: Seq<char>,
)
    requires
        a0.wf(),
        a0.live(cn),
        a0.live(tn),
        spec_is_text(a0, cn),
        spec_is_text(a0, tn),
        spec_unlinked(a0, amid, cn),
        spec_subtree_removed(amid, amid2, cn),
        set_happened <==> (cn != tn && !amid2.spec_removed(tn)),
        set_happened ==> {
            &&& a1.spec_len() == amid2.spec_len()
            &&& a1.spec_value(tn) is Text
            &&& spec_text_of(a1.spec_value(tn)) == mtext
            &&& a1.spec_parent(tn) == amid2.spec_parent(tn)
            &&& a1.spec_kids(tn) == amid2.spec_kids(tn)
            &&& a1.spec_removed(tn) == amid2.spec_removed(tn)
            &&& (forall|i: int|
                0 <= i < amid2.spec_len() && i != tn ==> slot_eq(amid2, a1, i))
            &&& mtext == (if c_first {
                spec_text_of(a0.spec_value(cn)) + spec_text_of(a0.spec_value(tn))
            } else {
                spec_text_of(a0.spec_value(tn)) + spec_text_of(a0.spec_value(cn))
            })
        },
        !set_happened ==> a1.spec_len() == amid2.spec_len() && (forall|i: int|
            0 <= i < amid2.spec_len() ==> slot_eq(amid2, a1, i)),
    ensures
        spec_text_merged(a0, a1, tn, cn, c_first),
{
    assert forall|i: int|
        0 <= i < a0.spec_len() implies (#[trigger] amid.spec_removed(i)) == a0.spec_removed(i)
        && amid.spec_value(i) == a0.spec_value(i) by {
        assert(amid.spec_value(i) == a0.spec_value(i));
    }
    lemma_descends_same_except(a0, amid, cn);
    assert(a1.spec_len() == a0.spec_len());
    assert(a1.spec_removed(cn) == amid2.spec_removed(cn)) by {
        if set_happened {
            if cn != tn {
                assert(slot_eq(amid2, a1, cn));
            }
        } else {
            assert(slot_eq(amid2, a1, cn));
        }
    }
    assert(a1.spec_removed(cn));
    assert forall|i: int|
        a0.live(i) && spec_descends(a0, i, cn) implies a1.spec_removed(i) by {
        assert(spec_descends(amid, i, cn));
        assert(amid.live(i));
        assert(amid2.spec_removed(i));
        if i == tn {
            assert(!set_happened);
            assert(slot_eq(amid2, a1, i));
        } else {
            assert(slot_eq(amid2, a1, i));
        }
    }
    assert forall|i: int| a1.live(i) implies a0.live(i) by {
        assert(a1.spec_removed(i) == amid2.spec_removed(i)) by {
            if i != tn {
                assert(slot_eq(amid2, a1, i));
            } else {
                if set_happened {
                } else {
                    assert(slot_eq(amid2, a1, i));
                }
            }
        }
        assert(amid2.live(i));
        assert(!amid.spec_removed(i));
        assert(amid.live(i));
        assert(a0.spec_removed(i) == amid.spec_removed(i));
    }
    assert forall|i: int| #![trigger a0.live(i)]
        a0.live(i) && i != cn && !spec_descends(a0, i, cn) implies {
        &&& a1.live(i)
        &&& a1.spec_kids(i) == a0.spec_kids(i).remove_value(cn as usize)
        &&& a1.spec_parent(i) == a0.spec_parent(i)
        &&& (i != tn ==> a1.spec_value(i) == a0.spec_value(i))
    } by {
        assert(amid.live(i));
        assert(!spec_descends(amid, i, cn));
        assert(amid2.live(i));
        assert(slot_eq(amid, amid2, i));
        if i == tn && set_happened {
            assert(a1.live(i));
            assert(a1.spec_kids(i) == amid2.spec_kids(i));
            assert(a1.spec_parent(i) == amid2.spec_parent(i));
        } else {
            assert(slot_eq(amid2, a1, i));
        }
    }
    if cn != tn && !spec_descends(a0, tn, cn) {
        assert(amid.live(tn));
        assert(!spec_descends(amid, tn, cn));
        assert(amid2.live(tn));
        assert(set_happened);
        assert(spec_is_text(a1, tn));
        assert(spec_text_of(a1.spec_value(tn)) == mtext);
        assert(mtext == (if c_first {
            spec_text_of(a0.spec_value(cn)) + spec_text_of(a0.spec_value(tn))
        } else {
            spec_text_of(a0.spec_value(tn)) + spec_text_of(a0.spec_value(cn))
        }));
    }
}

/// Moving a node into place keeps the document shape, provided the node
/// leaves no text gap behind (it is text itself, or was detached) and its
/// new neighbours respect the consolidation and root rules.
pub proof fn lemma_shape_moved(a0: XmlArena, a1: XmlArena, p: int, c: int, idx: int)
    requires
        a0.wf(),
        shape_ok(a0),
        a0.live(p),
        a0.live(c),
        p != c,
        a0.spec_parent(c) is None || spec_is_text(a0, c),
        spec_moved_to(a0, a1, p, c, idx),
        0 <= idx <= a0.spec_kids(p).remove_value(c as usize).len(),
        ({
            let ks1 = a0.spec_kids(p).remove_value(c as usize);
            spec_is_text(a0, c) ==> (idx > 0 ==> !spec_is_text(a0, ks1[idx - 1] as int)) && (idx
                < ks1.len() ==> !spec_is_text(a0, ks1[idx] as int))
        }),
        spec_is_root(a0, p) ==> !spec_is_text(a0, c) && (spec_is_element(a0, c)
            ==> !has_element_kid(a0, p)),
    ensures
        shape_ok(a1),
{
    a0.lemma_len_bound();
    assert forall|n: int|
        #![trigger no_adjacent_text_at(a1, n)]
        #![trigger root_shape_at(a1, n)]
        a1.live(n) implies no_adjacent_text_at(a1, n) && root_shape_at(a1, n) by {
        assert(a0.live(n));
        let ks = a0.spec_kids(n);
        ks.index_of_first_ensures(c as usize);
        let ks1 = ks.remove_value(c as usize);
        assert(no_adjacent_text_at(a0, n));
        assert(root_shape_at(a0, n));
        // members of ks1 are members of ks
        assert forall|j: int| 0 <= j < ks1.len() implies ks.contains(#[trigger] ks1[j]) by {
            match ks.index_of_first(c as usize) {
                Some(pos) => {
                    ks.remove_ensures(pos);
                    if j < pos {
                        assert(ks1[j] == ks[j]);
                    } else {
                        assert(ks1[j] == ks[j + 1]);
                    }
                },
                None => {
                    assert(ks1 == ks);
                },
            }
        }
        // the removal step is safe for adjacency and root rules over a0
        assert(seq_no_adjacent_text(a0, ks1) && (spec_is_root(a0, n) ==> seq_root_ok(a0, ks1)))
            by {
            match ks.index_of_first(c as usize) {
                Some(pos) => {
                    assert(ks[pos] == c as usize);
                    assert((c as usize) as int == c);
                    if a0.spec_parent(c) is None {
                        a0.lemma_orphan_in_no_kids(c as usize);
                        assert(ks.contains(c as usize));
                        assert(false);
                    }
                    assert(spec_is_text(a0, ks[pos] as int));
                    lemma_seq_nat_remove(a0, ks, pos);
                    if spec_is_root(a0, n) {
                        lemma_seq_root_remove(a0, ks, pos);
                    }
                },
                None => {
                    assert(ks1 == ks);
                },
            }
        }
        let t = if n == p {
            ks1.insert(idx, c as usize)
        } else {
            ks1
        };
        assert(a1.spec_kids(n) == t);
        if n == p {
            assert((c as usize) as int == c);
            lemma_seq_nat_insert(a0, ks1, idx, c as usize);
            if spec_is_root(a0, n) {
                if spec_is_element(a0, c) {
                    assert forall|j: int|
                        0 <= j < ks1.len() implies !spec_is_element(
                        a0,
                        (#[trigger] ks1[j]) as int,
                    ) by {
                        assert(ks.contains(ks1[j]));
                        let jj = choose|jj: int| 0 <= jj < ks.len() && ks[jj] == ks1[j];
                        if spec_is_element(a0, ks1[j] as int) {
                            assert(spec_is_element(a0, (a0.spec_kids(n)[jj]) as int));
                            assert(has_element_kid(a0, n));
                        }
                    }
                }
                lemma_seq_root_insert(a0, ks1, idx, c as usize);
            }
        }
        // textness and kind of every listed node carry over to a1
        assert forall|j: int|
            0 <= j < t.len() implies spec_is_text(a1, (#[trigger] t[j]) as int) == spec_is_text(
            a0,
            t[j] as int,
        ) && spec_is_element(a1, t[j] as int) == spec_is_element(a0, t[j] as int) by {
            assert((t[j] as int) < a0.spec_len()) by {
                if n == p {
                    ks1.insert_ensures(idx, c as usize);
                    if t[j] == c as usize {
                        assert(a0.live(c));
                    } else {
                        assert(ks1.contains(t[j])) by {
                            if j < idx {
                                assert(t[j] == ks1[j]);
                            } else {
                                assert(t[j] == ks1[j - 1]);
                            }
                        }
                        assert(ks.contains(t[j]));
                        let jj = choose|jj: int| 0 <= jj < ks.len() && ks[jj] == t[j];
                        assert(a0.live((a0.spec_kids(n)[jj]) as int));
                    }
                } else {
                    assert(ks.contains(t[j]));
                    let jj = choose|jj: int| 0 <= jj < ks.len() && ks[jj] == t[j];
                    assert(a0.live((a0.spec_kids(n)[jj]) as int));
                }
            }
            assert(a1.spec_value(t[j] as int) == a0.spec_value(t[j] as int));
        }
        lemma_seq_nat_same(a0, a1, t);
        assert(spec_is_root(a1, n) == spec_is_root(a0, n)) by {
            assert(a1.spec_value(n) == a0.spec_value(n));
        }
        if spec_is_root(a1, n) {
            lemma_seq_root_same(a0, a1, t);
        }
    }
}

/// What `detach` and `remove` do to the links on success: the node is
/// unlinked, and if its former neighbours were both text they are merged,
/// the former next sibling being absorbed into the former previous one.
pub open spec fn spec_detached(a0: XmlArena, a1: XmlArena, n: int) -> bool {
    if a0.spec_parent(n) is None {
        forall|i: int| 0 <= i < a0.spec_len() ==> slot_eq(a0, a1, i)
    } else {
        let q = a0.spec_parent(n)->Some_0 as int;
        let ks = a0.spec_kids(q);
        let pos = ks.index_of_first(n as usize)->Some_0;
        let merges = 0 < pos && pos + 1 < ks.len() && spec_is_text(a0, ks[pos - 1] as int)
            && spec_is_text(a0, ks[pos + 1] as int);
        if merges {
            exists|amid: XmlArena|
                #![trigger spec_unlinked(a0, amid, n)]
                spec_unlinked(a0, amid, n) && spec_text_merged(
                    amid,
                    a1,
                    ks[pos - 1] as int,
                    ks[pos + 1] as int,
                    false,
                )
        } else {
            spec_unlinked(a0, a1, n)
        }
    }
}

/// Plain unlinking keeps the document shape when the node is text or did
/// not stand between two texts.
pub proof fn lemma_shape_unlinked(a0: XmlArena, a1: XmlArena, n: int)
    requires
        a0.wf(),
        shape_ok(a0),
        a0.live(n),
        spec_unlinked(a0, a1, n),
        (match a0.spec_parent(n) {
            Some(q) => {
                let ks = a0.spec_kids(q as int);
                let pos = ks.index_of_first(n as usize)->Some_0;
                spec_is_text(a0, n) || pos == 0 || pos + 1 == ks.len() || !(spec_is_text(
                    a0,
                    ks[pos - 1] as int,
                ) && spec_is_text(a0, ks[pos + 1] as int))
            },
            None => true,
        }),
    ensures
        shape_ok(a1),
{
    a0.lemma_len_bound();
    assert forall|m: int|
        #![trigger no_adjacent_text_at(a1, m)]
        #![trigger root_shape_at(a1, m)]
        a1.live(m) implies no_adjacent_text_at(a1, m) && root_shape_at(a1, m) by {
        assert(a1.spec_value(m) == a0.spec_value(m));
        assert(a1.spec_removed(m) == a0.spec_removed(m));
        assert(a0.live(m));
        let ks = a0.spec_kids(m);
        ks.index_of_first_ensures(n as usize);
        let t = ks.remove_value(n as usize);
        assert(a1.spec_kids(m) == t);
        assert(no_adjacent_text_at(a0, m));
        assert(root_shape_at(a0, m));
        assert(seq_no_adjacent_text(a0, t) && (spec_is_root(a0, m) ==> seq_root_ok(a0, t))) by {
            match ks.index_of_first(n as usize) {
                Some(pos) => {
                    assert(ks[pos] == n as usize);
                    assert((n as usize) as int == n);
                    assert(a0.spec_parent(n) == Some(m as usize));
                    assert((m as usize) as int == m);
                    lemma_seq_nat_remove(a0, ks, pos);
                    if spec_is_root(a0, m) {
                        lemma_seq_root_remove(a0, ks, pos);
                    }
                },
                None => {
                    assert(t == ks);
                },
            }
        }
        assert forall|j: int|
            0 <= j < t.len() implies spec_is_text(a1, (#[trigger] t[j]) as int) == spec_is_text(
            a0,
            t[j] as int,
        ) && spec_is_element(a1, t[j] as int) == spec_is_element(a0, t[j] as int) by {
            assert((t[j] as int) < a0.spec_len()) by {
                match ks.index_of_first(n as usize) {
                    Some(pos) => {
                        ks.remove_ensures(pos);
                        if j < pos {
                            assert(t[j] == ks[j]);
                        } else {
                            assert(t[j] == ks[j + 1]);
                        }
                        assert(ks.contains(t[j]));
                        let jj = choose|jj: int| 0 <= jj < ks.len() && ks[jj] == t[j];
                        assert(a0.live((a0.spec_kids(m)[jj]) as int));
                    },
                    None => {
                        assert(t == ks);
                        assert(a0.live((a0.spec_kids(m)[j]) as int));
                    },
                }
            }
            assert(a1.spec_value(t[j] as int) == a0.spec_value(t[j] as int));
        }
        lemma_seq_nat_same(a0, a1, t);
        if spec_is_root(a1, m) {
            assert(spec_is_root(a0, m));
            lemma_seq_root_same(a0, a1, t);
        }
    }
}

/// The junction left by detaching a node between two texts is healed by
/// the merge, so the document shape survives.
pub proof fn lemma_shape_detach_merged(
    a0: XmlArena,
    amid: XmlArena,
    a1: XmlArena,
    n: int,
    q: int,
    pos: int,
)
    requires
        a0.wf(),
        amid.wf(),
        a1.wf(),
        shape_ok(a0),
        a0.live(n),
        a0.spec_parent(n) is Some,
        q == a0.spec_parent(n)->Some_0 as int,
        spec_unlinked(a0, amid, n),
        0 < pos,
        pos + 1 < a0.spec_kids(q).len(),
        pos == a0.spec_kids(q).index_of_first(n as usize)->Some_0,
        a0.spec_kids(q)[pos] == n as usize,
        spec_is_text(a0, a0.spec_kids(q)[pos - 1] as int),
        spec_is_text(a0, a0.spec_kids(q)[pos + 1] as int),
        spec_text_merged(
            amid,
            a1,
            a0.spec_kids(q)[pos - 1] as int,
            a0.spec_kids(q)[pos + 1] as int,
            false,
        ),
    ensures
        shape_ok(a1),
{
    a0.lemma_len_bound();
    let ks = a0.spec_kids(q);
    let prev = ks[pos - 1] as int;
    let next = ks[pos + 1] as int;
    ks.index_of_first_ensures(n as usize);
    assert(a0.live(prev) && a0.live(next) && a0.live(q));
    assert(prev != next && prev != n && next != n) by {
        assert(ks.no_duplicates());
    }
    assert(a1.spec_removed(next as int));
    // every node still live in a1 was live in a0 with equal flags and kind
    assert forall|m: int|
        a1.live(m) implies amid.live(m) && a0.live(m) && !spec_descends(amid, m, next) && m != next
            && spec_is_text(a1, m) == spec_is_text(a0, m) && spec_is_element(a1, m)
            == spec_is_element(a0, m) && spec_is_root(a1, m) == spec_is_root(a0, m) by {
        assert(amid.live(m));
        assert(a0.live(m)) by {
            assert(amid.spec_value(m) == a0.spec_value(m));
        }
        assert(!spec_descends(amid, m, next)) by {
            if spec_descends(amid, m, next) {
                assert(a1.spec_removed(m));
            }
        }
        assert(m != next);
        assert(amid.live(m) && m != next && !spec_descends(amid, m, next));
        assert(a1.spec_kids(m) == amid.spec_kids(m).remove_value(next as usize));
        if m == prev {
            assert(spec_is_text(a1, m));
            assert(spec_is_text(a0, m));
        } else {
            assert(a1.spec_value(m) == amid.spec_value(m));
            assert(amid.spec_value(m) == a0.spec_value(m));
        }
    }
    assert forall|m: int|
        #![trigger no_adjacent_text_at(a1, m)]
        #![trigger root_shape_at(a1, m)]
        a1.live(m) implies no_adjacent_text_at(a1, m) && root_shape_at(a1, m) by {
        let mks = a0.spec_kids(m);
        mks.index_of_first_ensures(n as usize);
        let mks1 = mks.remove_value(n as usize);
        assert(amid.spec_kids(m) == mks1);
        mks1.index_of_first_ensures(next as usize);
        let t = mks1.remove_value(next as usize);
        assert(a1.spec_kids(m) == t);
        assert(no_adjacent_text_at(a0, m));
        assert(root_shape_at(a0, m));
        // membership of the final list in a1 is live, so textness carries
        assert forall|j: int|
            0 <= j < t.len() implies a1.live((#[trigger] t[j]) as int) by {
            assert(a1.spec_kids(m)[j] == t[j]);
            assert(a1.live((a1.spec_kids(m)[j]) as int));
        }
        if m != q {
            assert(!mks.contains(n as usize)) by {
                a0.lemma_kid_of_parent_only(n as usize, q as usize);
                assert((q as usize) as int == q);
            }
            assert(mks1 == mks);
            assert(!mks1.contains(next as usize)) by {
                a0.lemma_kid_of_parent_only(next as usize, q as usize);
            }
            assert(t == mks);
            lemma_seq_nat_same(a0, a1, t);
            if spec_is_root(a1, m) {
                assert(spec_is_root(a0, m));
                lemma_seq_root_same(a0, a1, t);
            }
        } else {
            assert(mks == ks);
            assert(mks1 == ks.remove(pos));
            ks.remove_ensures(pos);
            lemma_remove_no_dup(ks, pos);
            assert(mks1[pos] == ks[pos + 1]);
            assert(mks1.index_of_first(next as usize) == Some(pos)) by {
                let p2 = mks1.index_of_first(next as usize)->Some_0;
                assert(mks1.contains(next as usize)) by {
                    assert(mks1[pos] == next as usize);
                }
                assert(mks1[p2] == next as usize);
                assert(p2 == pos);
            }
            assert(t == mks1.remove(pos));
            mks1.remove_ensures(pos);
            // adjacency of the doubly shortened list over a0
            assert(seq_no_adjacent_text(a0, t)) by {
                assert forall|i: int|
                    0 <= i && i + 1 < t.len() implies !(spec_is_text(
                    a0,
                    (#[trigger] t[i]) as int,
                ) && spec_is_text(a0, t[i + 1] as int)) by {
                    if i + 1 < pos - 1 {
                        assert(t[i] == ks[i] && t[i + 1] == ks[i + 1]);
                    } else if i + 1 == pos - 1 {
                        assert(t[i] == ks[i] && t[i + 1] == ks[pos - 1]);
                    } else if i == pos - 1 {
                        assert(t[i] == ks[pos - 1] && t[i + 1] == ks[pos + 2]);
                        assert(!(spec_is_text(a0, ks[pos + 1] as int) && spec_is_text(
                            a0,
                            ks[pos + 2] as int,
                        )));
                    } else {
                        assert(t[i] == ks[i + 2] && t[i + 1] == ks[i + 3]);
                    }
                }
            }
            if spec_is_root(a0, q) {
                lemma_seq_root_remove(a0, ks, pos);
                lemma_seq_root_remove(a0, mks1, pos);
            }
            lemma_seq_nat_same(a0, a1, t);
            if spec_is_root(a1, m) {
                assert(spec_is_root(a0, m));
                lemma_seq_root_same(a0, a1, t);
            }
        }
    }
}

/// Deleting whole subtrees of live nodes keeps the document shape: every
/// surviving node and its children are untouched.
pub proof fn lemma_shape_shrunk(a0: XmlArena, a1: XmlArena, n: int)
    requires
        a1.wf(),
        shape_ok(a0),
        spec_subtree_removed(a0, a1, n),
    ensures
        shape_ok(a1),
{
    assert forall|m: int|
        #![trigger no_adjacent_text_at(a1, m)]
        #![trigger root_shape_at(a1, m)]
        a1.live(m) implies no_adjacent_text_at(a1, m) && root_shape_at(a1, m) by {
        assert(slot_eq(a0, a1, m));
        assert(a0.live(m));
        let t = a1.spec_kids(m);
        assert(t == a0.spec_kids(m));
        assert(no_adjacent_text_at(a0, m));
        assert(root_shape_at(a0, m));
        assert forall|j: int|
            0 <= j < t.len() implies spec_is_text(a1, (#[trigger] t[j]) as int) == spec_is_text(
            a0,
            t[j] as int,
        ) && spec_is_element(a1, t[j] as int) == spec_is_element(a0, t[j] as int) by {
            assert(a1.live((a1.spec_kids(m)[j]) as int));
            assert(slot_eq(a0, a1, t[j] as int));
        }
        lemma_seq_nat_same(a0, a1, t);
        if spec_is_root(a1, m) {
            assert(spec_is_root(a0, m));
            lemma_seq_root_same(a0, a1, t);
        }
    }
}

/// The root-children half of the document shape on its own: every live
/// root owns no text child and at most one element child. Unlike the full
/// `shape_ok`, every mutation preserves this half even when an attached
/// node is moved in one call.
pub open spec fn root_shape_all(a: XmlArena) -> bool {
    forall|n: int| a.live(n) ==> #[trigger] root_shape_at(a, n)
}

/// Moving a node preserves the root rules, attached or not: leaving a
/// children list never breaks them, and the destination was checked.
pub proof fn lemma_root_moved(a0: XmlArena, a1: XmlArena, p: int, c: int, idx: int)
    requires
        a0.wf(),
        root_shape_all(a0),
        a0.live(p),
        a0.live(c),
        p != c,
        spec_moved_to(a0, a1, p, c, idx),
        0 <= idx <= a0.spec_kids(p).remove_value(c as usize).len(),
        spec_is_root(a0, p) ==> !spec_is_text(a0, c) && (spec_is_element(a0, c)
            ==> !has_element_kid(a0, p)),
    ensures
        root_shape_all(a1),
{
    a0.lemma_len_bound();
    assert forall|n: int| a1.live(n) implies #[trigger] root_shape_at(a1, n) by {
        assert(a0.live(n));
        let ks = a0.spec_kids(n);
        ks.index_of_first_ensures(c as usize);
        let ks1 = ks.remove_value(c as usize);
        assert(root_shape_at(a0, n));
        assert forall|j: int| 0 <= j < ks1.len() implies ks.contains(#[trigger] ks1[j]) by {
            match ks.index_of_first(c as usize) {
                Some(pos) => {
                    ks.remove_ensures(pos);
                    if j < pos {
                        assert(ks1[j] == ks[j]);
                    } else {
                        assert(ks1[j] == ks[j + 1]);
                    }
                },
                None => {
                    assert(ks1 == ks);
                },
            }
        }
        assert(spec_is_root(a0, n) ==> seq_root_ok(a0, ks1)) by {
            if spec_is_root(a0, n) {
                match ks.index_of_first(c as usize) {
                    Some(pos) => {
                        lemma_seq_root_remove(a0, ks, pos);
                    },
                    None => {
                        assert(ks1 == ks);
                    },
                }
            }
        }
        let t = if n == p {
            ks1.insert(idx, c as usize)
        } else {
            ks1
        };
        assert(a1.spec_kids(n) == t);
        if n == p && spec_is_root(a0, n) {
            assert((c as usize) as int == c);
            if spec_is_element(a0, c) {
                assert forall|j: int|
                    0 <= j < ks1.len() implies !spec_is_element(a0, (#[trigger] ks1[j]) as int) by {
                    assert(ks.contains(ks1[j]));
                    let jj = choose|jj: int| 0 <= jj < ks.len() && ks[jj] == ks1[j];
                    if spec_is_element(a0, ks1[j] as int) {
                        assert(spec_is_element(a0, (a0.spec_kids(n)[jj]) as int));
                        assert(has_element_kid(a0, n));
                    }
                }
            }
            lemma_seq_root_insert(a0, ks1, idx, c as usize);
        }
        assert forall|j: int|
            0 <= j < t.len() implies spec_is_text(a1, (#[trigger] t[j]) as int) == spec_is_text(
            a0,
            t[j] as int,
        ) && spec_is_element(a1, t[j] as int) == spec_is_element(a0, t[j] as int) by {
            assert((t[j] as int) < a0.spec_len()) by {
                if n == p {
                    ks1.insert_ensures(idx, c as usize);
                    if t[j] == c as usize {
                        assert(a0.live(c));
                    } else {
                        assert(ks1.contains(t[j])) by {
                            if j < idx {
                                assert(t[j] == ks1[j]);
                            } else {
                                assert(t[j] == ks1[j - 1]);
                            }
                        }
                        assert(ks.contains(t[j]));
                        let jj = choose|jj: int| 0 <= jj < ks.len() && ks[jj] == t[j];
                        assert(a0.live((a0.spec_kids(n)[jj]) as int));
                    }
                } else {
                    assert(ks.contains(t[j]));
                    let jj = choose|jj: int| 0 <= jj < ks.len() && ks[jj] == t[j];
                    assert(a0.live((a0.spec_kids(n)[jj]) as int));
                }
            }
            assert(a1.spec_value(t[j] as int) == a0.spec_value(t[j] as int));
        }
        assert(spec_is_root(a1, n) == spec_is_root(a0, n)) by {
            assert(a1.spec_value(n) == a0.spec_value(n));
        }
        if spec_is_root(a1, n) {
            lemma_seq_root_same(a0, a1, t);
        }
    }
}

/// Merging a text node away preserves the root rules.
pub proof fn lemma_root_merged(a0: XmlArena, a1: XmlArena, target: int, c: int, c_first: bool)
    requires
        a0.wf(),
        root_shape_all(a0),
        a0.live(c),
        spec_is_text(a0, c),
        c != target ==> spec_is_text(a0, target),
        spec_text_merged(a0, a1, target, c, c_first),
    ensures
        root_shape_all(a1),
{
    a0.lemma_len_bound();
    assert forall|n: int| a1.live(n) implies #[trigger] root_shape_at(a1, n) by {
        assert(a0.live(n));
        assert(!spec_descends(a0, n, c)) by {
            if spec_descends(a0, n, c) {
                assert(a1.spec_removed(n));
            }
        }
        assert(n != c) by {
            assert(spec_chain_has(a0, c, c, 0));
        }
        let ks = a0.spec_kids(n);
        assert(a1.spec_kids(n) == ks.remove_value(c as usize));
        assert(root_shape_at(a0, n));
        ks.index_of_first_ensures(c as usize);
        let ks1 = ks.remove_value(c as usize);
        assert forall|j: int|
            0 <= j < ks1.len() implies spec_is_text(a1, (#[trigger] ks1[j]) as int)
            == spec_is_text(a0, ks1[j] as int) && spec_is_element(a1, ks1[j] as int)
            == spec_is_element(a0, ks1[j] as int) by {
            let e = ks1[j] as int;
            assert(ks1.contains(ks1[j]));
            if ks.index_of_first(c as usize) is Some {
                let pos = ks.index_of_first(c as usize)->Some_0;
                lemma_remove_no_dup(ks, pos);
                assert(ks.contains(ks1[j]));
            } else {
                assert(ks.contains(ks1[j]));
            }
            let jj = choose|jj: int| 0 <= jj < ks.len() && ks[jj] == ks1[j];
            assert(a0.spec_kids(n)[jj] == ks1[j]);
            assert(a0.live(e) && a0.spec_parent(e) == Some(n as usize));
            assert(e != c) by {
                if e == c {
                    assert(ks1.contains(c as usize));
                    if ks.index_of_first(c as usize) is Some {
                        let pos = ks.index_of_first(c as usize)->Some_0;
                        lemma_remove_no_dup(ks, pos);
                    }
                }
            }
            assert(!spec_descends(a0, e, c)) by {
                if spec_descends(a0, e, c) {
                    let f = choose|f: nat| spec_chain_has(a0, e, c, f);
                    assert(f > 0);
                    assert(a0.in_bounds(e));
                    assert(a0.spec_parent(e) == Some(n as usize));
                    assert(spec_chain_has(a0, (n as usize) as int, c, (f - 1) as nat));
                    assert((n as usize) as int == n);
                }
            }
            if e == target && c != target {
                assert(spec_is_text(a0, e));
                assert(spec_is_text(a1, e)) by {
                    if !spec_descends(a0, target, c) {
                    } else {
                        assert(a1.spec_removed(target));
                    }
                }
            } else {
                assert(a1.spec_value(e) == a0.spec_value(e));
            }
        }
        assert(spec_is_root(a1, n) ==> spec_is_root(a0, n)) by {
            if spec_is_root(a1, n) {
                if n == target && c != target {
                    assert(spec_is_text(a1, target));
                } else {
                    assert(a1.spec_value(n) == a0.spec_value(n));
                }
            }
        }
        if spec_is_root(a1, n) {
            match ks.index_of_first(c as usize) {
                Some(pos) => {
                    assert(ks[pos] == c as usize);
                    lemma_seq_root_remove(a0, ks, pos);
                    lemma_seq_root_same(a0, a1, ks1);
                },
                None => {
                    assert(ks1 == ks);
                    lemma_seq_root_same(a0, a1, ks1);
                },
            }
        }
        assert(spec_is_root(a1, n) ==> seq_root_ok(a1, a1.spec_kids(n)));
    }
}

/// Plain unlinking preserves the root rules unconditionally: a children
/// list only loses a member.
pub proof fn lemma_root_unlinked(a0: XmlArena, a1: XmlArena, n: int)
    requires
        a0.wf(),
        root_shape_all(a0),
        a0.live(n),
        spec_unlinked(a0, a1, n),
    ensures
        root_shape_all(a1),
{
    a0.lemma_len_bound();
    assert forall|m: int| a1.live(m) implies #[trigger] root_shape_at(a1, m) by {
        assert(a1.spec_value(m) == a0.spec_value(m));
        assert(a1.spec_removed(m) == a0.spec_removed(m));
        assert(a0.live(m));
        let ks = a0.spec_kids(m);
        ks.index_of_first_ensures(n as usize);
        let t = ks.remove_value(n as usize);
        assert(a1.spec_kids(m) == t);
        assert(root_shape_at(a0, m));
        assert(spec_is_root(a0, m) ==> seq_root_ok(a0, t)) by {
            if spec_is_root(a0, m) {
                match ks.index_of_first(n as usize) {
                    Some(pos) => {
                        lemma_seq_root_remove(a0, ks, pos);
                    },
                    None => {
                        assert(t == ks);
                    },
                }
            }
        }
        assert forall|j: int|
            0 <= j < t.len() implies spec_is_text(a1, (#[trigger] t[j]) as int) == spec_is_text(
            a0,
            t[j] as int,
        ) && spec_is_element(a1, t[j] as int) == spec_is_element(a0, t[j] as int) by {
            assert((t[j] as int) < a0.spec_len()) by {
                match ks.index_of_first(n as usize) {
                    Some(pos) => {
                        ks.remove_ensures(pos);
                        if j < pos {
                            assert(t[j] == ks[j]);
                        } else {
                            assert(t[j] == ks[j + 1]);
                        }
                        assert(ks.contains(t[j]));
                        let jj = choose|jj: int| 0 <= jj < ks.len() && ks[jj] == t[j];
                        assert(a0.live((a0.spec_kids(m)[jj]) as int));
                    },
                    None => {
                        assert(t == ks);
                        assert(a0.live((a0.spec_kids(m)[j]) as int));
                    },
                }
            }
            assert(a1.spec_value(t[j] as int) == a0.spec_value(t[j] as int));
        }
        if spec_is_root(a1, m) {
            assert(spec_is_root(a0, m));
            lemma_seq_root_same(a0, a1, t);
        }
    }
}

/// Deleting whole subtrees of live nodes preserves the root rules.
pub proof fn lemma_root_shrunk(a0: XmlArena, a1: XmlArena, n: int)
    requires
        a1.wf(),
        root_shape_all(a0),
        spec_subtree_removed(a0, a1, n),
    ensures
        root_shape_all(a1),
{
    assert forall|m: int| a1.live(m) implies #[trigger] root_shape_at(a1, m) by {
        assert(slot_eq(a0, a1, m));
        assert(a0.live(m));
        let t = a1.spec_kids(m);
        assert(t == a0.spec_kids(m));
        assert(root_shape_at(a0, m));
        assert forall|j: int|
            0 <= j < t.len() implies spec_is_text(a1, (#[trigger] t[j]) as int) == spec_is_text(
            a0,
            t[j] as int,
        ) && spec_is_element(a1, t[j] as int) == spec_is_element(a0, t[j] as int) by {
            assert(a1.live((a1.spec_kids(m)[j]) as int));
            assert(slot_eq(a0, a1, t[j] as int));
        }
        if spec_is_root(a1, m) {
            assert(spec_is_root(a0, m));
            lemma_seq_root_same(a0, a1, t);
        }
    }
}

/// Per-slot equal arenas have equal root rules.
pub proof fn lemma_root_same(a0: XmlArena, a1: XmlArena)
    requires
        a0.wf(),
        root_shape_all(a0),
        a1.spec_len() == a0.spec_len(),
        forall|i: int| 0 <= i < a0.spec_len() ==> slot_eq(a0, a1, i),
    ensures
        root_shape_all(a1),
{
    assert forall|m: int| a1.live(m) implies #[trigger] root_shape_at(a1, m) by {
        assert(slot_eq(a0, a1, m));
        assert(a0.live(m));
        let t = a1.spec_kids(m);
        assert(t == a0.spec_kids(m));
        assert(root_shape_at(a0, m));
        assert forall|j: int|
            0 <= j < t.len() implies spec_is_text(a1, (#[trigger] t[j]) as int) == spec_is_text(
            a0,
            t[j] as int,
        ) && spec_is_element(a1, t[j] as int) == spec_is_element(a0, t[j] as int) by {
            assert(a0.live((a0.spec_kids(m)[j]) as int));
            assert(slot_eq(a0, a1, t[j] as int));
        }
        if spec_is_root(a1, m) {
            assert(spec_is_root(a0, m));
            lemma_seq_root_same(a0, a1, t);
        }
    }
}

/// Replacing one node's value with one of the same kind preserves the
/// root rules.
pub proof fn lemma_root_value_kind_kept(a0: XmlArena, a1: XmlArena, n: int)
    requires
        a0.wf(),
        root_shape_all(a0),
        a1.spec_len() == a0.spec_len(),
        forall|i: int| 0 <= i < a0.spec_len() && i != n ==> slot_eq(a0, a1, i),
        a1.spec_value(n).spec_value_type() == a0.spec_value(n).spec_value_type(),
        a1.spec_parent(n) == a0.spec_parent(n),
        a1.spec_kids(n) == a0.spec_kids(n),
        a1.spec_removed(n) == a0.spec_removed(n),
    ensures
        root_shape_all(a1),
{
    assert forall|m: int| a1.live(m) implies #[trigger] root_shape_at(a1, m) by {
        assert(a0.live(m)) by {
            if m != n {
                assert(slot_eq(a0, a1, m));
            }
        }
        let t = a1.spec_kids(m);
        assert(t == a0.spec_kids(m)) by {
            if m != n {
                assert(slot_eq(a0, a1, m));
            }
        }
        assert(root_shape_at(a0, m));
        assert forall|j: int|
            0 <= j < t.len() implies spec_is_text(a1, (#[trigger] t[j]) as int) == spec_is_text(
            a0,
            t[j] as int,
        ) && spec_is_element(a1, t[j] as int) == spec_is_element(a0, t[j] as int) by {
            assert(a0.live((a0.spec_kids(m)[j]) as int));
            if t[j] as int != n {
                assert(slot_eq(a0, a1, t[j] as int));
            }
        }
        assert(spec_is_root(a1, m) == spec_is_root(a0, m)) by {
            if m != n {
                assert(slot_eq(a0, a1, m));
            }
        }
        if spec_is_root(a1, m) {
            lemma_seq_root_same(a0, a1, t);
        }
    }
}

/// A fresh childless slot preserves the root rules.
pub proof fn lemma_root_grown(a0: XmlArena, a1: XmlArena)
    requires
        a0.wf(),
        root_shape_all(a0),
        a1.spec_len() == a0.spec_len() + 1,
        forall|i: int| 0 <= i < a0.spec_len() ==> slot_eq(a0, a1, i),
        a1.spec_kids(a0.spec_len() as int).len() == 0,
    ensures
        root_shape_all(a1),
{
    assert forall|m: int| a1.live(m) implies #[trigger] root_shape_at(a1, m) by {
        if m < a0.spec_len() {
            assert(slot_eq(a0, a1, m));
            assert(a0.live(m));
            let t = a1.spec_kids(m);
            assert(t == a0.spec_kids(m));
            assert(root_shape_at(a0, m));
            assert forall|j: int|
                0 <= j < t.len() implies spec_is_text(a1, (#[trigger] t[j]) as int)
                == spec_is_text(a0, t[j] as int) && spec_is_element(a1, t[j] as int)
                == spec_is_element(a0, t[j] as int) by {
                assert(a0.live((a0.spec_kids(m)[j]) as int));
                assert(slot_eq(a0, a1, t[j] as int));
            }
            if spec_is_root(a1, m) {
                assert(spec_is_root(a0, m));
                lemma_seq_root_same(a0, a1, t);
            }
        } else {
            assert(a1.spec_kids(m).len() == 0);
        }
    }
}

/// Per-slot equal arenas have equal document shape.
pub proof fn lemma_shape_same(a0: XmlArena, a1: XmlArena)
    requires
        a0.wf(),
        shape_ok(a0),
        a1.spec_len() == a0.spec_len(),
        forall|i: int| 0 <= i < a0.spec_len() ==> slot_eq(a0, a1, i),
    ensures
        shape_ok(a1),
{
    assert forall|m: int|
        #![trigger no_adjacent_text_at(a1, m)]
        #![trigger root_shape_at(a1, m)]
        a1.live(m) implies no_adjacent_text_at(a1, m) && root_shape_at(a1, m) by {
        assert(slot_eq(a0, a1, m));
        assert(a0.live(m));
        let t = a1.spec_kids(m);
        assert(t == a0.spec_kids(m));
        assert(no_adjacent_text_at(a0, m));
        assert(root_shape_at(a0, m));
        assert forall|j: int|
            0 <= j < t.len() implies spec_is_text(a1, (#[trigger] t[j]) as int) == spec_is_text(
            a0,
            t[j] as int,
        ) && spec_is_element(a1, t[j] as int) == spec_is_element(a0, t[j] as int) by {
            assert(a0.live((a0.spec_kids(m)[j]) as int));
            assert(slot_eq(a0, a1, t[j] as int));
        }
        lemma_seq_nat_same(a0, a1, t);
        if spec_is_root(a1, m) {
            assert(spec_is_root(a0, m));
            lemma_seq_root_same(a0, a1, t);
        }
    }
}

/// Merging a text node away keeps the document shape: the absorbed node
/// was text, so lifting it out of its old place creates no new text
/// adjacency, and the absorbing node stays text.
pub proof fn lemma_shape_merged(a0: XmlArena, a1: XmlArena, target: int, c: int, c_first: bool)
    requires
        a0.wf(),
        shape_ok(a0),
        a0.live(c),
        spec_is_text(a0, c),
        c != target ==> spec_is_text(a0, target),
        spec_text_merged(a0, a1, target, c, c_first),
    ensures
        shape_ok(a1),
{
    a0.lemma_len_bound();
    assert forall|n: int|
        #![trigger no_adjacent_text_at(a1, n)]
        #![trigger root_shape_at(a1, n)]
        a1.live(n) implies no_adjacent_text_at(a1, n) && root_shape_at(a1, n) by {
        assert(a0.live(n));
        assert(!spec_descends(a0, n, c)) by {
            if spec_descends(a0, n, c) {
                assert(a1.spec_removed(n));
            }
        }
        assert(n != c) by {
            assert(spec_chain_has(a0, c, c, 0));
        }
        let ks = a0.spec_kids(n);
        assert(a1.spec_kids(n) == ks.remove_value(c as usize));
        assert(no_adjacent_text_at(a0, n));
        assert(root_shape_at(a0, n));
        ks.index_of_first_ensures(c as usize);
        let ks1 = ks.remove_value(c as usize);
        // the textness and kind of every listed survivor is unchanged
        assert forall|j: int|
            0 <= j < ks1.len() implies spec_is_text(a1, (#[trigger] ks1[j]) as int) == spec_is_text(
            a0,
            ks1[j] as int,
        ) && spec_is_element(a1, ks1[j] as int) == spec_is_element(a0, ks1[j] as int) by {
            let e = ks1[j] as int;
            assert(ks1.contains(ks1[j]));
            if ks.index_of_first(c as usize) is Some {
                let pos = ks.index_of_first(c as usize)->Some_0;
                lemma_remove_no_dup(ks, pos);
                assert(ks.contains(ks1[j]));
            } else {
                assert(ks.contains(ks1[j]));
            }
            let jj = choose|jj: int| 0 <= jj < ks.len() && ks[jj] == ks1[j];
            assert(a0.spec_kids(n)[jj] == ks1[j]);
            assert(a0.live(e) && a0.spec_parent(e) == Some(n as usize));
            assert(e != c) by {
                if e == c {
                    assert(ks1.contains(c as usize));
                    if ks.index_of_first(c as usize) is Some {
                        let pos = ks.index_of_first(c as usize)->Some_0;
                        lemma_remove_no_dup(ks, pos);
                    }
                }
            }
            assert(!spec_descends(a0, e, c)) by {
                if spec_descends(a0, e, c) {
                    let f = choose|f: nat| spec_chain_has(a0, e, c, f);
                    assert(f > 0);
                    assert(a0.in_bounds(e));
                    assert(a0.spec_parent(e) == Some(n as usize));
                    assert(spec_chain_has(a0, (n as usize) as int, c, (f - 1) as nat));
                    assert((n as usize) as int == n);
                }
            }
            assert(a1.spec_kids(e) == a0.spec_kids(e).remove_value(c as usize));
            if e == target && c != target {
                assert(spec_is_text(a0, e));
                assert(spec_is_text(a1, e)) by {
                    if !spec_descends(a0, target, c) {
                    } else {
                        assert(a1.spec_removed(target));
                    }
                }
            } else {
                assert(a1.spec_value(e) == a0.spec_value(e));
            }
        }
        assert(spec_is_root(a1, n) ==> spec_is_root(a0, n)) by {
            if spec_is_root(a1, n) {
                if n == target && c != target {
                    assert(spec_is_text(a1, target));
                } else {
                    assert(a1.spec_value(n) == a0.spec_value(n));
                }
            }
        }
        match ks.index_of_first(c as usize) {
            Some(pos) => {
                assert(ks[pos] == c as usize);
                assert((c as usize) as int == c);
                assert(spec_is_text(a0, ks[pos] as int));
                lemma_seq_nat_remove(a0, ks, pos);
                lemma_seq_nat_same(a0, a1, ks1);
                if spec_is_root(a1, n) {
                    lemma_seq_root_remove(a0, ks, pos);
                    lemma_seq_root_same(a0, a1, ks1);
                }
            },
            None => {
                assert(ks1 == ks);
                lemma_seq_nat_same(a0, a1, ks1);
                if spec_is_root(a1, n) {
                    lemma_seq_root_same(a0, a1, ks1);
                }
            },
        }
        assert(spec_is_root(a1, n) ==> seq_root_ok(a1, a1.spec_kids(n)));
    }
}

/// The prefix bound to `ns` at `n`: the nearest enclosing element's
/// declaration, walking the parent chain for at most `fuel` steps.
pub open spec fn spec_prefix_for_namespace(a: XmlArena, n: int, ns: NamespaceId, fuel: nat) -> Option<
    PrefixId,
>
    decreases fuel,
{
    if fuel == 0 || !a.in_bounds(n) {
        None
    } else {
        let own = match a.spec_value(n) {
            XmlValue::Element(e) => e.spec_prefix_for(ns),
            _ => None,
        };
        if own is Some {
            own
        } else {
            match a.spec_parent(n) {
                Some(p) => spec_prefix_for_namespace(a, p as int, ns, (fuel - 1) as nat),
                None => None,
            }
        }
    }
}

/// The namespace bound to `prefix` at `n`: the nearest enclosing element's
/// declaration, walking the parent chain for at most `fuel` steps.
pub open spec fn spec_namespace_for_prefix(
    a: XmlArena,
    n: int,
    prefix: PrefixId,
    fuel: nat,
) -> Option<NamespaceId>
    decreases fuel,
{
    if fuel == 0 || !a.in_bounds(n) {
        None
    } else {
        let own = match a.spec_value(n) {
            XmlValue::Element(e) => e.spec_namespace_for(prefix),
            _ => None,
        };
        if own is Some {
            own
        } else {
            match a.spec_parent(n) {
                Some(p) => spec_namespace_for_prefix(a, p as int, prefix, (fuel - 1) as nat),
                None => None,
            }
        }
    }
}

/// Innermost wins: a declaration at the element itself is the answer,
/// whatever any ancestor declares.
pub proof fn lemma_resolution_prefers_self(a: XmlArena, n: int, prefix: PrefixId, fuel: nat)
    requires
        fuel > 0,
        a.in_bounds(n),
        a.spec_value(n) matches XmlValue::Element(e) && e.spec_namespace_for(prefix) is Some,
    ensures
        a.spec_value(n) matches XmlValue::Element(e) ==> spec_namespace_for_prefix(
            a,
            n,
            prefix,
            fuel,
        ) == e.spec_namespace_for(prefix),
{
}

/// Outside the declaring subtree the walk steps to the parent: a node that
/// declares nothing for the prefix resolves as its parent does.
pub proof fn lemma_resolution_steps_up(a: XmlArena, n: int, prefix: PrefixId, fuel: nat)
    requires
        fuel > 0,
        a.in_bounds(n),
        a.spec_parent(n) is Some,
        match a.spec_value(n) {
            XmlValue::Element(e) => e.spec_namespace_for(prefix) is None,
            _ => true,
        },
    ensures
        spec_namespace_for_prefix(a, n, prefix, fuel) == spec_namespace_for_prefix(
            a,
            a.spec_parent(n)->Some_0 as int,
            prefix,
            (fuel - 1) as nat,
        ),
{
}

/// Name identity: two interned names that carry the same local string in
/// the same namespace are the same id, however and wherever they were
/// built, and whatever prefixes were in use at their call sites.
pub proof fn lemma_same_name_same_id(d: XmlData, id1: NameId, id2: NameId)
    requires
        d.wf(),
        id1.spec_index() < d.spec_name_lookup().spec_len(),
        id2.spec_index() < d.spec_name_lookup().spec_len(),
        d.spec_name_lookup().spec_entry(id1.spec_index() as int) == d.spec_name_lookup().spec_entry(
            id2.spec_index() as int,
        ),
    ensures
        id1 == id2,
{
    if id1.spec_index() != id2.spec_index() {
        let i = if id1.spec_index() < id2.spec_index() {
            id1.spec_index() as int
        } else {
            id2.spec_index() as int
        };
        let j = if id1.spec_index() < id2.spec_index() {
            id2.spec_index() as int
        } else {
            id1.spec_index() as int
        };
        assert(d.spec_name_lookup().spec_entry(i) != d.spec_name_lookup().spec_entry(j));
        assert(false);
    }
    crate::id::lemma_name_id_injective(id1, id2);
}

/// The pre-order listing of the subtree below `n` (the node itself
/// first), descending at most `fuel` levels.
pub open spec fn spec_preorder(a: XmlArena, n: int, fuel: nat) -> Seq<usize>
    decreases fuel, 0int,
{
    if fuel == 0 {
        seq![n as usize]
    } else {
        seq![n as usize] + spec_preorder_list(a, a.spec_kids(n), (fuel - 1) as nat)
    }
}

/// The pre-order listing of a row of subtrees, left to right.
pub open spec fn spec_preorder_list(a: XmlArena, ks: Seq<usize>, fuel: nat) -> Seq<usize>
    decreases fuel, ks.len() + 1,
{
    if ks.len() == 0 {
        Seq::empty()
    } else {
        spec_preorder(a, ks[0] as int, fuel) + spec_preorder_list(a, ks.drop_first(), fuel)
    }
}

/// Pre-order over a split row is the two rows' orders, one after the
/// other.
pub proof fn lemma_preorder_list_concat(a: XmlArena, ks1: Seq<usize>, ks2: Seq<usize>, fuel: nat)
    ensures
        spec_preorder_list(a, ks1 + ks2, fuel) == spec_preorder_list(a, ks1, fuel)
            + spec_preorder_list(a, ks2, fuel),
    decreases ks1.len(),
{
    if ks1.len() == 0 {
        assert(ks1 + ks2 =~= ks2);
        assert(spec_preorder_list(a, ks1, fuel) + spec_preorder_list(a, ks2, fuel)
            =~= spec_preorder_list(a, ks2, fuel));
    } else {
        assert((ks1 + ks2)[0] == ks1[0]);
        assert((ks1 + ks2).drop_first() =~= ks1.drop_first() + ks2);
        lemma_preorder_list_concat(a, ks1.drop_first(), ks2, fuel);
        assert(spec_preorder_list(a, ks1 + ks2, fuel) =~= spec_preorder_list(a, ks1, fuel)
            + spec_preorder_list(a, ks2, fuel));
    }
}

/// A start edge for slot `n`.
pub closed spec fn spec_edge_start(n: usize) -> XmlNodeEdge {
    XmlNodeEdge::Start(XmlNode(n))
}

/// An end edge for slot `n`.
pub closed spec fn spec_edge_end(n: usize) -> XmlNodeEdge {
    XmlNodeEdge::End(XmlNode(n))
}

/// Handle identity is exactly the slot index.
pub proof fn lemma_node_handle_injective(a: XmlNode, b: XmlNode)
    requires
        a.spec_index() == b.spec_index(),
    ensures
        a == b,
{
}

/// What a start edge holds: the handle of the slot it names.
pub proof fn lemma_edge_start_ensures(n: usize)
    ensures
        spec_edge_start(n) matches XmlNodeEdge::Start(x) && x.spec_index() == n,
{
}

/// What an end edge holds: the handle of the slot it names.
pub proof fn lemma_edge_end_ensures(n: usize)
    ensures
        spec_edge_end(n) matches XmlNodeEdge::End(x) && x.spec_index() == n,
{
}

/// The depth-first edge walk of the subtree below `n`: its start edge,
/// the walks of its children, its end edge; descending at most `fuel`
/// levels.
pub open spec fn spec_edges(a: XmlArena, n: int, fuel: nat) -> Seq<XmlNodeEdge>
    decreases fuel, 0int,
{
    if fuel == 0 {
        seq![spec_edge_start(n as usize), spec_edge_end(n as usize)]
    } else {
        seq![spec_edge_start(n as usize)] + spec_edges_list(a, a.spec_kids(n), (fuel - 1) as nat)
            + seq![spec_edge_end(n as usize)]
    }
}

/// The edge walks of a row of subtrees, left to right.
pub open spec fn spec_edges_list(a: XmlArena, ks: Seq<usize>, fuel: nat) -> Seq<XmlNodeEdge>
    decreases fuel, ks.len() + 1,
{
    if ks.len() == 0 {
        Seq::empty()
    } else {
        spec_edges(a, ks[0] as int, fuel) + spec_edges_list(a, ks.drop_first(), fuel)
    }
}

/// The edge walk of a split row is the two rows' walks, one after the
/// other.
pub proof fn lemma_edges_list_concat(a: XmlArena, ks1: Seq<usize>, ks2: Seq<usize>, fuel: nat)
    ensures
        spec_edges_list(a, ks1 + ks2, fuel) == spec_edges_list(a, ks1, fuel) + spec_edges_list(
            a,
            ks2,
            fuel,
        ),
    decreases ks1.len(),
{
    if ks1.len() == 0 {
        assert(ks1 + ks2 =~= ks2);
        assert(spec_edges_list(a, ks1, fuel) + spec_edges_list(a, ks2, fuel) =~= spec_edges_list(
            a,
            ks2,
            fuel,
        ));
    } else {
        assert((ks1 + ks2)[0] == ks1[0]);
        assert((ks1 + ks2).drop_first() =~= ks1.drop_first() + ks2);
        lemma_edges_list_concat(a, ks1.drop_first(), ks2, fuel);
        assert(spec_edges_list(a, ks1 + ks2, fuel) =~= spec_edges_list(a, ks1, fuel)
            + spec_edges_list(a, ks2, fuel));
    }
}

/// The shadowing scenario in one statement: an element that declares a
/// binding for a prefix resolves to it; a node that declares nothing for
/// the prefix and sits directly under that element resolves to the outer
/// binding. With an inner element re-declaring the prefix, resolution at
/// the inner element yields the inner namespace while a sibling of the
/// inner element yields the outer one.
pub proof fn lemma_resolution_shadowing(
    a: XmlArena,
    outer: int,
    inner: int,
    sib: int,
    prefix: PrefixId,
    n1: NamespaceId,
    n2: NamespaceId,
    fuel: nat,
)
    requires
        a.wf(),
        fuel > 1,
        a.in_bounds(inner),
        a.in_bounds(sib),
        a.in_bounds(outer),
        a.spec_value(outer) matches XmlValue::Element(e) && e.spec_namespace_for(prefix) == Some(
            n1,
        ),
        a.spec_value(inner) matches XmlValue::Element(e) && e.spec_namespace_for(prefix) == Some(
            n2,
        ),
        a.spec_parent(sib) == Some(outer as usize),
        match a.spec_value(sib) {
            XmlValue::Element(e) => e.spec_namespace_for(prefix) is None,
            _ => true,
        },
    ensures
        spec_namespace_for_prefix(a, inner, prefix, fuel) == Some(n2),
        spec_namespace_for_prefix(a, sib, prefix, fuel) == Some(n1),
{
    a.lemma_len_bound();
    lemma_resolution_prefers_self(a, inner, prefix, fuel);
    lemma_resolution_steps_up(a, sib, prefix, fuel);
    assert((outer as usize) as int == outer);
    lemma_resolution_prefers_self(a, outer, prefix, (fuel - 1) as nat);
}

/// The document store: the arena of nodes together with the name,
/// namespace and prefix tables and the two pre-interned sentinels.
pub struct XmlData {
    pub(crate) arena: XmlArena,
    pub(crate) namespace_lookup: NamespaceLookup,
    pub(crate) prefix_lookup: PrefixLookup,
    pub(crate) name_lookup: NameLookup,
    pub(crate) no_namespace_id: NamespaceId,
    pub(crate) empty_prefix_id: PrefixId,
}

impl XmlData {
    pub closed spec fn spec_arena(self) -> XmlArena {
        self.arena
    }

    pub closed spec fn spec_namespace_lookup(self) -> NamespaceLookup {
        self.namespace_lookup
    }

    pub closed spec fn spec_prefix_lookup(self) -> PrefixLookup {
        self.prefix_lookup
    }

    pub closed spec fn spec_name_lookup(self) -> NameLookup {
        self.name_lookup
    }

    /// The pre-interned id of the empty namespace string.
    pub closed spec fn spec_no_namespace(self) -> NamespaceId {
        self.no_namespace_id
    }

    /// The pre-interned id of the empty prefix string.
    pub closed spec fn spec_empty_prefix(self) -> PrefixId {
        self.empty_prefix_id
    }

    /// The handle denotes a live node of this store.
    pub open spec fn live_node(self, n: XmlNode) -> bool {
        self.spec_arena().live(n.spec_index())
    }

    /// The value stored at the handle.
    pub open spec fn value_at(self, n: XmlNode) -> XmlValue {
        self.spec_arena().spec_value(n.spec_index())
    }

    /// The tables are injective and hold the two sentinels, and every name
    /// entry's namespace is a valid namespace id.
    pub open spec fn tables_wf(self) -> bool {
        &&& self.spec_namespace_lookup().wf()
        &&& self.spec_prefix_lookup().wf()
        &&& self.spec_name_lookup().wf()
        &&& self.spec_no_namespace().spec_index() < self.spec_namespace_lookup().spec_len()
        &&& self.spec_namespace_lookup().spec_entry(self.spec_no_namespace().spec_index() as int)
            == Seq::<char>::empty()
        &&& self.spec_empty_prefix().spec_index() < self.spec_prefix_lookup().spec_len()
        &&& self.spec_prefix_lookup().spec_entry(self.spec_empty_prefix().spec_index() as int)
            == Seq::<char>::empty()
        &&& (forall|i: int|
            0 <= i < self.spec_name_lookup().spec_len() ==> (#[trigger] self.spec_name_lookup()
                .spec_entry(i)).1.spec_index() < self.spec_namespace_lookup().spec_len())
    }

    /// Every live node's value is well formed, and element names point
    /// into the name table.
    pub open spec fn values_wf(self) -> bool {
        forall|n: int|
            self.spec_arena().live(n) ==> (#[trigger] self.spec_arena().spec_value(n)).wf() && (
            self.spec_arena().spec_value(n) matches XmlValue::Element(e)
                ==> e.spec_name().spec_index() < self.spec_name_lookup().spec_len())
    }

    /// The store invariant: consistent links, well-formed tables, well
    /// formed values.
    pub open spec fn wf(self) -> bool {
        &&& self.spec_arena().wf()
        &&& self.tables_wf()
        &&& self.values_wf()
    }

    /// A fresh store: an empty arena; the empty namespace and the empty
    /// prefix pre-interned so "no namespace" and "no prefix" have stable,
    /// well-known ids.
    pub fn new() -> (r: XmlData)
        ensures
            r.wf(),
            r.spec_arena().spec_len() == 0,
            shape_ok(r.spec_arena()),
            r.spec_namespace_lookup().spec_len() == 1,
            r.spec_prefix_lookup().spec_len() == 1,
            r.spec_name_lookup().spec_len() == 0,
    {
        let mut namespace_lookup = NamespaceLookup::new();
        let no_namespace_id = namespace_lookup.get_id_mut(Namespace::new(String::new()));
        let mut prefix_lookup = PrefixLookup::new();
        let empty_prefix_id = prefix_lookup.get_id_mut(Prefix::new(String::new()));
        XmlData {
            arena: XmlArena::new(),
            namespace_lookup,
            prefix_lookup,
            name_lookup: NameLookup::new(),
            no_namespace_id,
            empty_prefix_id,
        }
    }

    /// The interning tables and sentinels of `b` are those of `a`.
    pub open spec fn same_tables(a: XmlData, b: XmlData) -> bool {
        &&& b.spec_namespace_lookup() == a.spec_namespace_lookup()
        &&& b.spec_prefix_lookup() == a.spec_prefix_lookup()
        &&& b.spec_name_lookup() == a.spec_name_lookup()
        &&& b.spec_no_namespace() == a.spec_no_namespace()
        &&& b.spec_empty_prefix() == a.spec_empty_prefix()
    }

    /// `b` is `a` with possibly more interned entries: the tree, the
    /// sentinels and every already-interned entry of every table are
    /// intact, so ids handed out before keep their meaning.
    pub open spec fn tables_extended(a: XmlData, b: XmlData) -> bool {
        &&& b.spec_arena() == a.spec_arena()
        &&& b.spec_no_namespace() == a.spec_no_namespace()
        &&& b.spec_empty_prefix() == a.spec_empty_prefix()
        &&& b.spec_namespace_lookup().spec_len() >= a.spec_namespace_lookup().spec_len()
        &&& (forall|i: int|
            0 <= i < a.spec_namespace_lookup().spec_len()
                ==> #[trigger] b.spec_namespace_lookup().spec_entry(i)
                == a.spec_namespace_lookup().spec_entry(i))
        &&& b.spec_prefix_lookup().spec_len() >= a.spec_prefix_lookup().spec_len()
        &&& (forall|i: int|
            0 <= i < a.spec_prefix_lookup().spec_len()
                ==> #[trigger] b.spec_prefix_lookup().spec_entry(i)
                == a.spec_prefix_lookup().spec_entry(i))
        &&& b.spec_name_lookup().spec_len() >= a.spec_name_lookup().spec_len()
        &&& (forall|i: int|
            0 <= i < a.spec_name_lookup().spec_len()
                ==> #[trigger] b.spec_name_lookup().spec_entry(i) == a.spec_name_lookup()
                .spec_entry(i))
    }

    /// Interning more entries twice over still leaves the first store's
    /// entries intact.
    pub proof fn lemma_tables_extended_trans(a: XmlData, b: XmlData, c: XmlData)
        requires
            XmlData::tables_extended(a, b),
            XmlData::tables_extended(b, c),
        ensures
            XmlData::tables_extended(a, c),
    {
        assert forall|i: int|
            0 <= i < a.spec_namespace_lookup().spec_len()
                implies #[trigger] c.spec_namespace_lookup().spec_entry(i)
            == a.spec_namespace_lookup().spec_entry(i) by {
            assert(b.spec_namespace_lookup().spec_entry(i) == a.spec_namespace_lookup().spec_entry(
                i,
            ));
        }
        assert forall|i: int|
            0 <= i < a.spec_prefix_lookup().spec_len()
                implies #[trigger] c.spec_prefix_lookup().spec_entry(i)
            == a.spec_prefix_lookup().spec_entry(i) by {
            assert(b.spec_prefix_lookup().spec_entry(i) == a.spec_prefix_lookup().spec_entry(i));
        }
        assert forall|i: int|
            0 <= i < a.spec_name_lookup().spec_len()
                implies #[trigger] c.spec_name_lookup().spec_entry(i) == a.spec_name_lookup()
            .spec_entry(i) by {
            assert(b.spec_name_lookup().spec_entry(i) == a.spec_name_lookup().spec_entry(i));
        }
    }

    /// Allocate an unattached node carrying `value`.
    pub(crate) fn new_node(&mut self, value: XmlValue) -> (r: XmlNode)
        requires
            old(self).wf(),
            old(self).spec_arena().spec_len() < usize::MAX,
            value.wf(),
            value matches XmlValue::Element(e) ==> e.spec_name().spec_index() < old(
                self,
            ).spec_name_lookup().spec_len(),
        ensures
            final(self).wf(),
            XmlData::same_tables(*old(self), *final(self)),
            r.spec_index() == old(self).spec_arena().spec_len(),
            final(self).spec_arena().spec_len() == old(self).spec_arena().spec_len() + 1,
            final(self).live_node(r),
            final(self).spec_arena().spec_parent(r.spec_index()) is None,
            final(self).spec_arena().spec_kids(r.spec_index()) == Seq::<usize>::empty(),
            final(self).value_at(r) == value,
            forall|i: int|
                0 <= i < old(self).spec_arena().spec_len() ==> slot_eq(
                    old(self).spec_arena(),
                    final(self).spec_arena(),
                    i,
                ),
            shape_ok(old(self).spec_arena()) ==> shape_ok(final(self).spec_arena()),
            root_shape_all(old(self).spec_arena()) ==> root_shape_all(final(self).spec_arena()),
    {
        let n = self.arena.new_slot(value);
        proof {
            let a = old(self).spec_arena();
            let b = self.spec_arena();
            assert forall|m: int|
                b.live(m) implies (#[trigger] b.spec_value(m)).wf() && (b.spec_value(
                m,
            ) matches XmlValue::Element(e) ==> e.spec_name().spec_index()
                < self.spec_name_lookup().spec_len()) by {
                if m < a.spec_len() {
                    assert(slot_eq(a, b, m));
                    assert(a.live(m));
                }
            }
            if shape_ok(a) {
                assert forall|m: int| b.live(m) implies #[trigger] no_adjacent_text_at(b, m) by {
                    if m < a.spec_len() {
                        assert(slot_eq(a, b, m));
                        assert(no_adjacent_text_at(a, m));
                        assert forall|i: int|
                            0 <= i && i + 1 < b.spec_kids(m).len() implies !(spec_is_text(
                            b,
                            (#[trigger] b.spec_kids(m)[i]) as int,
                        ) && spec_is_text(b, b.spec_kids(m)[i + 1] as int)) by {
                            let c1 = a.spec_kids(m)[i] as int;
                            let c2 = a.spec_kids(m)[i + 1] as int;
                            assert(a.live(c1) && a.live(c2));
                            assert(slot_eq(a, b, c1));
                            assert(slot_eq(a, b, c2));
                        }
                    } else {
                        assert(b.spec_kids(m).len() == 0);
                    }
                }
                assert forall|m: int| b.live(m) implies #[trigger] root_shape_at(b, m) by {
                    if m < a.spec_len() {
                        assert(slot_eq(a, b, m));
                        assert(root_shape_at(a, m));
                        if spec_is_root(b, m) {
                            assert forall|i: int|
                                0 <= i < b.spec_kids(m).len() implies !spec_is_text(
                                b,
                                (#[trigger] b.spec_kids(m)[i]) as int,
                            ) by {
                                let c1 = a.spec_kids(m)[i] as int;
                                assert(a.live(c1));
                                assert(slot_eq(a, b, c1));
                            }
                            assert forall|i: int, j: int|
                                0 <= i < j < b.spec_kids(m).len() implies !(spec_is_element(
                                b,
                                (#[trigger] b.spec_kids(m)[i]) as int,
                            ) && spec_is_element(b, (#[trigger] b.spec_kids(m)[j]) as int)) by {
                                let c1 = a.spec_kids(m)[i] as int;
                                let c2 = a.spec_kids(m)[j] as int;
                                assert(a.live(c1) && a.live(c2));
                                assert(slot_eq(a, b, c1));
                                assert(slot_eq(a, b, c2));
                            }
                        }
                    } else {
                        assert(b.spec_kids(m).len() == 0);
                    }
                }
            }
            if root_shape_all(a) {
                lemma_root_grown(a, b);
            }
        }
        XmlNode::new(n)
    }

    /// Create a new, unattached text node.
    pub fn new_text(&mut self, text: &str) -> (r: XmlNode)
        requires
            old(self).wf(),
            old(self).spec_arena().spec_len() < usize::MAX,
        ensures
            final(self).wf(),
            XmlData::same_tables(*old(self), *final(self)),
            r.spec_index() == old(self).spec_arena().spec_len(),
            final(self).spec_arena().spec_len() == old(self).spec_arena().spec_len() + 1,
            final(self).live_node(r),
            final(self).spec_arena().spec_parent(r.spec_index()) is None,
            final(self).spec_arena().spec_kids(r.spec_index()) == Seq::<usize>::empty(),
            final(self).value_at(r) is Text,
            spec_text_of(final(self).value_at(r)) == text@,
            forall|i: int|
                0 <= i < old(self).spec_arena().spec_len() ==> slot_eq(
                    old(self).spec_arena(),
                    final(self).spec_arena(),
                    i,
                ),
            shape_ok(old(self).spec_arena()) ==> shape_ok(final(self).spec_arena()),
            root_shape_all(old(self).spec_arena()) ==> root_shape_all(final(self).spec_arena()),
    {
        let text_node = XmlValue::Text(Text::new(String::from_str(text)));
        self.new_node(text_node)
    }

    /// Create a new, unattached element node from an interned name.
    pub fn new_element(&mut self, name_id: NameId) -> (r: XmlNode)
        requires
            old(self).wf(),
            old(self).spec_arena().spec_len() < usize::MAX,
            name_id.spec_index() < old(self).spec_name_lookup().spec_len(),
        ensures
            final(self).wf(),
            XmlData::same_tables(*old(self), *final(self)),
            r.spec_index() == old(self).spec_arena().spec_len(),
            final(self).spec_arena().spec_len() == old(self).spec_arena().spec_len() + 1,
            final(self).live_node(r),
            final(self).spec_arena().spec_parent(r.spec_index()) is None,
            final(self).spec_arena().spec_kids(r.spec_index()) == Seq::<usize>::empty(),
            final(self).value_at(r) matches XmlValue::Element(e) && e.spec_name() == name_id
                && (forall|p: PrefixId| e.spec_namespace_for(p) is None) && (forall|ns: NamespaceId|
                e.spec_prefix_for(ns) is None),
            forall|i: int|
                0 <= i < old(self).spec_arena().spec_len() ==> slot_eq(
                    old(self).spec_arena(),
                    final(self).spec_arena(),
                    i,
                ),
            shape_ok(old(self).spec_arena()) ==> shape_ok(final(self).spec_arena()),
            root_shape_all(old(self).spec_arena()) ==> root_shape_all(final(self).spec_arena()),
    {
        let element_node = XmlValue::Element(Element::new(name_id));
        self.new_node(element_node)
    }

    /// Create a new, unattached comment node.
    pub fn new_comment(&mut self, comment: &str) -> (r: XmlNode)
        requires
            old(self).wf(),
            old(self).spec_arena().spec_len() < usize::MAX,
        ensures
            final(self).wf(),
            XmlData::same_tables(*old(self), *final(self)),
            r.spec_index() == old(self).spec_arena().spec_len(),
            final(self).spec_arena().spec_len() == old(self).spec_arena().spec_len() + 1,
            final(self).live_node(r),
            final(self).spec_arena().spec_parent(r.spec_index()) is None,
            final(self).spec_arena().spec_kids(r.spec_index()) == Seq::<usize>::empty(),
            final(self).value_at(r) matches XmlValue::Comment(c) && c.spec_get() == comment@,
            forall|i: int|
                0 <= i < old(self).spec_arena().spec_len() ==> slot_eq(
                    old(self).spec_arena(),
                    final(self).spec_arena(),
                    i,
                ),
            shape_ok(old(self).spec_arena()) ==> shape_ok(final(self).spec_arena()),
            root_shape_all(old(self).spec_arena()) ==> root_shape_all(final(self).spec_arena()),
    {
        let comment_node = XmlValue::Comment(Comment::new(String::from_str(comment)));
        self.new_node(comment_node)
    }

    /// Create a new, unattached processing instruction node.
    pub fn new_processing_instruction(&mut self, target: &str, data: Option<&str>) -> (r: XmlNode)
        requires
            old(self).wf(),
            old(self).spec_arena().spec_len() < usize::MAX,
        ensures
            final(self).wf(),
            XmlData::same_tables(*old(self), *final(self)),
            r.spec_index() == old(self).spec_arena().spec_len(),
            final(self).spec_arena().spec_len() == old(self).spec_arena().spec_len() + 1,
            final(self).live_node(r),
            final(self).spec_arena().spec_parent(r.spec_index()) is None,
            final(self).spec_arena().spec_kids(r.spec_index()) == Seq::<usize>::empty(),
            final(self).value_at(r) matches XmlValue::ProcessingInstruction(pi) && pi.spec_target()
                == target@ && (data is Some ==> pi.spec_data() == Some(data->Some_0@)) && (data
                is None ==> pi.spec_data() is None),
            forall|i: int|
                0 <= i < old(self).spec_arena().spec_len() ==> slot_eq(
                    old(self).spec_arena(),
                    final(self).spec_arena(),
                    i,
                ),
            shape_ok(old(self).spec_arena()) ==> shape_ok(final(self).spec_arena()),
            root_shape_all(old(self).spec_arena()) ==> root_shape_all(final(self).spec_arena()),
    {
        let data_string = match data {
            Some(d) => Some(String::from_str(d)),
            None => None,
        };
        let pi_node = XmlValue::ProcessingInstruction(
            ProcessingInstruction::new(String::from_str(target), data_string),
        );
        self.new_node(pi_node)
    }

    /// Read the tagged value of a node.
    pub fn xml_value(&self, node: XmlNode) -> (r: &XmlValue)
        requires
            self.wf(),
            self.live_node(node),
        ensures
            *r == self.value_at(node),
    {
        self.arena.value(node.get())
    }

    /// The kind of value the node holds.
    pub fn value_type(&self, node: XmlNode) -> (r: ValueType)
        requires
            self.wf(),
            self.live_node(node),
        ensures
            r == self.value_at(node).spec_value_type(),
    {
        self.xml_value(node).value_type()
    }

    /// The parent of the node, if it is attached.
    pub fn parent(&self, node: XmlNode) -> (r: Option<XmlNode>)
        requires
            self.wf(),
            self.live_node(node),
        ensures
            match r {
                Some(p) => self.spec_arena().spec_parent(node.spec_index()) == Some(
                    p.spec_index() as usize,
                ) && self.live_node(p),
                None => self.spec_arena().spec_parent(node.spec_index()) is None,
            },
    {
        match self.arena.parent(node.get()) {
            Some(p) => Some(XmlNode::new(p)),
            None => None,
        }
    }

    /// The first child of the node.
    pub fn first_child(&self, node: XmlNode) -> (r: Option<XmlNode>)
        requires
            self.wf(),
            self.live_node(node),
        ensures
            match r {
                Some(c) => self.spec_arena().spec_kids(node.spec_index()).len() > 0 && c.spec_index()
                    == self.spec_arena().spec_kids(node.spec_index())[0] && self.live_node(c),
                None => self.spec_arena().spec_kids(node.spec_index()).len() == 0,
            },
    {
        let n = node.get();
        if self.arena.child_count(n) > 0 {
            let c = self.arena.child_at(n, 0);
            proof {
                assert(self.spec_arena().spec_kids(n as int)[0] == c);
            }
            Some(XmlNode::new(c))
        } else {
            None
        }
    }

    /// The last child of the node.
    pub fn last_child(&self, node: XmlNode) -> (r: Option<XmlNode>)
        requires
            self.wf(),
            self.live_node(node),
        ensures
            match r {
                Some(c) => self.spec_arena().spec_kids(node.spec_index()).len() > 0 && c.spec_index()
                    == self.spec_arena().spec_kids(node.spec_index()).last() && self.live_node(c),
                None => self.spec_arena().spec_kids(node.spec_index()).len() == 0,
            },
    {
        let n = node.get();
        let count = self.arena.child_count(n);
        if count > 0 {
            let c = self.arena.child_at(n, count - 1);
            proof {
                assert(self.spec_arena().spec_kids(n as int)[count - 1] == c);
            }
            Some(XmlNode::new(c))
        } else {
            None
        }
    }

    /// Whether the node's handle has been invalidated by `remove`.
    pub fn is_removed(&self, node: XmlNode) -> (r: bool)
        requires
            self.wf(),
            self.spec_arena().in_bounds(node.spec_index()),
        ensures
            r == self.spec_arena().spec_removed(node.spec_index()),
    {
        self.arena.is_removed(node.get())
    }

    /// The node is a document root.
    pub fn is_root(&self, node: XmlNode) -> (r: bool)
        requires
            self.wf(),
            self.live_node(node),
        ensures
            r == spec_is_root(self.spec_arena(), node.spec_index()),
    {
        matches!(self.value_type(node), ValueType::Root)
    }

    /// The node is an element.
    pub fn is_element(&self, node: XmlNode) -> (r: bool)
        requires
            self.wf(),
            self.live_node(node),
        ensures
            r == spec_is_element(self.spec_arena(), node.spec_index()),
    {
        matches!(self.value_type(node), ValueType::Element)
    }

    /// The node is a text node.
    pub fn is_text(&self, node: XmlNode) -> (r: bool)
        requires
            self.wf(),
            self.live_node(node),
        ensures
            r == spec_is_text(self.spec_arena(), node.spec_index()),
    {
        matches!(self.value_type(node), ValueType::Text)
    }

    /// The node is a comment.
    pub fn is_comment(&self, node: XmlNode) -> (r: bool)
        requires
            self.wf(),
            self.live_node(node),
        ensures
            r == (self.value_at(node) is Comment),
    {
        matches!(self.value_type(node), ValueType::Comment)
    }

    /// The node is a processing instruction.
    pub fn is_processing_instruction(&self, node: XmlNode) -> (r: bool)
        requires
            self.wf(),
            self.live_node(node),
        ensures
            r == (self.value_at(node) is ProcessingInstruction),
    {
        matches!(self.value_type(node), ValueType::ProcessingInstruction)
    }

    /// The node's parent is a document root.
    pub fn is_under_root(&self, node: XmlNode) -> (r: bool)
        requires
            self.wf(),
            self.live_node(node),
        ensures
            r == under_root(self.spec_arena(), node.spec_index()),
    {
        match self.parent(node) {
            Some(p) => self.is_root(p),
            None => false,
        }
    }

    /// Whether some child of the node is an element.
    pub fn has_element_child(&self, node: XmlNode) -> (r: bool)
        requires
            self.wf(),
            self.live_node(node),
        ensures
            r == has_element_kid(self.spec_arena(), node.spec_index()),
    {
        let n = node.get();
        let count = self.arena.child_count(n);
        let mut i: usize = 0;
        while i < count
            invariant
                self.wf(),
                self.spec_arena().live(n as int),
                n as int == node.spec_index(),
                i <= count,
                count == self.spec_arena().spec_kids(n as int).len(),
                forall|j: int|
                    0 <= j < i ==> !spec_is_element(
                        self.spec_arena(),
                        (#[trigger] self.spec_arena().spec_kids(n as int)[j]) as int,
                    ),
            decreases count - i,
        {
            let c = self.arena.child_at(n, i);
            proof {
                assert(self.spec_arena().spec_kids(n as int)[i as int] == c);
            }
            if self.is_element(XmlNode::new(c)) {
                proof {
                    assert(self.spec_arena().spec_kids(n as int)[i as int] == c);
                    assert(spec_is_element(
                        self.spec_arena(),
                        (self.spec_arena().spec_kids(n as int)[i as int]) as int,
                    ));
                    assert(has_element_kid(self.spec_arena(), n as int));
                }
                return true;
            }
            i += 1;
        }
        false
    }

    /// The uniform pre-mutation validation for insertions: `parent` is the
    /// effective parent, `None` when a sibling of the document root was
    /// asked for.
    fn add_structure_check(&self, parent: Option<XmlNode>, child: XmlNode) -> (r: Result<
        (),
        Error,
    >)
        requires
            self.wf(),
            self.live_node(child),
            parent is Some ==> self.live_node(parent->Some_0),
        ensures
            match r {
                Ok(_) => parent is Some && !spec_insert_blocked(
                    self.spec_arena(),
                    parent->Some_0.spec_index(),
                    child.spec_index(),
                ),
                Err(e) => (parent is None || spec_insert_blocked(
                    self.spec_arena(),
                    parent->Some_0.spec_index(),
                    child.spec_index(),
                )) && e is InvalidOperation,
            },
    {
        let parent = match parent {
            Some(p) => p,
            None => {
                return Err(
                    Error::InvalidOperation(
                        String::from_str("Cannot create siblings for document root"),
                    ),
                );
            },
        };
        match self.value_type(child) {
            ValueType::Root => Err(
                Error::InvalidOperation(String::from_str("Cannot move document root")),
            ),
            ValueType::Element => {
                if self.is_under_root(child) {
                    Err(Error::InvalidOperation(String::from_str("Cannot move root element")))
                } else if self.is_root(parent) && self.has_element_child(parent) {
                    Err(
                        Error::InvalidOperation(
                            String::from_str("Cannot move extra element under document root"),
                        ),
                    )
                } else {
                    Ok(())
                }
            },
            ValueType::Text => {
                if self.is_root(parent) {
                    Err(
                        Error::InvalidOperation(
                            String::from_str("Cannot move text under document root"),
                        ),
                    )
                } else {
                    Ok(())
                }
            },
            ValueType::ProcessingInstruction | ValueType::Comment => Ok(()),
        }
    }

    /// The pre-mutation validation for `detach` and `remove`.
    fn remove_structure_check(&self, node: XmlNode) -> (r: Result<(), Error>)
        requires
            self.wf(),
            self.live_node(node),
        ensures
            match r {
                Ok(_) => !spec_remove_blocked(self.spec_arena(), node.spec_index()),
                Err(e) => spec_remove_blocked(self.spec_arena(), node.spec_index()) && e
                    is InvalidOperation,
            },
    {
        match self.value_type(node) {
            ValueType::Root => Err(
                Error::InvalidOperation(String::from_str("Cannot remove document root")),
            ),
            ValueType::Element => {
                if self.is_under_root(node) {
                    Err(Error::InvalidOperation(String::from_str("Cannot remove root element")))
                } else {
                    Ok(())
                }
            },
            ValueType::Text | ValueType::ProcessingInstruction | ValueType::Comment => Ok(()),
        }
    }

    /// Read a text node's content as an owned string.
    fn text_content(&self, node: XmlNode) -> (r: String)
        requires
            self.wf(),
            self.live_node(node),
            spec_is_text(self.spec_arena(), node.spec_index()),
        ensures
            r@ == spec_text_of(self.value_at(node)),
    {
        match self.xml_value(node) {
            XmlValue::Text(t) => String::from_str(t.get()),
            _ => {
                proof {
                    assert(false);
                }
                String::new()
            },
        }
    }

    /// The position of an attached node among its parent's children is
    /// the first (and only) index holding it.
    proof fn lemma_pos_is_index_of_first(self, q: int, n: usize, pos: int)
        requires
            self.wf(),
            self.spec_arena().live(q),
            0 <= pos < self.spec_arena().spec_kids(q).len(),
            self.spec_arena().spec_kids(q)[pos] == n,
        ensures
            self.spec_arena().spec_kids(q).index_of_first(n) == Some(pos),
    {
        let ks = self.spec_arena().spec_kids(q);
        ks.index_of_first_ensures(n);
        assert(ks.contains(n));
        let idx0 = ks.index_of_first(n)->Some_0;
        assert(ks[idx0] == n);
        assert(idx0 == pos);
    }

    /// The sibling immediately after the node, if any.
    pub fn next_sibling(&self, node: XmlNode) -> (r: Option<XmlNode>)
        requires
            self.wf(),
            self.live_node(node),
        ensures
            match self.spec_arena().spec_parent(node.spec_index()) {
                Some(q) => {
                    &&& r is Some <==> spec_next_sibling_of(
                        self.spec_arena(),
                        q as int,
                        node.spec_index() as usize,
                    ) is Some
                    &&& (r matches Some(s) ==> Some(s.spec_index() as usize)
                        == spec_next_sibling_of(
                        self.spec_arena(),
                        q as int,
                        node.spec_index() as usize,
                    ) && self.live_node(s))
                },
                None => r is None,
            },
    {
        let n = node.get();
        match self.arena.parent(n) {
            Some(q) => {
                let pos = self.arena.position_of(q, n);
                proof {
                    self.lemma_pos_is_index_of_first(q as int, n, pos as int);
                }
                let count = self.arena.child_count(q);
                if pos + 1 < count {
                    let s = self.arena.child_at(q, pos + 1);
                    proof {
                        assert(self.spec_arena().spec_kids(q as int)[pos + 1] == s);
                    }
                    Some(XmlNode::new(s))
                } else {
                    None
                }
            },
            None => None,
        }
    }

    /// The sibling immediately before the node, if any.
    pub fn previous_sibling(&self, node: XmlNode) -> (r: Option<XmlNode>)
        requires
            self.wf(),
            self.live_node(node),
        ensures
            match self.spec_arena().spec_parent(node.spec_index()) {
                Some(q) => {
                    &&& r is Some <==> spec_prev_sibling_of(
                        self.spec_arena(),
                        q as int,
                        node.spec_index() as usize,
                    ) is Some
                    &&& (r matches Some(s) ==> Some(s.spec_index() as usize)
                        == spec_prev_sibling_of(
                        self.spec_arena(),
                        q as int,
                        node.spec_index() as usize,
                    ) && self.live_node(s))
                },
                None => r is None,
            },
    {
        let n = node.get();
        match self.arena.parent(n) {
            Some(q) => {
                let pos = self.arena.position_of(q, n);
                proof {
                    self.lemma_pos_is_index_of_first(q as int, n, pos as int);
                }
                if pos > 0 {
                    let s = self.arena.child_at(q, pos - 1);
                    proof {
                        assert(self.spec_arena().spec_kids(q as int)[pos - 1] == s);
                    }
                    Some(XmlNode::new(s))
                } else {
                    None
                }
            },
            None => None,
        }
    }

    /// Take the node out of its parent's children, if it has a parent.
    fn unlink_node(&mut self, c: XmlNode)
        requires
            old(self).wf(),
            old(self).live_node(c),
        ensures
            final(self).wf(),
            XmlData::same_tables(*old(self), *final(self)),
            spec_unlinked(old(self).spec_arena(), final(self).spec_arena(), c.spec_index()),
    {
        let cn = c.get();
        let ghost a0 = self.spec_arena();
        if self.arena.parent(cn).is_some() {
            self.arena.unlink(cn);
        }
        let ghost amid = self.spec_arena();
        proof {
            assert(spec_unlinked(a0, amid, cn as int)) by {
                match a0.spec_parent(cn as int) {
                    Some(q) => {
                        let ks = a0.spec_kids(q as int);
                        let j = choose|j: int|
                            0 <= j < ks.len() && ks[j] == cn && amid.spec_kids(q as int)
                                == ks.remove(j);
                        lemma_remove_is_remove_value(ks, j, cn);
                        assert forall|i: int|
                            0 <= i < a0.spec_len() implies (#[trigger] amid.spec_kids(i))
                            == a0.spec_kids(i).remove_value(cn) by {
                            if i != q as int {
                                assert(!a0.spec_kids(i).contains(cn)) by {
                                    if a0.live(i) {
                                        a0.lemma_kid_of_parent_only(cn, q);
                                    } else {
                                        assert(a0.spec_removed(i));
                                        assert(a0.spec_kids(i).len() == 0);
                                    }
                                }
                                lemma_remove_value_absent(a0.spec_kids(i), cn);
                                if i != cn as int {
                                    assert(slot_eq(a0, amid, i));
                                }
                            }
                        }
                        assert forall|i: int|
                            0 <= i < a0.spec_len() && i != cn as int implies (
                        #[trigger] amid.spec_parent(i)) == a0.spec_parent(i) by {
                            if i != q as int {
                                assert(slot_eq(a0, amid, i));
                            }
                        }
                        assert forall|i: int|
                            0 <= i < a0.spec_len() implies (#[trigger] amid.spec_value(i))
                            == a0.spec_value(i) && amid.spec_removed(i) == a0.spec_removed(i) by {
                            if i != q as int && i != cn as int {
                                assert(slot_eq(a0, amid, i));
                            }
                        }
                    },
                    None => {
                        a0.lemma_orphan_in_no_kids(cn);
                        assert forall|i: int|
                            0 <= i < a0.spec_len() implies (#[trigger] amid.spec_kids(i))
                            == a0.spec_kids(i).remove_value(cn) by {
                            assert(!a0.spec_kids(i).contains(cn)) by {
                                if !a0.live(i) {
                                    assert(a0.spec_removed(i));
                                    assert(a0.spec_kids(i).len() == 0);
                                }
                            }
                            lemma_remove_value_absent(a0.spec_kids(i), cn);
                        }
                    },
                }
            }
        }
    }

    /// Append `child` as the last child of `parent`.
    ///
    /// Validation comes first and a failure leaves the tree untouched:
    /// the operation is refused exactly when the uniform insertion rule
    /// blocks it or when `child` is `parent` or an ancestor of `parent`.
    /// An accepted text child whose new left neighbour is also text is
    /// absorbed into that neighbour and its own handle is discarded;
    /// otherwise the child is moved to the end of `parent`'s children.
    pub fn append(&mut self, parent: XmlNode, child: XmlNode) -> (r: Result<(), Error>)
        requires
            old(self).wf(),
            old(self).live_node(parent),
            old(self).live_node(child),
        ensures
            final(self).wf(),
            XmlData::same_tables(*old(self), *final(self)),
            final(self).spec_arena().spec_len() == old(self).spec_arena().spec_len(),
            ({
                let a0 = old(self).spec_arena();
                let a1 = final(self).spec_arena();
                let p = parent.spec_index();
                let c = child.spec_index();
                &&& (r is Err <==> spec_insert_blocked(a0, p, c) || spec_chain_has(
                    a0,
                    p,
                    c,
                    a0.spec_len(),
                ))
                &&& (r matches Err(e) ==> e is InvalidOperation && (forall|i: int|
                    0 <= i < a0.spec_len() ==> slot_eq(a0, a1, i)))
                &&& (r is Ok && spec_append_merges(a0, p, c) ==> spec_text_merged(
                    a0,
                    a1,
                    a0.spec_kids(p).last() as int,
                    c,
                    false,
                ))
                &&& (r is Ok && !spec_append_merges(a0, p, c) ==> spec_moved_to(
                    a0,
                    a1,
                    p,
                    c,
                    a0.spec_kids(p).remove_value(c as usize).len() as int,
                ))
                &&& (r is Ok && shape_ok(a0) && (a0.spec_parent(c) is None || spec_is_text(a0, c))
                    ==> shape_ok(a1))
                &&& (root_shape_all(a0) ==> root_shape_all(a1))
            }),
    {
        let p = parent.get();
        let c = child.get();
        let ghost a0 = self.spec_arena();
        match self.add_structure_check(Some(parent), child) {
            Err(e) => {
                return Err(e);
            },
            Ok(_) => {},
        }
        if self.arena.chain_has(p, c) {
            return Err(
                Error::InvalidOperation(
                    String::from_str("Cannot move a node inside its own subtree"),
                ),
            );
        }
        if self.is_text(child) {
            match self.last_child(parent) {
                Some(last) => {
                    if self.is_text(last) {
                        proof {
                            assert(last.spec_index() == a0.spec_kids(p as int).last());
                            assert(spec_append_merges(a0, p as int, c as int));
                        }
                        self.merge_text_into(last, child, false);
                        proof {
                            if shape_ok(a0) {
                                lemma_shape_merged(
                                    a0,
                                    self.spec_arena(),
                                    a0.spec_kids(p as int).last() as int,
                                    c as int,
                                    false,
                                );
                            }
                        }
                        return Ok(());
                    }
                },
                None => {},
            }
        }
        proof {
            assert(!spec_append_merges(a0, p as int, c as int));
        }
        self.unlink_node(child);
        let ghost amid = self.spec_arena();
        let idx = self.arena.child_count(p);
        proof {
            assert(p != c) by {
                assert(spec_chain_has(a0, p as int, c as int, a0.spec_len()) == false);
            }
            assert(amid.spec_kids(p as int) == a0.spec_kids(p as int).remove_value(c));
            assert(amid.spec_value(c as int) == a0.spec_value(c as int));
            assert(amid.spec_removed(c as int) == a0.spec_removed(c as int));
            assert(amid.live(c as int));
            assert(amid.spec_value(p as int) == a0.spec_value(p as int));
            assert(amid.spec_removed(p as int) == a0.spec_removed(p as int));
            assert(amid.live(p as int));
        }
        self.arena.attach_at(p, idx, c);
        proof {
            let a1 = self.spec_arena();
            let ks1 = a0.spec_kids(p as int).remove_value(c);
            assert(a1.spec_kids(p as int) == ks1.insert(idx as int, c));
            assert forall|i: int|
                0 <= i < a0.spec_len() && i != p as int implies a1.spec_kids(i) == (
            #[trigger] a0.spec_kids(i)).remove_value(c) by {
                assert(amid.spec_kids(i) == a0.spec_kids(i).remove_value(c));
                if i != c as int {
                    assert(slot_eq(amid, a1, i));
                }
            }
            assert forall|i: int|
                0 <= i < a0.spec_len() && i != c as int implies a1.spec_parent(i)
                == a0.spec_parent(i) by {
                assert(amid.spec_parent(i) == a0.spec_parent(i));
                if i != p as int {
                    assert(slot_eq(amid, a1, i));
                }
            }
            assert forall|i: int|
                0 <= i < a0.spec_len() implies a1.spec_value(i) == (#[trigger] a0.spec_value(i))
                && a1.spec_removed(i) == a0.spec_removed(i) by {
                assert(amid.spec_value(i) == a0.spec_value(i));
                assert(amid.spec_removed(i) == a0.spec_removed(i));
                if i != p as int && i != c as int {
                    assert(slot_eq(amid, a1, i));
                }
            }
            assert(spec_moved_to(a0, a1, p as int, c as int, idx as int));
            assert(idx as int == ks1.len());
            assert forall|n: int|
                a1.live(n) implies (#[trigger] a1.spec_value(n)).wf() && (a1.spec_value(
                n,
            ) matches XmlValue::Element(e) ==> e.spec_name().spec_index()
                < self.spec_name_lookup().spec_len()) by {
                assert(a1.spec_value(n) == a0.spec_value(n));
                assert(a0.live(n));
            }
            if shape_ok(a0) && (a0.spec_parent(c as int) is None || spec_is_text(a0, c as int)) {
                let ks = a0.spec_kids(p as int);
                if spec_is_text(a0, c as int) && idx > 0 {
                    assert(!spec_is_text(a0, ks1[idx - 1] as int)) by {
                        ks.index_of_first_ensures(c);
                        match ks.index_of_first(c) {
                            Some(pos) => {
                                ks.remove_ensures(pos);
                                assert(ks[pos] == c);
                                if pos == ks.len() - 1 {
                                    assert(ks.last() == c);
                                    assert(spec_append_merges(a0, p as int, c as int));
                                } else {
                                    assert(ks1[idx - 1] == ks[ks.len() - 1]);
                                    assert(!spec_is_text(a0, ks.last() as int));
                                }
                            },
                            None => {
                                assert(ks1 == ks);
                                assert(!spec_is_text(a0, ks.last() as int));
                            },
                        }
                    }
                }
                lemma_shape_moved(a0, a1, p as int, c as int, idx as int);
            }
            if root_shape_all(a0) {
                lemma_root_moved(a0, a1, p as int, c as int, idx as int);
            }
        }
        Ok(())
    }

    /// Prepend `child` as the first child of `parent`.
    ///
    /// The same validation as `append`; an accepted text child whose new
    /// right neighbour is also text is absorbed into that neighbour, with
    /// the child's text coming first.
    pub fn prepend(&mut self, parent: XmlNode, child: XmlNode) -> (r: Result<(), Error>)
        requires
            old(self).wf(),
            old(self).live_node(parent),
            old(self).live_node(child),
        ensures
            final(self).wf(),
            XmlData::same_tables(*old(self), *final(self)),
            final(self).spec_arena().spec_len() == old(self).spec_arena().spec_len(),
            ({
                let a0 = old(self).spec_arena();
                let a1 = final(self).spec_arena();
                let p = parent.spec_index();
                let c = child.spec_index();
                &&& (r is Err <==> spec_insert_blocked(a0, p, c) || spec_chain_has(
                    a0,
                    p,
                    c,
                    a0.spec_len(),
                ))
                &&& (r matches Err(e) ==> e is InvalidOperation && (forall|i: int|
                    0 <= i < a0.spec_len() ==> slot_eq(a0, a1, i)))
                &&& (r is Ok && spec_prepend_merges(a0, p, c) ==> spec_text_merged(
                    a0,
                    a1,
                    a0.spec_kids(p)[0] as int,
                    c,
                    true,
                ))
                &&& (r is Ok && !spec_prepend_merges(a0, p, c) ==> spec_moved_to(a0, a1, p, c, 0))
                &&& (r is Ok && shape_ok(a0) && (a0.spec_parent(c) is None || spec_is_text(a0, c))
                    ==> shape_ok(a1))
                &&& (root_shape_all(a0) ==> root_shape_all(a1))
            }),
    {
        let p = parent.get();
        let c = child.get();
        let ghost a0 = self.spec_arena();
        match self.add_structure_check(Some(parent), child) {
            Err(e) => {
                return Err(e);
            },
            Ok(_) => {},
        }
        if self.arena.chain_has(p, c) {
            return Err(
                Error::InvalidOperation(
                    String::from_str("Cannot move a node inside its own subtree"),
                ),
            );
        }
        if self.is_text(child) {
            match self.first_child(parent) {
                Some(first) => {
                    if self.is_text(first) {
                        proof {
                            assert(first.spec_index() == a0.spec_kids(p as int)[0]);
                            assert(spec_prepend_merges(a0, p as int, c as int));
                        }
                        self.merge_text_into(first, child, true);
                        proof {
                            if shape_ok(a0) {
                                lemma_shape_merged(
                                    a0,
                                    self.spec_arena(),
                                    a0.spec_kids(p as int)[0] as int,
                                    c as int,
                                    true,
                                );
                            }
                        }
                        return Ok(());
                    }
                },
                None => {},
            }
        }
        proof {
            assert(!spec_prepend_merges(a0, p as int, c as int));
        }
        self.unlink_node(child);
        let ghost amid = self.spec_arena();
        proof {
            assert(p != c) by {
                assert(spec_chain_has(a0, p as int, c as int, a0.spec_len()) == false);
            }
            assert(amid.spec_kids(p as int) == a0.spec_kids(p as int).remove_value(c));
            assert(amid.spec_value(c as int) == a0.spec_value(c as int));
            assert(amid.spec_removed(c as int) == a0.spec_removed(c as int));
            assert(amid.live(c as int));
            assert(amid.spec_value(p as int) == a0.spec_value(p as int));
            assert(amid.spec_removed(p as int) == a0.spec_removed(p as int));
            assert(amid.live(p as int));
        }
        self.arena.attach_at(p, 0, c);
        proof {
            let a1 = self.spec_arena();
            let ks1 = a0.spec_kids(p as int).remove_value(c);
            assert(a1.spec_kids(p as int) == ks1.insert(0, c));
            assert forall|i: int|
                0 <= i < a0.spec_len() && i != p as int implies a1.spec_kids(i) == (
            #[trigger] a0.spec_kids(i)).remove_value(c) by {
                assert(amid.spec_kids(i) == a0.spec_kids(i).remove_value(c));
                if i != c as int {
                    assert(slot_eq(amid, a1, i));
                }
            }
            assert forall|i: int|
                0 <= i < a0.spec_len() && i != c as int implies a1.spec_parent(i)
                == a0.spec_parent(i) by {
                assert(amid.spec_parent(i) == a0.spec_parent(i));
                if i != p as int {
                    assert(slot_eq(amid, a1, i));
                }
            }
            assert forall|i: int|
                0 <= i < a0.spec_len() implies a1.spec_value(i) == (#[trigger] a0.spec_value(i))
                && a1.spec_removed(i) == a0.spec_removed(i) by {
                assert(amid.spec_value(i) == a0.spec_value(i));
                assert(amid.spec_removed(i) == a0.spec_removed(i));
                if i != p as int && i != c as int {
                    assert(slot_eq(amid, a1, i));
                }
            }
            assert(spec_moved_to(a0, a1, p as int, c as int, 0));
            assert forall|n: int|
                a1.live(n) implies (#[trigger] a1.spec_value(n)).wf() && (a1.spec_value(
                n,
            ) matches XmlValue::Element(e) ==> e.spec_name().spec_index()
                < self.spec_name_lookup().spec_len()) by {
                assert(a1.spec_value(n) == a0.spec_value(n));
                assert(a0.live(n));
            }
            if shape_ok(a0) && (a0.spec_parent(c as int) is None || spec_is_text(a0, c as int)) {
                let ks = a0.spec_kids(p as int);
                if spec_is_text(a0, c as int) && ks1.len() > 0 {
                    assert(!spec_is_text(a0, ks1[0] as int)) by {
                        ks.index_of_first_ensures(c);
                        match ks.index_of_first(c) {
                            Some(pos) => {
                                ks.remove_ensures(pos);
                                assert(ks[pos] == c);
                                if pos == 0 {
                                    assert(spec_prepend_merges(a0, p as int, c as int));
                                } else {
                                    assert(ks1[0] == ks[0]);
                                    assert(!spec_is_text(a0, ks[0] as int));
                                }
                            },
                            None => {
                                assert(ks1 == ks);
                                assert(!spec_is_text(a0, ks[0] as int));
                            },
                        }
                    }
                }
                lemma_shape_moved(a0, a1, p as int, c as int, 0);
            }
            if root_shape_all(a0) {
                lemma_root_moved(a0, a1, p as int, c as int, 0);
            }
        }
        Ok(())
    }

    /// Insert `new_sibling` immediately after `reference_node`.
    ///
    /// The effective parent is the reference's parent; asking for a
    /// sibling of the document root, or of the node itself, is refused.
    /// An accepted text sibling merges into the reference when that is
    /// text, else into the reference's next sibling when that is text.
    pub fn insert_after(&mut self, reference_node: XmlNode, new_sibling: XmlNode) -> (r: Result<
        (),
        Error,
    >)
        requires
            old(self).wf(),
            old(self).live_node(reference_node),
            old(self).live_node(new_sibling),
        ensures
            final(self).wf(),
            XmlData::same_tables(*old(self), *final(self)),
            final(self).spec_arena().spec_len() == old(self).spec_arena().spec_len(),
            ({
                let a0 = old(self).spec_arena();
                let a1 = final(self).spec_arena();
                let rf = reference_node.spec_index();
                let c = new_sibling.spec_index();
                let q = a0.spec_parent(rf)->Some_0 as int;
                let m1 = spec_is_text(a0, c) && spec_is_text(a0, rf);
                let m2 = !m1 && spec_is_text(a0, c) && (match spec_next_sibling_of(
                    a0,
                    q,
                    rf as usize,
                ) {
                    Some(nx) => spec_is_text(a0, nx as int),
                    None => false,
                });
                &&& (r is Err <==> a0.spec_parent(rf) is None || spec_insert_blocked(a0, q, c)
                    || c == rf || spec_chain_has(a0, q, c, a0.spec_len()))
                &&& (r matches Err(e) ==> e is InvalidOperation && (forall|i: int|
                    0 <= i < a0.spec_len() ==> slot_eq(a0, a1, i)))
                &&& (r is Ok && m1 ==> spec_text_merged(a0, a1, rf, c, false))
                &&& (r is Ok && m2 ==> spec_text_merged(
                    a0,
                    a1,
                    spec_next_sibling_of(a0, q, rf as usize)->Some_0 as int,
                    c,
                    true,
                ))
                &&& (r is Ok && !m1 && !m2 ==> exists|j: int|
                    #![trigger spec_moved_to(a0, a1, q, c, j + 1)]
                    {
                        let ks1 = a0.spec_kids(q).remove_value(c as usize);
                        0 <= j < ks1.len() && ks1[j] == rf as usize && spec_moved_to(
                            a0,
                            a1,
                            q,
                            c,
                            j + 1,
                        )
                    })
                &&& (r is Ok && shape_ok(a0) && (a0.spec_parent(c) is None || spec_is_text(a0, c))
                    ==> shape_ok(a1))
                &&& (root_shape_all(a0) ==> root_shape_all(a1))
            }),
    {
        let c = new_sibling.get();
        let ghost a0 = self.spec_arena();
        let par = self.parent(reference_node);
        match self.add_structure_check(par, new_sibling) {
            Err(e) => {
                return Err(e);
            },
            Ok(_) => {},
        }
        let q = match par {
            Some(qq) => qq,
            None => {
                proof {
                    assert(false);
                }
                reference_node
            },
        };
        if reference_node == new_sibling {
            return Err(
                Error::InvalidOperation(
                    String::from_str("Cannot insert a node next to itself"),
                ),
            );
        }
        if self.arena.chain_has(q.get(), c) {
            return Err(
                Error::InvalidOperation(
                    String::from_str("Cannot move a node inside its own subtree"),
                ),
            );
        }
        if self.is_text(new_sibling) {
            if self.is_text(reference_node) {
                self.merge_text_into(reference_node, new_sibling, false);
                proof {
                    if shape_ok(a0) {
                        lemma_shape_merged(
                            a0,
                            self.spec_arena(),
                            reference_node.spec_index(),
                            c as int,
                            false,
                        );
                    }
                }
                return Ok(());
            }
            match self.next_sibling(reference_node) {
                Some(nx) => {
                    if self.is_text(nx) {
                        proof {
                            assert(Some(nx.spec_index() as usize) == spec_next_sibling_of(
                                a0,
                                q.spec_index(),
                                reference_node.spec_index() as usize,
                            ));
                        }
                        self.merge_text_into(nx, new_sibling, true);
                        proof {
                            if shape_ok(a0) {
                                lemma_shape_merged(
                                    a0,
                                    self.spec_arena(),
                                    nx.spec_index(),
                                    c as int,
                                    true,
                                );
                            }
                        }
                        return Ok(());
                    }
                },
                None => {},
            }
        }
        let rf = reference_node.get();
        let qn = q.get();
        self.unlink_node(new_sibling);
        let ghost amid = self.spec_arena();
        let ghost ks = a0.spec_kids(qn as int);
        let ghost ks1 = ks.remove_value(c);
        proof {
            assert(qn as int != c as int) by {
                assert(spec_chain_has(a0, qn as int, c as int, a0.spec_len()) == false);
            }
            assert(amid.spec_kids(qn as int) == ks1);
            assert(amid.spec_value(c as int) == a0.spec_value(c as int));
            assert(amid.spec_removed(c as int) == a0.spec_removed(c as int));
            assert(amid.live(c as int));
            assert(amid.spec_value(qn as int) == a0.spec_value(qn as int));
            assert(amid.spec_removed(qn as int) == a0.spec_removed(qn as int));
            assert(amid.live(qn as int));
            assert(ks.contains(rf));
            ks.index_of_first_ensures(c);
            assert(ks1.contains(rf)) by {
                match ks.index_of_first(c) {
                    Some(cpos) => {
                        assert(ks[cpos] == c);
                        lemma_remove_no_dup(ks, cpos);
                    },
                    None => {
                        assert(ks1 == ks);
                    },
                }
            }
        }
        let j = self.arena.position_of(qn, rf);
        let count = self.arena.child_count(qn);
        proof {
            assert(j < count);
        }
        self.arena.attach_at(qn, j + 1, c);
        proof {
            let a1 = self.spec_arena();
            assert(a1.spec_kids(qn as int) == ks1.insert(j + 1, c));
            assert forall|i: int|
                0 <= i < a0.spec_len() && i != qn as int implies a1.spec_kids(i) == (
            #[trigger] a0.spec_kids(i)).remove_value(c) by {
                assert(amid.spec_kids(i) == a0.spec_kids(i).remove_value(c));
                if i != c as int {
                    assert(slot_eq(amid, a1, i));
                }
            }
            assert forall|i: int|
                0 <= i < a0.spec_len() && i != c as int implies a1.spec_parent(i)
                == a0.spec_parent(i) by {
                assert(amid.spec_parent(i) == a0.spec_parent(i));
                if i != qn as int {
                    assert(slot_eq(amid, a1, i));
                }
            }
            assert forall|i: int|
                0 <= i < a0.spec_len() implies a1.spec_value(i) == (#[trigger] a0.spec_value(i))
                && a1.spec_removed(i) == a0.spec_removed(i) by {
                assert(amid.spec_value(i) == a0.spec_value(i));
                assert(amid.spec_removed(i) == a0.spec_removed(i));
                if i != qn as int && i != c as int {
                    assert(slot_eq(amid, a1, i));
                }
            }
            assert(spec_moved_to(a0, a1, qn as int, c as int, j + 1));
            assert((j as int) < ks1.len() && ks1[j as int] == rf);
            assert forall|n: int|
                a1.live(n) implies (#[trigger] a1.spec_value(n)).wf() && (a1.spec_value(
                n,
            ) matches XmlValue::Element(e) ==> e.spec_name().spec_index()
                < self.spec_name_lookup().spec_len()) by {
                assert(a1.spec_value(n) == a0.spec_value(n));
                assert(a0.live(n));
            }
            if shape_ok(a0) && (a0.spec_parent(c as int) is None || spec_is_text(a0, c as int)) {
                if spec_is_text(a0, c as int) {
                    assert(!spec_is_text(a0, ks1[j as int] as int));
                    if j + 1 < ks1.len() {
                        assert(!spec_is_text(a0, ks1[j + 1] as int)) by {
                            ks.index_of_first_ensures(rf);
                            let rpos = ks.index_of_first(rf)->Some_0;
                            assert(ks[rpos] == rf);
                            match ks.index_of_first(c) {
                                Some(cpos) => {
                                    ks.remove_ensures(cpos);
                                    assert(ks[cpos] == c);
                                    assert(cpos != rpos);
                                    if rpos < cpos {
                                        assert(ks1[rpos] == ks[rpos]);
                                        assert(j as int == rpos);
                                        if rpos + 1 == cpos {
                                            assert(spec_next_sibling_of(a0, qn as int, rf)
                                                == Some(c));
                                            assert(false);
                                        } else {
                                            assert(ks1[rpos + 1] == ks[rpos + 1]);
                                            assert(spec_next_sibling_of(a0, qn as int, rf)
                                                == Some(ks[rpos + 1]));
                                        }
                                    } else {
                                        assert(ks1[rpos - 1] == ks[rpos]);
                                        assert(j as int == rpos - 1);
                                        assert(ks1[rpos] == ks[rpos + 1]);
                                        assert(spec_next_sibling_of(a0, qn as int, rf) == Some(
                                            ks[rpos + 1],
                                        ));
                                    }
                                },
                                None => {
                                    assert(ks1 == ks);
                                    assert(j as int == rpos);
                                    assert(spec_next_sibling_of(a0, qn as int, rf) == Some(
                                        ks[rpos + 1],
                                    ));
                                },
                            }
                        }
                    }
                }
                lemma_shape_moved(a0, a1, qn as int, c as int, j + 1);
            }
            if root_shape_all(a0) {
                lemma_root_moved(a0, a1, qn as int, c as int, j + 1);
            }
        }
        Ok(())
    }

    /// Insert `new_sibling` immediately before `reference_node`.
    ///
    /// The effective parent is the reference's parent; asking for a
    /// sibling of the document root, or of the node itself, is refused.
    /// An accepted text sibling merges into the reference's previous
    /// sibling when that is text, else into the reference when that is
    /// text.
    pub fn insert_before(&mut self, reference_node: XmlNode, new_sibling: XmlNode) -> (r: Result<
        (),
        Error,
    >)
        requires
            old(self).wf(),
            old(self).live_node(reference_node),
            old(self).live_node(new_sibling),
        ensures
            final(self).wf(),
            XmlData::same_tables(*old(self), *final(self)),
            final(self).spec_arena().spec_len() == old(self).spec_arena().spec_len(),
            ({
                let a0 = old(self).spec_arena();
                let a1 = final(self).spec_arena();
                let rf = reference_node.spec_index();
                let c = new_sibling.spec_index();
                let q = a0.spec_parent(rf)->Some_0 as int;
                let m1 = spec_is_text(a0, c) && (match spec_prev_sibling_of(a0, q, rf as usize) {
                    Some(pv) => spec_is_text(a0, pv as int),
                    None => false,
                });
                let m2 = !m1 && spec_is_text(a0, c) && spec_is_text(a0, rf);
                &&& (r is Err <==> a0.spec_parent(rf) is None || spec_insert_blocked(a0, q, c)
                    || c == rf || spec_chain_has(a0, q, c, a0.spec_len()))
                &&& (r matches Err(e) ==> e is InvalidOperation && (forall|i: int|
                    0 <= i < a0.spec_len() ==> slot_eq(a0, a1, i)))
                &&& (r is Ok && m1 ==> spec_text_merged(
                    a0,
                    a1,
                    spec_prev_sibling_of(a0, q, rf as usize)->Some_0 as int,
                    c,
                    false,
                ))
                &&& (r is Ok && m2 ==> spec_text_merged(a0, a1, rf, c, true))
                &&& (r is Ok && !m1 && !m2 ==> exists|j: int|
                    #![trigger spec_moved_to(a0, a1, q, c, j)]
                    {
                        let ks1 = a0.spec_kids(q).remove_value(c as usize);
                        0 <= j < ks1.len() && ks1[j] == rf as usize && spec_moved_to(
                            a0,
                            a1,
                            q,
                            c,
                            j,
                        )
                    })
                &&& (r is Ok && shape_ok(a0) && (a0.spec_parent(c) is None || spec_is_text(a0, c))
                    ==> shape_ok(a1))
                &&& (root_shape_all(a0) ==> root_shape_all(a1))
            }),
    {
        let c = new_sibling.get();
        let ghost a0 = self.spec_arena();
        let par = self.parent(reference_node);
        match self.add_structure_check(par, new_sibling) {
            Err(e) => {
                return Err(e);
            },
            Ok(_) => {},
        }
        let q = match par {
            Some(qq) => qq,
            None => {
                proof {
                    assert(false);
                }
                reference_node
            },
        };
        if reference_node == new_sibling {
            return Err(
                Error::InvalidOperation(
                    String::from_str("Cannot insert a node next to itself"),
                ),
            );
        }
        if self.arena.chain_has(q.get(), c) {
            return Err(
                Error::InvalidOperation(
                    String::from_str("Cannot move a node inside its own subtree"),
                ),
            );
        }
        if self.is_text(new_sibling) {
            match self.previous_sibling(reference_node) {
                Some(pv) => {
                    if self.is_text(pv) {
                        proof {
                            assert(Some(pv.spec_index() as usize) == spec_prev_sibling_of(
                                a0,
                                q.spec_index(),
                                reference_node.spec_index() as usize,
                            ));
                        }
                        self.merge_text_into(pv, new_sibling, false);
                        proof {
                            if shape_ok(a0) {
                                lemma_shape_merged(
                                    a0,
                                    self.spec_arena(),
                                    pv.spec_index(),
                                    c as int,
                                    false,
                                );
                            }
                        }
                        return Ok(());
                    }
                },
                None => {},
            }
            if self.is_text(reference_node) {
                self.merge_text_into(reference_node, new_sibling, true);
                proof {
                    if shape_ok(a0) {
                        lemma_shape_merged(
                            a0,
                            self.spec_arena(),
                            reference_node.spec_index(),
                            c as int,
                            true,
                        );
                    }
                }
                return Ok(());
            }
        }
        let rf = reference_node.get();
        let qn = q.get();
        self.unlink_node(new_sibling);
        let ghost amid = self.spec_arena();
        let ghost ks = a0.spec_kids(qn as int);
        let ghost ks1 = ks.remove_value(c);
        proof {
            assert(qn as int != c as int) by {
                assert(spec_chain_has(a0, qn as int, c as int, a0.spec_len()) == false);
            }
            assert(amid.spec_kids(qn as int) == ks1);
            assert(amid.spec_value(c as int) == a0.spec_value(c as int));
            assert(amid.spec_removed(c as int) == a0.spec_removed(c as int));
            assert(amid.live(c as int));
            assert(amid.spec_value(qn as int) == a0.spec_value(qn as int));
            assert(amid.spec_removed(qn as int) == a0.spec_removed(qn as int));
            assert(amid.live(qn as int));
            assert(ks.contains(rf));
            ks.index_of_first_ensures(c);
            assert(ks1.contains(rf)) by {
                match ks.index_of_first(c) {
                    Some(cpos) => {
                        assert(ks[cpos] == c);
                        lemma_remove_no_dup(ks, cpos);
                    },
                    None => {
                        assert(ks1 == ks);
                    },
                }
            }
        }
        let j = self.arena.position_of(qn, rf);
        self.arena.attach_at(qn, j, c);
        proof {
            let a1 = self.spec_arena();
            assert(a1.spec_kids(qn as int) == ks1.insert(j as int, c));
            assert forall|i: int|
                0 <= i < a0.spec_len() && i != qn as int implies a1.spec_kids(i) == (
            #[trigger] a0.spec_kids(i)).remove_value(c) by {
                assert(amid.spec_kids(i) == a0.spec_kids(i).remove_value(c));
                if i != c as int {
                    assert(slot_eq(amid, a1, i));
                }
            }
            assert forall|i: int|
                0 <= i < a0.spec_len() && i != c as int implies a1.spec_parent(i)
                == a0.spec_parent(i) by {
                assert(amid.spec_parent(i) == a0.spec_parent(i));
                if i != qn as int {
                    assert(slot_eq(amid, a1, i));
                }
            }
            assert forall|i: int|
                0 <= i < a0.spec_len() implies a1.spec_value(i) == (#[trigger] a0.spec_value(i))
                && a1.spec_removed(i) == a0.spec_removed(i) by {
                assert(amid.spec_value(i) == a0.spec_value(i));
                assert(amid.spec_removed(i) == a0.spec_removed(i));
                if i != qn as int && i != c as int {
                    assert(slot_eq(amid, a1, i));
                }
            }
            assert(spec_moved_to(a0, a1, qn as int, c as int, j as int));
            assert((j as int) < ks1.len() && ks1[j as int] == rf);
            assert forall|n: int|
                a1.live(n) implies (#[trigger] a1.spec_value(n)).wf() && (a1.spec_value(
                n,
            ) matches XmlValue::Element(e) ==> e.spec_name().spec_index()
                < self.spec_name_lookup().spec_len()) by {
                assert(a1.spec_value(n) == a0.spec_value(n));
                assert(a0.live(n));
            }
            if shape_ok(a0) && (a0.spec_parent(c as int) is None || spec_is_text(a0, c as int)) {
                if spec_is_text(a0, c as int) {
                    assert(!spec_is_text(a0, ks1[j as int] as int));
                    if j > 0 {
                        assert(!spec_is_text(a0, ks1[j - 1] as int)) by {
                            ks.index_of_first_ensures(rf);
                            let rpos = ks.index_of_first(rf)->Some_0;
                            assert(ks[rpos] == rf);
                            match ks.index_of_first(c) {
                                Some(cpos) => {
                                    ks.remove_ensures(cpos);
                                    assert(ks[cpos] == c);
                                    assert(cpos != rpos);
                                    if rpos < cpos {
                                        assert(ks1[rpos] == ks[rpos]);
                                        assert(j as int == rpos);
                                        assert(ks1[rpos - 1] == ks[rpos - 1]);
                                        assert(spec_prev_sibling_of(a0, qn as int, rf) == Some(
                                            ks[rpos - 1],
                                        ));
                                    } else {
                                        assert(ks1[rpos - 1] == ks[rpos]);
                                        assert(j as int == rpos - 1);
                                        if cpos == rpos - 1 {
                                            assert(spec_prev_sibling_of(a0, qn as int, rf)
                                                == Some(c));
                                            assert(false);
                                        } else {
                                            assert(ks1[rpos - 2] == ks[rpos - 1]);
                                            assert(spec_prev_sibling_of(a0, qn as int, rf)
                                                == Some(ks[rpos - 1]));
                                        }
                                    }
                                },
                                None => {
                                    assert(ks1 == ks);
                                    assert(j as int == rpos);
                                    assert(spec_prev_sibling_of(a0, qn as int, rf) == Some(
                                        ks[rpos - 1],
                                    ));
                                },
                            }
                        }
                    }
                }
                lemma_shape_moved(a0, a1, qn as int, c as int, j as int);
            }
            if root_shape_all(a0) {
                lemma_root_moved(a0, a1, qn as int, c as int, j as int);
            }
        }
        Ok(())
    }

    /// Unlink the node and heal the gap it leaves: if its former
    /// neighbours were both text, the next one is absorbed into the
    /// previous one.
    fn do_detach(&mut self, node: XmlNode)
        requires
            old(self).wf(),
            old(self).live_node(node),
        ensures
            final(self).wf(),
            XmlData::same_tables(*old(self), *final(self)),
            final(self).spec_arena().spec_len() == old(self).spec_arena().spec_len(),
            spec_detached(old(self).spec_arena(), final(self).spec_arena(), node.spec_index()),
            final(self).live_node(node),
            final(self).spec_arena().spec_parent(node.spec_index()) is None,
            final(self).spec_arena().spec_kids(node.spec_index()) == old(
                self,
            ).spec_arena().spec_kids(node.spec_index()),
            final(self).value_at(node) == old(self).value_at(node),
            shape_ok(old(self).spec_arena()) ==> shape_ok(final(self).spec_arena()),
            root_shape_all(old(self).spec_arena()) ==> root_shape_all(final(self).spec_arena()),
    {
        let n = node.get();
        let ghost a0 = self.spec_arena();
        let par = self.arena.parent(n);
        match par {
            None => {
                return;
            },
            Some(q) => {
                let pos = self.arena.position_of(q, n);
                proof {
                    self.lemma_pos_is_index_of_first(q as int, n, pos as int);
                }
                let count = self.arena.child_count(q);
                let ghost ks = a0.spec_kids(q as int);
                self.unlink_node(node);
                let ghost amid = self.spec_arena();
                proof {
                    assert(n as int != q as int);
                    assert(amid.spec_value(n as int) == a0.spec_value(n as int));
                    assert(amid.spec_removed(n as int) == a0.spec_removed(n as int));
                    assert(amid.live(n as int));
                    assert(amid.spec_kids(n as int) == a0.spec_kids(n as int).remove_value(n));
                    assert(!a0.spec_kids(n as int).contains(n)) by {
                        if a0.spec_kids(n as int).contains(n) {
                            let jj = choose|jj: int|
                                0 <= jj < a0.spec_kids(n as int).len() && a0.spec_kids(
                                    n as int,
                                )[jj] == n;
                            assert(a0.spec_kids(n as int)[jj] == n);
                            assert(a0.spec_parent(n as int) == Some(n));
                        }
                    }
                    lemma_remove_value_absent(a0.spec_kids(n as int), n);
                    assert(amid.spec_kids(n as int) == a0.spec_kids(n as int));
                }
                if pos > 0 && pos + 1 < count {
                    proof {
                        lemma_remove_is_remove_value(ks, pos as int, n);
                        assert(amid.spec_kids(q as int) == ks.remove(pos as int));
                        ks.remove_ensures(pos as int);
                        assert(amid.spec_kids(q as int)[pos - 1] == ks[pos - 1]);
                        assert(amid.spec_kids(q as int)[pos as int] == ks[pos + 1]);
                        assert(amid.live(q as int)) by {
                            assert(amid.spec_value(q as int) == a0.spec_value(q as int));
                            assert(amid.spec_removed(q as int) == a0.spec_removed(q as int));
                        }
                    }
                    let pv = self.arena.child_at(q, pos - 1);
                    let nx = self.arena.child_at(q, pos);
                    proof {
                        assert(ks[pos - 1] == pv && ks[pos + 1] == nx);
                        assert(a0.live(pv as int) && a0.live(nx as int));
                        assert(amid.spec_value(pv as int) == a0.spec_value(pv as int));
                        assert(amid.spec_removed(pv as int) == a0.spec_removed(pv as int));
                        assert(amid.spec_value(nx as int) == a0.spec_value(nx as int));
                        assert(amid.spec_removed(nx as int) == a0.spec_removed(nx as int));
                        assert(pv != n && nx != n && pv != nx) by {
                            assert(ks.no_duplicates());
                            assert(ks[pos as int] == n);
                        }
                    }
                    let pvn = XmlNode::new(pv);
                    let nxn = XmlNode::new(nx);
                    if self.is_text(pvn) && self.is_text(nxn) {
                        self.merge_text_into(pvn, nxn, false);
                        proof {
                            let a1 = self.spec_arena();
                            assert(spec_is_text(a0, pv as int) && spec_is_text(a0, nx as int));
                            assert(spec_detached(a0, a1, n as int)) by {
                                assert(spec_unlinked(a0, amid, n as int) && spec_text_merged(
                                    amid,
                                    a1,
                                    ks[pos - 1] as int,
                                    ks[pos + 1] as int,
                                    false,
                                ));
                            }
                            assert(!spec_descends(amid, n as int, nx as int)) by {
                                if spec_descends(amid, n as int, nx as int) {
                                    let f = choose|f: nat|
                                        spec_chain_has(amid, n as int, nx as int, f);
                                }
                            }
                            assert(a1.live(n as int) && a1.spec_parent(n as int)
                                == amid.spec_parent(n as int) && a1.spec_kids(n as int)
                                == amid.spec_kids(n as int).remove_value(nx) && a1.spec_value(
                                n as int,
                            ) == amid.spec_value(n as int));
                            assert(!amid.spec_kids(n as int).contains(nx)) by {
                                if amid.spec_kids(n as int).contains(nx) {
                                    let jj = choose|jj: int|
                                        0 <= jj < amid.spec_kids(n as int).len() && amid.spec_kids(
                                            n as int,
                                        )[jj] == nx;
                                    assert(amid.spec_kids(n as int)[jj] == nx);
                                    assert(amid.spec_parent(nx as int) == Some(n));
                                    assert(amid.spec_parent(nx as int) == a0.spec_parent(
                                        nx as int,
                                    ));
                                    assert(a0.spec_parent(nx as int) == Some(q));
                                    assert(n != q);
                                }
                            }
                            lemma_remove_value_absent(amid.spec_kids(n as int), nx);
                            if shape_ok(a0) {
                                lemma_shape_detach_merged(
                                    a0,
                                    amid,
                                    a1,
                                    n as int,
                                    q as int,
                                    pos as int,
                                );
                            }
                            if root_shape_all(a0) {
                                lemma_root_unlinked(a0, amid, n as int);
                                assert(amid.live(nx as int) && spec_is_text(amid, nx as int));
                                assert(spec_is_text(amid, pv as int));
                                lemma_root_merged(amid, a1, pv as int, nx as int, false);
                            }
                        }
                        return;
                    }
                }
                proof {
                    assert(spec_detached(a0, amid, n as int));
                    if shape_ok(a0) {
                        lemma_shape_unlinked(a0, amid, n as int);
                    }
                    if root_shape_all(a0) {
                        lemma_root_unlinked(a0, amid, n as int);
                    }
                }
            },
        }
    }

    /// Unlink the node, and implicitly its whole subtree, from its parent
    /// and siblings. The subtree keeps its internal structure and all its
    /// handles stay valid; the node is merely parentless afterwards. The
    /// former neighbours are consolidated if both are text.
    pub fn detach(&mut self, node: XmlNode) -> (r: Result<(), Error>)
        requires
            old(self).wf(),
            old(self).live_node(node),
        ensures
            final(self).wf(),
            XmlData::same_tables(*old(self), *final(self)),
            final(self).spec_arena().spec_len() == old(self).spec_arena().spec_len(),
            ({
                let a0 = old(self).spec_arena();
                let a1 = final(self).spec_arena();
                let n = node.spec_index();
                &&& (r is Err <==> spec_remove_blocked(a0, n))
                &&& (r matches Err(e) ==> e is InvalidOperation && (forall|i: int|
                    0 <= i < a0.spec_len() ==> slot_eq(a0, a1, i)))
                &&& (r is Ok ==> spec_detached(a0, a1, n) && a1.live(n) && a1.spec_parent(n)
                    is None && a1.spec_kids(n) == a0.spec_kids(n) && a1.spec_value(n)
                    == a0.spec_value(n))
                &&& (r is Ok && shape_ok(a0) ==> shape_ok(a1))
                &&& (root_shape_all(a0) ==> root_shape_all(a1))
            }),
    {
        match self.remove_structure_check(node) {
            Err(e) => {
                return Err(e);
            },
            Ok(_) => {},
        }
        self.do_detach(node);
        Ok(())
    }

    /// Remove the node: detach it, then invalidate its handle and the
    /// handle of every descendant for good. The former neighbours are
    /// consolidated if both are text.
    pub fn remove(&mut self, node: XmlNode) -> (r: Result<(), Error>)
        requires
            old(self).wf(),
            old(self).live_node(node),
        ensures
            final(self).wf(),
            XmlData::same_tables(*old(self), *final(self)),
            final(self).spec_arena().spec_len() == old(self).spec_arena().spec_len(),
            ({
                let a0 = old(self).spec_arena();
                let a1 = final(self).spec_arena();
                let n = node.spec_index();
                &&& (r is Err <==> spec_remove_blocked(a0, n))
                &&& (r matches Err(e) ==> e is InvalidOperation && (forall|i: int|
                    0 <= i < a0.spec_len() ==> slot_eq(a0, a1, i)))
                &&& (r is Ok ==> exists|amid: XmlArena|
                    #![trigger spec_detached(a0, amid, n)]
                    spec_detached(a0, amid, n) && spec_subtree_removed(amid, a1, n))
                &&& (r is Ok ==> a1.spec_removed(n))
                &&& (r is Ok && shape_ok(a0) ==> shape_ok(a1))
                &&& (root_shape_all(a0) ==> root_shape_all(a1))
            }),
    {
        match self.remove_structure_check(node) {
            Err(e) => {
                return Err(e);
            },
            Ok(_) => {},
        }
        self.do_detach(node);
        let ghost amid = self.spec_arena();
        self.arena.remove_subtree(node.get());
        proof {
            let a1 = self.spec_arena();
            assert(spec_subtree_removed(amid, a1, node.spec_index()));
            assert forall|m: int|
                a1.live(m) implies (#[trigger] a1.spec_value(m)).wf() && (a1.spec_value(
                m,
            ) matches XmlValue::Element(e) ==> e.spec_name().spec_index()
                < self.spec_name_lookup().spec_len()) by {
                assert(slot_eq(amid, a1, m));
                assert(amid.live(m));
            }
            if shape_ok(old(self).spec_arena()) {
                lemma_shape_shrunk(amid, a1, node.spec_index());
            }
            if root_shape_all(old(self).spec_arena()) {
                lemma_root_shrunk(amid, a1, node.spec_index());
            }
        }
        Ok(())
    }

    /// Which prefix denotes `namespace_id` at `node`: the binding of the
    /// nearest enclosing element (the node itself included) that declares
    /// one; declarations at descendants shadow those at ancestors.
    pub fn prefix_for_namespace(&self, node: XmlNode, namespace_id: NamespaceId) -> (r: Option<
        PrefixId,
    >)
        requires
            self.wf(),
            self.live_node(node),
        ensures
            r == spec_prefix_for_namespace(
                self.spec_arena(),
                node.spec_index(),
                namespace_id,
                self.spec_arena().spec_len(),
            ),
    {
        let mut cur = node.get();
        let mut fuel = self.arena.len();
        loop
            invariant
                self.wf(),
                self.spec_arena().live(cur as int),
                fuel <= self.spec_arena().spec_len(),
                spec_prefix_for_namespace(
                    self.spec_arena(),
                    node.spec_index(),
                    namespace_id,
                    self.spec_arena().spec_len(),
                ) == spec_prefix_for_namespace(
                    self.spec_arena(),
                    cur as int,
                    namespace_id,
                    fuel as nat,
                ),
            decreases fuel,
        {
            if fuel == 0 {
                return None;
            }
            let own: Option<PrefixId> = match self.arena.value(cur) {
                XmlValue::Element(e) => e.get_prefix(namespace_id),
                _ => None,
            };
            if own.is_some() {
                return own;
            }
            match self.arena.parent(cur) {
                Some(p) => {
                    cur = p;
                    fuel = fuel - 1;
                },
                None => {
                    return None;
                },
            }
        }
    }

    /// Which namespace `prefix_id` denotes at `node`: the binding of the
    /// nearest enclosing element (the node itself included) that declares
    /// one; declarations at descendants shadow those at ancestors.
    pub fn namespace_for_prefix(&self, node: XmlNode, prefix_id: PrefixId) -> (r: Option<
        NamespaceId,
    >)
        requires
            self.wf(),
            self.live_node(node),
        ensures
            r == spec_namespace_for_prefix(
                self.spec_arena(),
                node.spec_index(),
                prefix_id,
                self.spec_arena().spec_len(),
            ),
    {
        let mut cur = node.get();
        let mut fuel = self.arena.len();
        loop
            invariant
                self.wf(),
                self.spec_arena().live(cur as int),
                fuel <= self.spec_arena().spec_len(),
                spec_namespace_for_prefix(
                    self.spec_arena(),
                    node.spec_index(),
                    prefix_id,
                    self.spec_arena().spec_len(),
                ) == spec_namespace_for_prefix(
                    self.spec_arena(),
                    cur as int,
                    prefix_id,
                    fuel as nat,
                ),
            decreases fuel,
        {
            if fuel == 0 {
                return None;
            }
            let own: Option<NamespaceId> = match self.arena.value(cur) {
                XmlValue::Element(e) => e.get_namespace(prefix_id),
                _ => None,
            };
            if own.is_some() {
                return own;
            }
            match self.arena.parent(cur) {
                Some(p) => {
                    cur = p;
                    fuel = fuel - 1;
                },
                None => {
                    return None;
                },
            }
        }
    }

    /// A chain from an old node can never reach a node no link points to.
    proof fn lemma_fresh_no_chain(am: XmlArena, p: int, c: int, f: nat)
        requires
            am.wf(),
            am.live(p),
            p != c,
            forall|i: int|
                0 <= i < am.spec_len() && (#[trigger] am.spec_parent(i)) is Some ==> (
                am.spec_parent(i)->Some_0 as int) != c,
        ensures
            !spec_chain_has(am, p, c, f),
        decreases f,
    {
        if f > 0 {
            match am.spec_parent(p) {
                Some(q) => {
                    assert(am.live(q as int));
                    assert(q as int != c);
                    Self::lemma_fresh_no_chain(am, q as int, c, (f - 1) as nat);
                },
                None => {},
            }
        }
    }

    /// Create a text node and append it to `parent` in one step; the text
    /// merges into `parent`'s last child when that is text.
    pub fn append_text(&mut self, parent: XmlNode, text: &str) -> (r: Result<(), Error>)
        requires
            old(self).wf(),
            old(self).live_node(parent),
            old(self).spec_arena().spec_len() < usize::MAX,
        ensures
            final(self).wf(),
            XmlData::same_tables(*old(self), *final(self)),
            final(self).spec_arena().spec_len() == old(self).spec_arena().spec_len() + 1,
            ({
                let a0 = old(self).spec_arena();
                let a1 = final(self).spec_arena();
                let p = parent.spec_index();
                &&& (r is Err <==> spec_is_root(a0, p))
                &&& (r matches Err(e) ==> e is InvalidOperation && (forall|i: int|
                    0 <= i < a0.spec_len() ==> slot_eq(a0, a1, i)))
                &&& (r is Ok && a0.spec_kids(p).len() > 0 && spec_is_text(
                    a0,
                    a0.spec_kids(p).last() as int,
                ) ==> {
                    let last = a0.spec_kids(p).last() as int;
                    &&& a1.spec_kids(p) == a0.spec_kids(p)
                    &&& a1.spec_parent(p) == a0.spec_parent(p)
                    &&& a1.spec_removed(p) == a0.spec_removed(p)
                    &&& (p != last ==> a1.spec_value(p) == a0.spec_value(p))
                    &&& spec_is_text(a1, last)
                    &&& spec_text_of(a1.spec_value(last)) == spec_text_of(a0.spec_value(last))
                        + text@
                    &&& (forall|i: int|
                        a0.live(i) && i != last ==> slot_eq(a0, a1, i))
                })
                &&& (r is Ok && !(a0.spec_kids(p).len() > 0 && spec_is_text(
                    a0,
                    a0.spec_kids(p).last() as int,
                )) ==> {
                    let c = a0.spec_len() as int;
                    &&& a1.spec_kids(p) == a0.spec_kids(p).push(c as usize)
                    &&& a1.spec_parent(p) == a0.spec_parent(p)
                    &&& a1.spec_value(p) == a0.spec_value(p)
                    &&& a1.spec_removed(p) == a0.spec_removed(p)
                    &&& a1.live(c)
                    &&& spec_is_text(a1, c)
                    &&& spec_text_of(a1.spec_value(c)) == text@
                    &&& a1.spec_parent(c) == Some(p as usize)
                    &&& (forall|i: int|
                        0 <= i < a0.spec_len() && i != p ==> slot_eq(a0, a1, i))
                })
                &&& (shape_ok(a0) ==> shape_ok(a1))
                &&& (root_shape_all(a0) ==> root_shape_all(a1))
            }),
    {
        let ghost a0 = self.spec_arena();
        let text_node = self.new_text(text);
        let ghost am = self.spec_arena();
        proof {
            assert(slot_eq(a0, am, parent.spec_index()));
            assert(am.live(parent.spec_index()));
        }
        let r = self.append(parent, text_node);
        proof {
            let p = parent.spec_index();
            let c = text_node.spec_index();
            let a1 = self.spec_arena();
            assert(slot_eq(a0, am, p));
            assert(!spec_chain_has(am, p, c, am.spec_len())) by {
                assert forall|i: int|
                    0 <= i < am.spec_len() && (#[trigger] am.spec_parent(i)) is Some implies (
                am.spec_parent(i)->Some_0 as int) != c by {
                    if i < a0.spec_len() {
                        assert(slot_eq(a0, am, i));
                        if am.spec_parent(i) is Some {
                            let q = am.spec_parent(i)->Some_0 as int;
                            assert(a0.live(i) || a0.spec_removed(i));
                            if a0.live(i) {
                                assert(a0.live(q));
                            } else {
                                assert(a0.spec_parent(i) is None);
                            }
                        }
                    }
                }
                Self::lemma_fresh_no_chain(am, p, c, am.spec_len());
            }
            assert(!spec_insert_blocked(am, p, c) || spec_is_root(am, p));
            assert(spec_is_root(am, p) == spec_is_root(a0, p));
            if r is Err {
                assert forall|i: int| 0 <= i < a0.spec_len() implies slot_eq(a0, a1, i) by {
                    assert(slot_eq(a0, am, i));
                    assert(slot_eq(am, a1, i));
                }
                if shape_ok(a0) {
                    assert(shape_ok(am));
                    assert forall|i: int| 0 <= i < am.spec_len() implies slot_eq(am, a1, i) by {}
                    lemma_shape_same(am, a1);
                }
            }
            if r is Ok {
                assert(am.spec_kids(p) == a0.spec_kids(p));
                assert(spec_is_text(am, c));
                if am.spec_kids(p).len() > 0 {
                    let last0 = a0.spec_kids(p).last() as int;
                    assert(a0.spec_kids(p).contains(a0.spec_kids(p).last()));
                    assert(a0.live(last0));
                    assert(slot_eq(a0, am, last0));
                    assert(spec_is_text(am, last0) == spec_is_text(a0, last0));
                }
                if spec_append_merges(am, p, c) {
                    let last = a0.spec_kids(p).last() as int;
                    assert(spec_text_merged(am, a1, last, c, false));
                    assert(am.live(last) && last != c) by {
                        assert(a0.spec_kids(p).contains(a0.spec_kids(p).last()));
                        assert(a0.live(last));
                        assert(slot_eq(a0, am, last));
                    }
                    assert(!spec_descends(am, last, c)) by {
                        if spec_descends(am, last, c) {
                            let f = choose|f: nat| spec_chain_has(am, last, c, f);
                            assert forall|i: int|
                                0 <= i < am.spec_len() && (#[trigger] am.spec_parent(i))
                                is Some implies (am.spec_parent(i)->Some_0 as int) != c by {
                                if i < a0.spec_len() {
                                    assert(slot_eq(a0, am, i));
                                    if am.spec_parent(i) is Some {
                                        let q = am.spec_parent(i)->Some_0 as int;
                                        if a0.live(i) {
                                            assert(a0.live(q));
                                        } else {
                                            assert(a0.spec_removed(i));
                                            assert(a0.spec_parent(i) is None);
                                        }
                                    }
                                }
                            }
                            Self::lemma_fresh_no_chain(am, last, c, f);
                        }
                    }
                    assert(a1.spec_kids(last) == am.spec_kids(last).remove_value(c as usize));
                    assert(spec_is_text(a1, last));
                    assert forall|i: int|
                        a0.live(i) && i != last implies slot_eq(a0, a1, i) by {
                        assert(slot_eq(a0, am, i));
                        {
                            assert(am.live(i));
                            assert(!spec_descends(am, i, c)) by {
                                if spec_descends(am, i, c) {
                                    let f = choose|f: nat| spec_chain_has(am, i, c, f);
                                    assert forall|k: int|
                                        0 <= k < am.spec_len() && (#[trigger] am.spec_parent(k))
                                        is Some implies (am.spec_parent(k)->Some_0 as int)
                                        != c by {
                                        if k < a0.spec_len() {
                                            assert(slot_eq(a0, am, k));
                                            if a0.live(k) {
                                                assert(a0.live(
                                                    am.spec_parent(k)->Some_0 as int,
                                                ));
                                            } else {
                                                assert(a0.spec_removed(k));
                                                assert(a0.spec_parent(k) is None);
                                            }
                                        }
                                    }
                                    Self::lemma_fresh_no_chain(am, i, c, f);
                                }
                            }
                            assert(a1.spec_kids(i) == am.spec_kids(i).remove_value(c as usize));
                            assert(!am.spec_kids(i).contains(c as usize)) by {
                                am.lemma_orphan_in_no_kids(c as usize);
                            }
                            lemma_remove_value_absent(am.spec_kids(i), c as usize);
                            assert(a1.spec_parent(i) == am.spec_parent(i));
                            assert(a1.spec_value(i) == am.spec_value(i));
                            assert(a1.spec_removed(i) == am.spec_removed(i)) by {
                                assert(a1.live(i));
                            }
                        }
                    }
                    assert(a1.spec_kids(p) == a0.spec_kids(p)) by {
                        assert(!spec_descends(am, p, c)) by {
                            if spec_descends(am, p, c) {
                                let f = choose|f: nat| spec_chain_has(am, p, c, f);
                                assert forall|k: int|
                                    0 <= k < am.spec_len() && (#[trigger] am.spec_parent(k))
                                    is Some implies (am.spec_parent(k)->Some_0 as int) != c by {
                                    if k < a0.spec_len() {
                                        assert(slot_eq(a0, am, k));
                                        if a0.live(k) {
                                            assert(a0.live(am.spec_parent(k)->Some_0 as int));
                                        } else {
                                            assert(a0.spec_removed(k));
                                            assert(a0.spec_parent(k) is None);
                                        }
                                    }
                                }
                                Self::lemma_fresh_no_chain(am, p, c, f);
                            }
                        }
                        assert(a1.spec_kids(p) == am.spec_kids(p).remove_value(c as usize));
                        assert(!am.spec_kids(p).contains(c as usize)) by {
                            am.lemma_orphan_in_no_kids(c as usize);
                        }
                        lemma_remove_value_absent(am.spec_kids(p), c as usize);
                    }
                    assert(spec_text_of(a1.spec_value(last)) == spec_text_of(a0.spec_value(last))
                        + text@) by {
                        assert(spec_text_of(am.spec_value(c)) == text@);
                        assert(slot_eq(a0, am, last));
                        assert(am.spec_value(last) == a0.spec_value(last));
                        assert(spec_text_of(a1.spec_value(last)) == spec_text_of(
                            am.spec_value(last),
                        ) + spec_text_of(am.spec_value(c)));
                    }
                    if shape_ok(a0) {
                        assert(shape_ok(am));
                        assert(shape_ok(a1));
                    }
                } else {
                    assert(spec_moved_to(
                        am,
                        a1,
                        p,
                        c,
                        am.spec_kids(p).remove_value(c as usize).len() as int,
                    ));
                    assert(!am.spec_kids(p).contains(c as usize)) by {
                        am.lemma_orphan_in_no_kids(c as usize);
                    }
                    lemma_remove_value_absent(am.spec_kids(p), c as usize);
                    assert(a1.spec_kids(p) =~= a0.spec_kids(p).push(c as usize)) by {
                        am.spec_kids(p).insert_ensures(
                            am.spec_kids(p).len() as int,
                            c as usize,
                        );
                    }
                    assert forall|i: int|
                        0 <= i < a0.spec_len() && i != p implies slot_eq(a0, a1, i) by {
                        assert(slot_eq(a0, am, i));
                        assert(a1.spec_kids(i) == am.spec_kids(i).remove_value(c as usize));
                        assert(!am.spec_kids(i).contains(c as usize)) by {
                            if am.live(i) {
                                am.lemma_orphan_in_no_kids(c as usize);
                            } else {
                                assert(am.spec_removed(i));
                            }
                        }
                        lemma_remove_value_absent(am.spec_kids(i), c as usize);
                        assert(a1.spec_parent(i) == am.spec_parent(i));
                        assert(a1.spec_value(i) == am.spec_value(i));
                        assert(a1.spec_removed(i) == am.spec_removed(i));
                    }
                    if shape_ok(a0) {
                        assert(shape_ok(am));
                        assert(shape_ok(a1));
                    }
                }
            }
        }
        r
    }

    /// Create an element node from an interned name and append it to
    /// `parent` in one step.
    pub fn append_element(&mut self, parent: XmlNode, name_id: NameId) -> (r: Result<(), Error>)
        requires
            old(self).wf(),
            old(self).live_node(parent),
            old(self).spec_arena().spec_len() < usize::MAX,
            name_id.spec_index() < old(self).spec_name_lookup().spec_len(),
        ensures
            final(self).wf(),
            XmlData::same_tables(*old(self), *final(self)),
            final(self).spec_arena().spec_len() == old(self).spec_arena().spec_len() + 1,
            ({
                let a0 = old(self).spec_arena();
                let a1 = final(self).spec_arena();
                let p = parent.spec_index();
                let c = a0.spec_len() as int;
                &&& (r is Err <==> spec_is_root(a0, p) && has_element_kid(a0, p))
                &&& (r matches Err(e) ==> e is InvalidOperation && (forall|i: int|
                    0 <= i < a0.spec_len() ==> slot_eq(a0, a1, i)))
                &&& (r is Ok ==> {
                    &&& a1.spec_kids(p) == a0.spec_kids(p).push(c as usize)
                    &&& a1.spec_parent(p) == a0.spec_parent(p)
                    &&& a1.spec_value(p) == a0.spec_value(p)
                    &&& a1.spec_removed(p) == a0.spec_removed(p)
                    &&& a1.live(c)
                    &&& a1.spec_parent(c) == Some(p as usize)
                    &&& (a1.spec_value(c) matches XmlValue::Element(e) && e.spec_name() == name_id)
                    &&& (forall|i: int|
                        0 <= i < a0.spec_len() && i != p ==> slot_eq(a0, a1, i))
                })
                &&& (shape_ok(a0) ==> shape_ok(a1))
                &&& (root_shape_all(a0) ==> root_shape_all(a1))
            }),
    {
        let ghost a0 = self.spec_arena();
        let node = self.new_element(name_id);
        let ghost am = self.spec_arena();
        proof {
            assert(slot_eq(a0, am, parent.spec_index()));
            assert(am.live(parent.spec_index()));
        }
        let r = self.append(parent, node);
        proof {
            let p = parent.spec_index();
            let c = node.spec_index();
            let a1 = self.spec_arena();
            assert(!spec_chain_has(am, p, c, am.spec_len())) by {
                assert forall|i: int|
                    0 <= i < am.spec_len() && (#[trigger] am.spec_parent(i)) is Some implies (
                am.spec_parent(i)->Some_0 as int) != c by {
                    if am.spec_parent(i) is Some && am.spec_parent(i)->Some_0 as int == c {
                        assert(am.live(i));
                        assert(am.spec_kids(c).contains(i as usize));
                    }
                }
                Self::lemma_fresh_no_chain(am, p, c, am.spec_len());
            }
            assert(am.spec_kids(p) == a0.spec_kids(p));
            assert(spec_is_element(am, c));
            assert(spec_is_root(am, p) == spec_is_root(a0, p));
            assert(has_element_kid(am, p) == has_element_kid(a0, p)) by {
                if has_element_kid(am, p) {
                    let i = choose|i: int|
                        0 <= i < am.spec_kids(p).len() && spec_is_element(
                            am,
                            (#[trigger] am.spec_kids(p)[i]) as int,
                        );
                    assert(a0.spec_kids(p)[i] == am.spec_kids(p)[i]);
                    assert(a0.live(am.spec_kids(p)[i] as int));
                    assert(slot_eq(a0, am, am.spec_kids(p)[i] as int));
                    assert(spec_is_element(a0, (a0.spec_kids(p)[i]) as int));
                }
                if has_element_kid(a0, p) {
                    let i = choose|i: int|
                        0 <= i < a0.spec_kids(p).len() && spec_is_element(
                            a0,
                            (#[trigger] a0.spec_kids(p)[i]) as int,
                        );
                    assert(am.spec_kids(p)[i] == a0.spec_kids(p)[i]);
                    assert(a0.live(a0.spec_kids(p)[i] as int));
                    assert(slot_eq(a0, am, a0.spec_kids(p)[i] as int));
                    assert(spec_is_element(am, (am.spec_kids(p)[i]) as int));
                }
            }
            assert(!under_root(am, c));
            assert(!spec_append_merges(am, p, c));
            if r is Err {
                assert forall|i: int| 0 <= i < a0.spec_len() implies slot_eq(a0, a1, i) by {
                    assert(slot_eq(a0, am, i));
                    assert(slot_eq(am, a1, i));
                }
                if shape_ok(a0) {
                    assert(shape_ok(am));
                    assert forall|i: int| 0 <= i < am.spec_len() implies slot_eq(am, a1, i) by {}
                    lemma_shape_same(am, a1);
                }
            }
            if r is Ok {
                assert(spec_moved_to(
                    am,
                    a1,
                    p,
                    c,
                    am.spec_kids(p).remove_value(c as usize).len() as int,
                ));
                assert(!am.spec_kids(p).contains(c as usize)) by {
                    am.lemma_orphan_in_no_kids(c as usize);
                }
                lemma_remove_value_absent(am.spec_kids(p), c as usize);
                assert(a1.spec_kids(p) =~= a0.spec_kids(p).push(c as usize)) by {
                    am.spec_kids(p).insert_ensures(am.spec_kids(p).len() as int, c as usize);
                }
                assert forall|i: int|
                    0 <= i < a0.spec_len() && i != p implies slot_eq(a0, a1, i) by {
                    assert(slot_eq(a0, am, i));
                    assert(a1.spec_kids(i) == am.spec_kids(i).remove_value(c as usize));
                    assert(!am.spec_kids(i).contains(c as usize)) by {
                        if am.live(i) {
                            am.lemma_orphan_in_no_kids(c as usize);
                        } else {
                            assert(am.spec_removed(i));
                        }
                    }
                    lemma_remove_value_absent(am.spec_kids(i), c as usize);
                    assert(a1.spec_parent(i) == am.spec_parent(i));
                    assert(a1.spec_value(i) == am.spec_value(i));
                    assert(a1.spec_removed(i) == am.spec_removed(i));
                }
                if shape_ok(a0) {
                    assert(shape_ok(am));
                    assert(shape_ok(a1));
                }
            }
        }
        r
    }

    /// Create a comment node and append it to `parent` in one step.
    pub fn append_comment(&mut self, parent: XmlNode, comment: &str) -> (r: Result<(), Error>)
        requires
            old(self).wf(),
            old(self).live_node(parent),
            old(self).spec_arena().spec_len() < usize::MAX,
            
        ensures
            final(self).wf(),
            XmlData::same_tables(*old(self), *final(self)),
            final(self).spec_arena().spec_len() == old(self).spec_arena().spec_len() + 1,
            ({
                let a0 = old(self).spec_arena();
                let a1 = final(self).spec_arena();
                let p = parent.spec_index();
                let c = a0.spec_len() as int;
                &&& (r is Err <==> false)
                &&& (r matches Err(e) ==> e is InvalidOperation && (forall|i: int|
                    0 <= i < a0.spec_len() ==> slot_eq(a0, a1, i)))
                &&& (r is Ok ==> {
                    &&& a1.spec_kids(p) == a0.spec_kids(p).push(c as usize)
                    &&& a1.spec_parent(p) == a0.spec_parent(p)
                    &&& a1.spec_value(p) == a0.spec_value(p)
                    &&& a1.spec_removed(p) == a0.spec_removed(p)
                    &&& a1.live(c)
                    &&& a1.spec_parent(c) == Some(p as usize)
                    &&& (a1.spec_value(c) matches XmlValue::Comment(cm) && cm.spec_get() == comment@)
                    &&& (forall|i: int|
                        0 <= i < a0.spec_len() && i != p ==> slot_eq(a0, a1, i))
                })
                &&& (shape_ok(a0) ==> shape_ok(a1))
                &&& (root_shape_all(a0) ==> root_shape_all(a1))
            }),
    {
        let ghost a0 = self.spec_arena();
        let node = self.new_comment(comment);
        let ghost am = self.spec_arena();
        proof {
            assert(slot_eq(a0, am, parent.spec_index()));
            assert(am.live(parent.spec_index()));
        }
        let r = self.append(parent, node);
        proof {
            let p = parent.spec_index();
            let c = node.spec_index();
            let a1 = self.spec_arena();
            assert(!spec_chain_has(am, p, c, am.spec_len())) by {
                assert forall|i: int|
                    0 <= i < am.spec_len() && (#[trigger] am.spec_parent(i)) is Some implies (
                am.spec_parent(i)->Some_0 as int) != c by {
                    if am.spec_parent(i) is Some && am.spec_parent(i)->Some_0 as int == c {
                        assert(am.live(i));
                        assert(am.spec_kids(c).contains(i as usize));
                    }
                }
                Self::lemma_fresh_no_chain(am, p, c, am.spec_len());
            }
            assert(am.spec_kids(p) == a0.spec_kids(p));
            assert(!spec_insert_blocked(am, p, c)) by {
                assert(am.spec_value(c) is Comment);
            }
            assert(!spec_append_merges(am, p, c));
            if r is Err {
                assert forall|i: int| 0 <= i < a0.spec_len() implies slot_eq(a0, a1, i) by {
                    assert(slot_eq(a0, am, i));
                    assert(slot_eq(am, a1, i));
                }
                if shape_ok(a0) {
                    assert(shape_ok(am));
                    assert forall|i: int| 0 <= i < am.spec_len() implies slot_eq(am, a1, i) by {}
                    lemma_shape_same(am, a1);
                }
            }
            if r is Ok {
                assert(spec_moved_to(
                    am,
                    a1,
                    p,
                    c,
                    am.spec_kids(p).remove_value(c as usize).len() as int,
                ));
                assert(!am.spec_kids(p).contains(c as usize)) by {
                    am.lemma_orphan_in_no_kids(c as usize);
                }
                lemma_remove_value_absent(am.spec_kids(p), c as usize);
                assert(a1.spec_kids(p) =~= a0.spec_kids(p).push(c as usize)) by {
                    am.spec_kids(p).insert_ensures(am.spec_kids(p).len() as int, c as usize);
                }
                assert forall|i: int|
                    0 <= i < a0.spec_len() && i != p implies slot_eq(a0, a1, i) by {
                    assert(slot_eq(a0, am, i));
                    assert(a1.spec_kids(i) == am.spec_kids(i).remove_value(c as usize));
                    assert(!am.spec_kids(i).contains(c as usize)) by {
                        if am.live(i) {
                            am.lemma_orphan_in_no_kids(c as usize);
                        } else {
                            assert(am.spec_removed(i));
                        }
                    }
                    lemma_remove_value_absent(am.spec_kids(i), c as usize);
                    assert(a1.spec_parent(i) == am.spec_parent(i));
                    assert(a1.spec_value(i) == am.spec_value(i));
                    assert(a1.spec_removed(i) == am.spec_removed(i));
                }
                if shape_ok(a0) {
                    assert(shape_ok(am));
                    assert(shape_ok(a1));
                }
            }
        }
        r
    }

    /// Create a processing instruction node and append it to `parent` in
    /// one step.
    pub fn append_processing_instruction(&mut self, parent: XmlNode, target: &str, data: Option<&str>) -> (r: Result<(), Error>)
        requires
            old(self).wf(),
            old(self).live_node(parent),
            old(self).spec_arena().spec_len() < usize::MAX,
            
        ensures
            final(self).wf(),
            XmlData::same_tables(*old(self), *final(self)),
            final(self).spec_arena().spec_len() == old(self).spec_arena().spec_len() + 1,
            ({
                let a0 = old(self).spec_arena();
                let a1 = final(self).spec_arena();
                let p = parent.spec_index();
                let c = a0.spec_len() as int;
                &&& (r is Err <==> false)
                &&& (r matches Err(e) ==> e is InvalidOperation && (forall|i: int|
                    0 <= i < a0.spec_len() ==> slot_eq(a0, a1, i)))
                &&& (r is Ok ==> {
                    &&& a1.spec_kids(p) == a0.spec_kids(p).push(c as usize)
                    &&& a1.spec_parent(p) == a0.spec_parent(p)
                    &&& a1.spec_value(p) == a0.spec_value(p)
                    &&& a1.spec_removed(p) == a0.spec_removed(p)
                    &&& a1.live(c)
                    &&& a1.spec_parent(c) == Some(p as usize)
                    &&& (a1.spec_value(c) matches XmlValue::ProcessingInstruction(pi) && pi.spec_target()
                        == target@ && (data is Some ==> pi.spec_data() == Some(data->Some_0@)) && (
                    data is None ==> pi.spec_data() is None))
                    &&& (forall|i: int|
                        0 <= i < a0.spec_len() && i != p ==> slot_eq(a0, a1, i))
                })
                &&& (shape_ok(a0) ==> shape_ok(a1))
                &&& (root_shape_all(a0) ==> root_shape_all(a1))
            }),
    {
        let ghost a0 = self.spec_arena();
        let node = self.new_processing_instruction(target, data);
        let ghost am = self.spec_arena();
        proof {
            assert(slot_eq(a0, am, parent.spec_index()));
            assert(am.live(parent.spec_index()));
        }
        let r = self.append(parent, node);
        proof {
            let p = parent.spec_index();
            let c = node.spec_index();
            let a1 = self.spec_arena();
            assert(!spec_chain_has(am, p, c, am.spec_len())) by {
                assert forall|i: int|
                    0 <= i < am.spec_len() && (#[trigger] am.spec_parent(i)) is Some implies (
                am.spec_parent(i)->Some_0 as int) != c by {
                    if am.spec_parent(i) is Some && am.spec_parent(i)->Some_0 as int == c {
                        assert(am.live(i));
                        assert(am.spec_kids(c).contains(i as usize));
                    }
                }
                Self::lemma_fresh_no_chain(am, p, c, am.spec_len());
            }
            assert(am.spec_kids(p) == a0.spec_kids(p));
            assert(!spec_insert_blocked(am, p, c)) by {
                assert(am.spec_value(c) is ProcessingInstruction);
            }
            assert(!spec_append_merges(am, p, c));
            if r is Err {
                assert forall|i: int| 0 <= i < a0.spec_len() implies slot_eq(a0, a1, i) by {
                    assert(slot_eq(a0, am, i));
                    assert(slot_eq(am, a1, i));
                }
                if shape_ok(a0) {
                    assert(shape_ok(am));
                    assert forall|i: int| 0 <= i < am.spec_len() implies slot_eq(am, a1, i) by {}
                    lemma_shape_same(am, a1);
                }
            }
            if r is Ok {
                assert(spec_moved_to(
                    am,
                    a1,
                    p,
                    c,
                    am.spec_kids(p).remove_value(c as usize).len() as int,
                ));
                assert(!am.spec_kids(p).contains(c as usize)) by {
                    am.lemma_orphan_in_no_kids(c as usize);
                }
                lemma_remove_value_absent(am.spec_kids(p), c as usize);
                assert(a1.spec_kids(p) =~= a0.spec_kids(p).push(c as usize)) by {
                    am.spec_kids(p).insert_ensures(am.spec_kids(p).len() as int, c as usize);
                }
                assert forall|i: int|
                    0 <= i < a0.spec_len() && i != p implies slot_eq(a0, a1, i) by {
                    assert(slot_eq(a0, am, i));
                    assert(a1.spec_kids(i) == am.spec_kids(i).remove_value(c as usize));
                    assert(!am.spec_kids(i).contains(c as usize)) by {
                        if am.live(i) {
                            am.lemma_orphan_in_no_kids(c as usize);
                        } else {
                            assert(am.spec_removed(i));
                        }
                    }
                    lemma_remove_value_absent(am.spec_kids(i), c as usize);
                    assert(a1.spec_parent(i) == am.spec_parent(i));
                    assert(a1.spec_value(i) == am.spec_value(i));
                    assert(a1.spec_removed(i) == am.spec_removed(i));
                }
                if shape_ok(a0) {
                    assert(shape_ok(am));
                    assert(shape_ok(a1));
                }
            }
        }
        r
    }

    /// The id of an already-interned name in the empty namespace.
    pub fn name(&self, name: &str) -> (r: Option<NameId>)
        requires
            self.wf(),
        ensures
            match r {
                Some(id) => id.spec_index() < self.spec_name_lookup().spec_len()
                    && self.spec_name_lookup().spec_entry(id.spec_index() as int) == (
                name@,
                self.spec_no_namespace(),
                ),
                None => !self.spec_name_lookup().spec_contains(
                    (name@, self.spec_no_namespace()),
                ),
            },
    {
        let ns = self.no_namespace_id;
        self.name_ns(name, ns)
    }

    /// The id of an already-interned name in the given namespace.
    pub fn name_ns(&self, name: &str, namespace_id: NamespaceId) -> (r: Option<NameId>)
        requires
            self.wf(),
        ensures
            match r {
                Some(id) => id.spec_index() < self.spec_name_lookup().spec_len()
                    && self.spec_name_lookup().spec_entry(id.spec_index() as int) == (
                name@,
                namespace_id,
                ),
                None => !self.spec_name_lookup().spec_contains((name@, namespace_id)),
            },
    {
        self.name_lookup.get_id(&Name::new(String::from_str(name), namespace_id))
    }

    /// Intern a name in the empty namespace, new or old, and hand back its
    /// stable id.
    pub fn name_mut(&mut self, name: &str) -> (r: NameId)
        requires
            old(self).wf(),
        ensures
            final(self).wf(),
            final(self).spec_arena() == old(self).spec_arena(),
            final(self).spec_namespace_lookup() == old(self).spec_namespace_lookup(),
            final(self).spec_prefix_lookup() == old(self).spec_prefix_lookup(),
            final(self).spec_no_namespace() == old(self).spec_no_namespace(),
            final(self).spec_empty_prefix() == old(self).spec_empty_prefix(),
            r.spec_index() < final(self).spec_name_lookup().spec_len(),
            final(self).spec_name_lookup().spec_entry(r.spec_index() as int) == (
                name@,
                old(self).spec_no_namespace(),
            ),
            old(self).spec_name_lookup().spec_contains((name@, old(self).spec_no_namespace()))
                ==> final(self).spec_name_lookup() == old(self).spec_name_lookup(),
            final(self).spec_name_lookup().spec_len() >= old(self).spec_name_lookup().spec_len(),
            forall|i: int|
                0 <= i < old(self).spec_name_lookup().spec_len()
                    ==> #[trigger] final(self).spec_name_lookup().spec_entry(i) == old(self).spec_name_lookup().spec_entry(i),
    {
        let ns = self.no_namespace_id;
        self.name_ns_mut(name, ns)
    }

    /// Intern a name in the given namespace, new or old, and hand back its
    /// stable id. Equal (name, namespace) pairs always yield the same id;
    /// the same local string under another namespace yields another id.
    pub fn name_ns_mut(&mut self, name: &str, namespace_id: NamespaceId) -> (r: NameId)
        requires
            old(self).wf(),
            namespace_id.spec_index() < old(self).spec_namespace_lookup().spec_len(),
        ensures
            final(self).wf(),
            final(self).spec_arena() == old(self).spec_arena(),
            final(self).spec_namespace_lookup() == old(self).spec_namespace_lookup(),
            final(self).spec_prefix_lookup() == old(self).spec_prefix_lookup(),
            final(self).spec_no_namespace() == old(self).spec_no_namespace(),
            final(self).spec_empty_prefix() == old(self).spec_empty_prefix(),
            r.spec_index() < final(self).spec_name_lookup().spec_len(),
            final(self).spec_name_lookup().spec_entry(r.spec_index() as int) == (
                name@,
                namespace_id,
            ),
            old(self).spec_name_lookup().spec_contains((name@, namespace_id)) ==> final(self).spec_name_lookup() == old(self).spec_name_lookup(),
            final(self).spec_name_lookup().spec_len() >= old(self).spec_name_lookup().spec_len(),
            forall|i: int|
                0 <= i < old(self).spec_name_lookup().spec_len()
                    ==> #[trigger] final(self).spec_name_lookup().spec_entry(i) == old(self).spec_name_lookup().spec_entry(i),
    {
        let r = self.name_lookup.get_id_mut(Name::new(String::from_str(name), namespace_id));
        proof {
            assert forall|i: int|
                0 <= i < self.spec_name_lookup().spec_len() implies (
            #[trigger] self.spec_name_lookup().spec_entry(i)).1.spec_index() < self
                .spec_namespace_lookup()
                .spec_len() by {
                if i < old(self).spec_name_lookup().spec_len() {
                    assert(self.spec_name_lookup().spec_entry(i) == old(
                        self,
                    ).spec_name_lookup().spec_entry(i));
                }
            }
        }
        r
    }

    /// Intern a name in the empty namespace; see `name_mut`.
    pub fn add_name(&mut self, name: &str) -> (r: NameId)
        requires
            old(self).wf(),
        ensures
            final(self).wf(),
            final(self).spec_arena() == old(self).spec_arena(),
            final(self).spec_namespace_lookup() == old(self).spec_namespace_lookup(),
            final(self).spec_prefix_lookup() == old(self).spec_prefix_lookup(),
            final(self).spec_no_namespace() == old(self).spec_no_namespace(),
            final(self).spec_empty_prefix() == old(self).spec_empty_prefix(),
            r.spec_index() < final(self).spec_name_lookup().spec_len(),
            final(self).spec_name_lookup().spec_entry(r.spec_index() as int) == (
                name@,
                old(self).spec_no_namespace(),
            ),
            final(self).spec_name_lookup().spec_len() >= old(self).spec_name_lookup().spec_len(),
            forall|i: int|
                0 <= i < old(self).spec_name_lookup().spec_len()
                    ==> #[trigger] final(self).spec_name_lookup().spec_entry(i) == old(self).spec_name_lookup().spec_entry(i),
    {
        self.name_mut(name)
    }

    /// Intern a name in the given namespace; see `name_ns_mut`.
    pub fn add_name_ns(&mut self, name: &str, namespace_id: NamespaceId) -> (r: NameId)
        requires
            old(self).wf(),
            namespace_id.spec_index() < old(self).spec_namespace_lookup().spec_len(),
        ensures
            final(self).wf(),
            final(self).spec_arena() == old(self).spec_arena(),
            final(self).spec_namespace_lookup() == old(self).spec_namespace_lookup(),
            final(self).spec_prefix_lookup() == old(self).spec_prefix_lookup(),
            final(self).spec_no_namespace() == old(self).spec_no_namespace(),
            final(self).spec_empty_prefix() == old(self).spec_empty_prefix(),
            r.spec_index() < final(self).spec_name_lookup().spec_len(),
            final(self).spec_name_lookup().spec_entry(r.spec_index() as int) == (
                name@,
                namespace_id,
            ),
            final(self).spec_name_lookup().spec_len() >= old(self).spec_name_lookup().spec_len(),
            forall|i: int|
                0 <= i < old(self).spec_name_lookup().spec_len()
                    ==> #[trigger] final(self).spec_name_lookup().spec_entry(i) == old(self).spec_name_lookup().spec_entry(i),
    {
        self.name_ns_mut(name, namespace_id)
    }

    /// The id of an already-interned namespace string.
    pub fn namespace(&self, namespace: &str) -> (r: Option<NamespaceId>)
        requires
            self.wf(),
        ensures
            match r {
                Some(id) => id.spec_index() < self.spec_namespace_lookup().spec_len()
                    && self.spec_namespace_lookup().spec_entry(id.spec_index() as int)
                    == namespace@,
                None => !self.spec_namespace_lookup().spec_contains(namespace@),
            },
    {
        self.namespace_lookup.get_id(&Namespace::new(String::from_str(namespace)))
    }

    /// Intern a namespace string, new or old, and hand back its stable id.
    pub fn namespace_mut(&mut self, namespace: &str) -> (r: NamespaceId)
        requires
            old(self).wf(),
        ensures
            final(self).wf(),
            final(self).spec_arena() == old(self).spec_arena(),
            final(self).spec_name_lookup() == old(self).spec_name_lookup(),
            final(self).spec_prefix_lookup() == old(self).spec_prefix_lookup(),
            final(self).spec_no_namespace() == old(self).spec_no_namespace(),
            final(self).spec_empty_prefix() == old(self).spec_empty_prefix(),
            r.spec_index() < final(self).spec_namespace_lookup().spec_len(),
            final(self).spec_namespace_lookup().spec_entry(r.spec_index() as int) == namespace@,
            final(self).spec_namespace_lookup().spec_len() >= old(self).spec_namespace_lookup().spec_len(),
            forall|i: int|
                0 <= i < old(self).spec_namespace_lookup().spec_len()
                    ==> #[trigger] final(self).spec_namespace_lookup().spec_entry(i) == old(self).spec_namespace_lookup().spec_entry(i),
    {
        let r = self.namespace_lookup.get_id_mut(Namespace::new(String::from_str(namespace)));
        r
    }

    /// Intern a namespace string; see `namespace_mut`.
    pub fn add_namespace(&mut self, namespace: &str) -> (r: NamespaceId)
        requires
            old(self).wf(),
        ensures
            final(self).wf(),
            final(self).spec_arena() == old(self).spec_arena(),
            final(self).spec_name_lookup() == old(self).spec_name_lookup(),
            final(self).spec_prefix_lookup() == old(self).spec_prefix_lookup(),
            final(self).spec_no_namespace() == old(self).spec_no_namespace(),
            final(self).spec_empty_prefix() == old(self).spec_empty_prefix(),
            r.spec_index() < final(self).spec_namespace_lookup().spec_len(),
            final(self).spec_namespace_lookup().spec_entry(r.spec_index() as int) == namespace@,
            final(self).spec_namespace_lookup().spec_len() >= old(self).spec_namespace_lookup().spec_len(),
            forall|i: int|
                0 <= i < old(self).spec_namespace_lookup().spec_len()
                    ==> #[trigger] final(self).spec_namespace_lookup().spec_entry(i) == old(self).spec_namespace_lookup().spec_entry(i),
    {
        self.namespace_mut(namespace)
    }

    /// Intern a prefix string, new or old, and hand back its stable id.
    pub fn add_prefix(&mut self, prefix: &str) -> (r: PrefixId)
        requires
            old(self).wf(),
        ensures
            final(self).wf(),
            final(self).spec_arena() == old(self).spec_arena(),
            final(self).spec_name_lookup() == old(self).spec_name_lookup(),
            final(self).spec_namespace_lookup() == old(self).spec_namespace_lookup(),
            final(self).spec_no_namespace() == old(self).spec_no_namespace(),
            final(self).spec_empty_prefix() == old(self).spec_empty_prefix(),
            r.spec_index() < final(self).spec_prefix_lookup().spec_len(),
            final(self).spec_prefix_lookup().spec_entry(r.spec_index() as int) == prefix@,
            final(self).spec_prefix_lookup().spec_len() >= old(self).spec_prefix_lookup().spec_len(),
            forall|i: int|
                0 <= i < old(self).spec_prefix_lookup().spec_len()
                    ==> #[trigger] final(self).spec_prefix_lookup().spec_entry(i) == old(self).spec_prefix_lookup().spec_entry(i),
    {
        let r = self.prefix_lookup.get_id_mut(Prefix::new(String::from_str(prefix)));
        r
    }

    /// Whether a namespace id belongs to this store's namespace table.
    pub fn namespace_id_in_range(&self, id: NamespaceId) -> (r: bool)
        ensures
            r == (id.spec_index() < self.spec_namespace_lookup().spec_len()),
    {
        id.index() < self.namespace_lookup.len()
    }

    /// Whether a prefix id belongs to this store's prefix table.
    pub fn prefix_id_in_range(&self, id: PrefixId) -> (r: bool)
        ensures
            r == (id.spec_index() < self.spec_prefix_lookup().spec_len()),
    {
        id.index() < self.prefix_lookup.len()
    }

    /// A string occupies one slot of the prefix table: equal entries mean
    /// the same id.
    pub proof fn lemma_prefix_entry_unique(self, id: PrefixId)
        requires
            self.wf(),
            id.spec_index() < self.spec_prefix_lookup().spec_len(),
        ensures
            forall|pid: PrefixId|
                pid.spec_index() < self.spec_prefix_lookup().spec_len()
                    && #[trigger] self.spec_prefix_lookup().spec_entry(pid.spec_index() as int)
                    == self.spec_prefix_lookup().spec_entry(id.spec_index() as int) ==> pid == id,
    {
        assert forall|pid: PrefixId|
            pid.spec_index() < self.spec_prefix_lookup().spec_len()
                && #[trigger] self.spec_prefix_lookup().spec_entry(pid.spec_index() as int)
                == self.spec_prefix_lookup().spec_entry(id.spec_index() as int) implies pid
            == id by {
            if pid.spec_index() != id.spec_index() {
                if pid.spec_index() < id.spec_index() {
                    assert(self.spec_prefix_lookup().spec_entry(pid.spec_index() as int)
                        != self.spec_prefix_lookup().spec_entry(id.spec_index() as int));
                } else {
                    assert(self.spec_prefix_lookup().spec_entry(id.spec_index() as int)
                        != self.spec_prefix_lookup().spec_entry(pid.spec_index() as int));
                }
                assert(false);
            }
            crate::id::lemma_prefix_id_injective(pid, id);
        }
    }

    /// The pre-interned id of the empty namespace string.
    pub fn no_namespace(&self) -> (r: NamespaceId)
        ensures
            r == self.spec_no_namespace(),
    {
        self.no_namespace_id
    }

    /// The pre-interned id of the empty prefix string.
    pub fn empty_prefix(&self) -> (r: PrefixId)
        ensures
            r == self.spec_empty_prefix(),
    {
        self.empty_prefix_id
    }

    /// The namespace a name lives in.
    pub fn namespace_for_name(&self, name_id: NameId) -> (r: NamespaceId)
        requires
            self.wf(),
            name_id.spec_index() < self.spec_name_lookup().spec_len(),
        ensures
            r == self.spec_name_lookup().spec_entry(name_id.spec_index() as int).1,
            r.spec_index() < self.spec_namespace_lookup().spec_len(),
    {
        let r = self.name_lookup.get_value(name_id).namespace();
        proof {
            assert(self.spec_name_lookup().spec_entry(name_id.spec_index() as int).1.spec_index()
                < self.spec_namespace_lookup().spec_len());
        }
        r
    }

    /// The local name string of an interned name.
    pub fn local_name_str(&self, name_id: NameId) -> (r: &str)
        requires
            self.wf(),
            name_id.spec_index() < self.spec_name_lookup().spec_len(),
        ensures
            r@ == self.spec_name_lookup().spec_entry(name_id.spec_index() as int).0,
    {
        self.name_lookup.get_value(name_id).local()
    }

    /// The namespace URI string behind an interned namespace id.
    pub fn namespace_str(&self, namespace_id: NamespaceId) -> (r: &str)
        requires
            self.wf(),
            namespace_id.spec_index() < self.spec_namespace_lookup().spec_len(),
        ensures
            r@ == self.spec_namespace_lookup().spec_entry(namespace_id.spec_index() as int),
    {
        self.namespace_lookup.get_value(namespace_id).as_str()
    }

    /// The prefix string behind an interned prefix id.
    pub fn prefix_str(&self, prefix_id: PrefixId) -> (r: &str)
        requires
            self.wf(),
            prefix_id.spec_index() < self.spec_prefix_lookup().spec_len(),
        ensures
            r@ == self.spec_prefix_lookup().spec_entry(prefix_id.spec_index() as int),
    {
        self.prefix_lookup.get_value(prefix_id).as_str()
    }

    /// The text payload of the node, if it is a text node.
    pub fn text(&self, node: XmlNode) -> (r: Option<&Text>)
        requires
            self.wf(),
            self.live_node(node),
        ensures
            r is Some <==> self.value_at(node) is Text,
            r matches Some(t) ==> t.spec_get() == spec_text_of(self.value_at(node)),
    {
        match self.xml_value(node) {
            XmlValue::Text(t) => Some(t),
            _ => None,
        }
    }

    /// The text content of the node, if it is a text node.
    pub fn text_str(&self, node: XmlNode) -> (r: Option<&str>)
        requires
            self.wf(),
            self.live_node(node),
        ensures
            r is Some <==> self.value_at(node) is Text,
            r matches Some(t) ==> t@ == spec_text_of(self.value_at(node)),
    {
        match self.text(node) {
            Some(t) => Some(t.get()),
            None => None,
        }
    }

    /// The element payload of the node, if it is an element.
    pub fn element(&self, node: XmlNode) -> (r: Option<&Element>)
        requires
            self.wf(),
            self.live_node(node),
        ensures
            r is Some <==> self.value_at(node) is Element,
            r matches Some(e) ==> self.value_at(node) == XmlValue::Element(*e),
    {
        match self.xml_value(node) {
            XmlValue::Element(e) => Some(e),
            _ => None,
        }
    }

    /// The comment content of the node, if it is a comment.
    pub fn comment_str(&self, node: XmlNode) -> (r: Option<&str>)
        requires
            self.wf(),
            self.live_node(node),
        ensures
            r is Some <==> self.value_at(node) is Comment,
            r matches Some(t) ==> self.value_at(node) matches XmlValue::Comment(cm) && t@
                == cm.spec_get(),
    {
        match self.xml_value(node) {
            XmlValue::Comment(cm) => Some(cm.get()),
            _ => None,
        }
    }

    /// Declare, at an element node of the tree, that `prefix_id` denotes
    /// `namespace_id`. Everything else in the store is untouched.
    pub fn element_set_prefix(&mut self, node: XmlNode, prefix_id: PrefixId, namespace_id: NamespaceId)
        requires
            old(self).wf(),
            old(self).live_node(node),
            spec_is_element(old(self).spec_arena(), node.spec_index()),
        ensures
            final(self).wf(),
            XmlData::same_tables(*old(self), *final(self)),
            final(self).spec_arena().spec_len() == old(self).spec_arena().spec_len(),
            final(self).value_at(node) matches XmlValue::Element(e1) && (old(self).value_at(node)
                matches XmlValue::Element(e0) && {
                &&& e1.spec_name() == e0.spec_name()
                &&& e1.spec_namespace_for(prefix_id) == Some(namespace_id)
                &&& e1.spec_prefix_for(namespace_id) == Some(prefix_id)
                &&& (forall|p2: PrefixId|
                    p2 != prefix_id ==> e1.spec_namespace_for(p2) == e0.spec_namespace_for(p2))
                &&& (forall|n2: NamespaceId|
                    n2 != namespace_id ==> e1.spec_prefix_for(n2) == e0.spec_prefix_for(n2))
            }),
            forall|i: int|
                0 <= i < old(self).spec_arena().spec_len() && i != node.spec_index() ==> slot_eq(
                    old(self).spec_arena(),
                    final(self).spec_arena(),
                    i,
                ),
            final(self).spec_arena().spec_parent(node.spec_index()) == old(
                self,
            ).spec_arena().spec_parent(node.spec_index()),
            final(self).spec_arena().spec_kids(node.spec_index()) == old(
                self,
            ).spec_arena().spec_kids(node.spec_index()),
            final(self).live_node(node),
            shape_ok(old(self).spec_arena()) ==> shape_ok(final(self).spec_arena()),
            root_shape_all(old(self).spec_arena()) ==> root_shape_all(final(self).spec_arena()),
    {
        let n = node.get();
        let ghost a0 = self.spec_arena();
        let mut el = match self.arena.value(n) {
            XmlValue::Element(e) => e.duplicate(),
            _ => {
                proof {
                    assert(false);
                }
                Element::new(NameId::new(0))
            },
        };
        el.set_prefix(prefix_id, namespace_id);
        self.arena.set_value(n, XmlValue::Element(el));
        proof {
            let a1 = self.spec_arena();
            assert forall|m: int|
                a1.live(m) implies (#[trigger] a1.spec_value(m)).wf() && (a1.spec_value(
                m,
            ) matches XmlValue::Element(e) ==> e.spec_name().spec_index()
                < self.spec_name_lookup().spec_len()) by {
                assert(n as int == node.spec_index());
                assert(a1.spec_len() == a0.spec_len());
                if m != n as int {
                    assert(slot_eq(a0, a1, m));
                    assert(a1.spec_removed(m) == a0.spec_removed(m));
                    assert(a0.live(m));
                } else {
                    assert(a0.live(node.spec_index()));
                    assert(a1.spec_value(m) == XmlValue::Element(el));
                }
            }
            if shape_ok(a0) {
                assert forall|m: int|
                    #![trigger no_adjacent_text_at(a1, m)]
                    #![trigger root_shape_at(a1, m)]
                    a1.live(m) implies no_adjacent_text_at(a1, m) && root_shape_at(a1, m) by {
                    assert(a1.spec_len() == a0.spec_len());
                    assert(a0.live(m)) by {
                        if m != n as int {
                            assert(slot_eq(a0, a1, m));
                        } else {
                            assert(a0.live(node.spec_index()));
                        }
                    }
                    let t = a1.spec_kids(m);
                    assert(t == a0.spec_kids(m)) by {
                        if m != n as int {
                            assert(slot_eq(a0, a1, m));
                        }
                    }
                    assert(no_adjacent_text_at(a0, m));
                    assert(root_shape_at(a0, m));
                    assert forall|j: int|
                        0 <= j < t.len() implies spec_is_text(a1, (#[trigger] t[j]) as int)
                        == spec_is_text(a0, t[j] as int) && spec_is_element(a1, t[j] as int)
                        == spec_is_element(a0, t[j] as int) by {
                        assert(a0.live((a0.spec_kids(m)[j]) as int));
                        if t[j] as int != n as int {
                            assert(slot_eq(a0, a1, t[j] as int));
                        } else {
                            assert(a1.spec_value(t[j] as int) == XmlValue::Element(el));
                            assert(a0.spec_value(t[j] as int) is Element);
                        }
                    }
                    lemma_seq_nat_same(a0, a1, t);
                    assert(spec_is_root(a1, m) == spec_is_root(a0, m)) by {
                        if m != n as int {
                            assert(slot_eq(a0, a1, m));
                        }
                    }
                    if spec_is_root(a1, m) {
                        lemma_seq_root_same(a0, a1, t);
                    }
                }
            }
            if root_shape_all(a0) {
                assert(a1.spec_value(n as int).spec_value_type() == a0.spec_value(
                    n as int,
                ).spec_value_type());
                lemma_root_value_kind_kept(a0, a1, n as int);
            }
        }
    }

    /// Replace the tagged value of a node. The kinds of the old and new
    /// value must agree, so the document shape is undisturbed; contents
    /// (text, comment data, element declarations) may change freely. To
    /// change a node's kind, remove the node and insert a new one: the
    /// mutation engine then re-checks the document-shape rules.
    pub fn set_xml_value(&mut self, node: XmlNode, value: XmlValue)
        requires
            old(self).wf(),
            old(self).live_node(node),
            value.wf(),
            value matches XmlValue::Element(e) ==> e.spec_name().spec_index() < old(
                self,
            ).spec_name_lookup().spec_len(),
            value.spec_value_type() == old(self).value_at(node).spec_value_type(),
        ensures
            final(self).wf(),
            XmlData::same_tables(*old(self), *final(self)),
            final(self).spec_arena().spec_len() == old(self).spec_arena().spec_len(),
            final(self).value_at(node) == value,
            forall|i: int|
                0 <= i < old(self).spec_arena().spec_len() && i != node.spec_index() ==> slot_eq(
                    old(self).spec_arena(),
                    final(self).spec_arena(),
                    i,
                ),
            final(self).spec_arena().spec_parent(node.spec_index()) == old(
                self,
            ).spec_arena().spec_parent(node.spec_index()),
            final(self).spec_arena().spec_kids(node.spec_index()) == old(
                self,
            ).spec_arena().spec_kids(node.spec_index()),
            final(self).live_node(node),
            shape_ok(old(self).spec_arena()) ==> shape_ok(final(self).spec_arena()),
            root_shape_all(old(self).spec_arena()) ==> root_shape_all(final(self).spec_arena()),
    {
        let n = node.get();
        let ghost a0 = self.spec_arena();
        self.arena.set_value(n, value);
        proof {
            let a1 = self.spec_arena();
            assert forall|m: int|
                a1.live(m) implies (#[trigger] a1.spec_value(m)).wf() && (a1.spec_value(
                m,
            ) matches XmlValue::Element(e) ==> e.spec_name().spec_index()
                < self.spec_name_lookup().spec_len()) by {
                assert(a1.spec_len() == a0.spec_len());
                if m != n as int {
                    assert(slot_eq(a0, a1, m));
                    assert(a0.live(m));
                }
            }
            if shape_ok(a0) {
                assert forall|m: int|
                    #![trigger no_adjacent_text_at(a1, m)]
                    #![trigger root_shape_at(a1, m)]
                    a1.live(m) implies no_adjacent_text_at(a1, m) && root_shape_at(a1, m) by {
                    assert(a1.spec_len() == a0.spec_len());
                    assert(a0.live(m)) by {
                        if m != n as int {
                            assert(slot_eq(a0, a1, m));
                        } else {
                            assert(a0.live(node.spec_index()));
                        }
                    }
                    let t = a1.spec_kids(m);
                    assert(t == a0.spec_kids(m)) by {
                        if m != n as int {
                            assert(slot_eq(a0, a1, m));
                        }
                    }
                    assert(no_adjacent_text_at(a0, m));
                    assert(root_shape_at(a0, m));
                    assert forall|j: int|
                        0 <= j < t.len() implies spec_is_text(a1, (#[trigger] t[j]) as int)
                        == spec_is_text(a0, t[j] as int) && spec_is_element(a1, t[j] as int)
                        == spec_is_element(a0, t[j] as int) by {
                        assert(a0.live((a0.spec_kids(m)[j]) as int));
                        if t[j] as int != n as int {
                            assert(slot_eq(a0, a1, t[j] as int));
                        } else {
                            assert(a1.spec_value(t[j] as int) == value);
                            assert(value.spec_value_type() == a0.spec_value(
                                t[j] as int,
                            ).spec_value_type());
                        }
                    }
                    lemma_seq_nat_same(a0, a1, t);
                    assert(spec_is_root(a1, m) == spec_is_root(a0, m)) by {
                        if m != n as int {
                            assert(slot_eq(a0, a1, m));
                        } else {
                            assert(a1.spec_value(m) == value);
                        }
                    }
                    if spec_is_root(a1, m) {
                        lemma_seq_root_same(a0, a1, t);
                    }
                }
            }
            if root_shape_all(a0) {
                lemma_root_value_kind_kept(a0, a1, n as int);
            }
        }
    }

    /// The node and its ancestors, the node first, walking parent links
    /// toward the root for at most one step per slot of the store.
    pub fn ancestors(&self, node: XmlNode) -> (r: Vec<XmlNode>)
        requires
            self.wf(),
            self.live_node(node),
        ensures
            r@.len() > 0,
            r@[0] == node,
            forall|i: int|
                0 < i < r@.len() ==> self.spec_arena().spec_parent((#[trigger] r@[i - 1]).spec_index())
                    == Some(r@[i].spec_index() as usize),
            forall|i: int| 0 <= i < r@.len() ==> self.live_node(#[trigger] r@[i]),
            self.spec_arena().spec_parent(r@.last().spec_index()) is None || r@.len()
                == self.spec_arena().spec_len(),
    {
        let mut r: Vec<XmlNode> = Vec::new();
        let mut cur = node.get();
        let mut fuel = self.arena.len();
        r.push(node);
        proof {
            assert(r@[0] == node);
            assert(node.spec_index() == cur as int);
        }
        while fuel > 1
            invariant
                self.wf(),
                self.spec_arena().live(cur as int),
                1 <= fuel <= self.spec_arena().spec_len(),
                r@.len() >= 1,
                r@.len() + fuel == self.spec_arena().spec_len() + 1,
                r@[0] == node,
                r@.last().spec_index() == cur as int,
                forall|i: int|
                    0 < i < r@.len() ==> self.spec_arena().spec_parent(
                        (#[trigger] r@[i - 1]).spec_index(),
                    ) == Some(r@[i].spec_index() as usize),
                forall|i: int| 0 <= i < r@.len() ==> self.spec_arena().live((#[trigger] r@[i]).spec_index()),
            decreases fuel,
        {
            match self.arena.parent(cur) {
                Some(p) => {
                    r.push(XmlNode::new(p));
                    cur = p;
                    fuel = fuel - 1;
                },
                None => {
                    return r;
                },
            }
        }
        r
    }

    /// The children of the node, oldest first: insertion order is the only
    /// order.
    pub fn children(&self, node: XmlNode) -> (r: Vec<XmlNode>)
        requires
            self.wf(),
            self.live_node(node),
        ensures
            r@.len() == self.spec_arena().spec_kids(node.spec_index()).len(),
            forall|i: int|
                0 <= i < r@.len() ==> (#[trigger] r@[i]).spec_index() == self.spec_arena()
                    .spec_kids(node.spec_index())[i] && self.live_node(r@[i]),
    {
        let n = node.get();
        let count = self.arena.child_count(n);
        let mut r: Vec<XmlNode> = Vec::new();
        let mut i: usize = 0;
        while i < count
            invariant
                self.wf(),
                self.spec_arena().live(n as int),
                i <= count,
                count == self.spec_arena().spec_kids(n as int).len(),
                r@.len() == i,
                forall|j: int|
                    0 <= j < i ==> (#[trigger] r@[j]).spec_index() == self.spec_arena().spec_kids(
                        n as int,
                    )[j] && self.spec_arena().live(r@[j].spec_index()),
            decreases count - i,
        {
            let c = self.arena.child_at(n, i);
            proof {
                assert(self.spec_arena().spec_kids(n as int)[i as int] == c);
            }
            r.push(XmlNode::new(c));
            i += 1;
        }
        r
    }

    /// The children of the node, youngest first.
    pub fn reverse_children(&self, node: XmlNode) -> (r: Vec<XmlNode>)
        requires
            self.wf(),
            self.live_node(node),
        ensures
            r@.len() == self.spec_arena().spec_kids(node.spec_index()).len(),
            forall|i: int|
                0 <= i < r@.len() ==> (#[trigger] r@[i]).spec_index() == self.spec_arena()
                    .spec_kids(node.spec_index())[r@.len() - 1 - i] && self.live_node(r@[i]),
    {
        let n = node.get();
        let count = self.arena.child_count(n);
        let mut r: Vec<XmlNode> = Vec::new();
        let mut i: usize = 0;
        while i < count
            invariant
                self.wf(),
                self.spec_arena().live(n as int),
                i <= count,
                count == self.spec_arena().spec_kids(n as int).len(),
                r@.len() == i,
                forall|j: int|
                    0 <= j < i ==> (#[trigger] r@[j]).spec_index() == self.spec_arena().spec_kids(
                        n as int,
                    )[count - 1 - j] && self.spec_arena().live(r@[j].spec_index()),
            decreases count - i,
        {
            let c = self.arena.child_at(n, count - 1 - i);
            proof {
                assert(self.spec_arena().spec_kids(n as int)[count - 1 - i as int] == c);
            }
            r.push(XmlNode::new(c));
            i += 1;
        }
        r
    }

    /// Collect the pre-order listing below `n`, descending at most `fuel`
    /// levels.
    fn collect_preorder(&self, n: usize, fuel: usize, out: &mut Vec<XmlNode>)
        requires
            self.wf(),
            self.spec_arena().live(n as int),
        ensures
            final(out)@.len() == old(out)@.len() + spec_preorder(
                self.spec_arena(),
                n as int,
                fuel as nat,
            ).len(),
            forall|i: int| 0 <= i < old(out)@.len() ==> final(out)@[i] == old(out)@[i],
            forall|i: int|
                old(out)@.len() <= i < final(out)@.len() ==> (#[trigger] final(out)@[i]).spec_index() == spec_preorder(self.spec_arena(), n as int, fuel as nat)[i - old(out)@.len()],
        decreases fuel,
    {
        out.push(XmlNode::new(n));
        if fuel > 0 {
            let count = self.arena.child_count(n);
            let mut i: usize = 0;
            proof {
                assert(self.spec_arena().spec_kids(n as int).take(0)
                    =~= Seq::<usize>::empty());
            }
            while i < count
                invariant
                    self.wf(),
                    self.spec_arena().live(n as int),
                    fuel > 0,
                    i <= count,
                    count == self.spec_arena().spec_kids(n as int).len(),
                    out@.len() >= 1,
                    out@.len() == old(out)@.len() + 1 + spec_preorder_list(
                        self.spec_arena(),
                        self.spec_arena().spec_kids(n as int).take(i as int),
                        (fuel - 1) as nat,
                    ).len(),
                    forall|j: int| 0 <= j < old(out)@.len() ==> out@[j] == old(out)@[j],
                    out@[old(out)@.len() as int].spec_index() == n,
                    forall|j: int|
                        old(out)@.len() + 1 <= j < out@.len() ==> (
                        #[trigger] out@[j]).spec_index() == spec_preorder_list(
                            self.spec_arena(),
                            self.spec_arena().spec_kids(n as int).take(i as int),
                            (fuel - 1) as nat,
                        )[j - old(out)@.len() - 1],
                decreases count - i,
            {
                let c = self.arena.child_at(n, i);
                proof {
                    assert(self.spec_arena().spec_kids(n as int)[i as int] == c);
                }
                self.collect_preorder(c, fuel - 1, out);
                proof {
                    let a = self.spec_arena();
                    let ks = a.spec_kids(n as int);
                    assert(ks.take(i + 1) =~= ks.take(i as int) + seq![c]);
                    lemma_preorder_list_concat(
                        a,
                        ks.take(i as int),
                        seq![c],
                        (fuel - 1) as nat,
                    );
                    assert(seq![c].drop_first() =~= Seq::<usize>::empty());
                    assert(seq![c][0] == c);
                    assert(spec_preorder_list(
                        a,
                        Seq::<usize>::empty(),
                        (fuel - 1) as nat,
                    ) =~= Seq::<usize>::empty());
                    assert(spec_preorder_list(a, seq![c], (fuel - 1) as nat)
                        =~= spec_preorder(a, c as int, (fuel - 1) as nat) + spec_preorder_list(
                        a,
                        seq![c].drop_first(),
                        (fuel - 1) as nat,
                    ));
                    assert(spec_preorder_list(a, seq![c], (fuel - 1) as nat)
                        =~= spec_preorder(a, c as int, (fuel - 1) as nat));
                }
                i += 1;
            }
            proof {
                let a = self.spec_arena();
                let ks = a.spec_kids(n as int);
                assert(ks.take(count as int) =~= ks);
                assert(spec_preorder(a, n as int, fuel as nat) =~= seq![n]
                    + spec_preorder_list(a, ks, (fuel - 1) as nat));
            }
        } else {
            proof {
                assert(spec_preorder(self.spec_arena(), n as int, 0) =~= seq![n]);
            }
        }
    }

    /// The node and its whole subtree in pre-order, the node itself
    /// first, descending at most one level per slot of the store.
    pub fn descendants(&self, node: XmlNode) -> (r: Vec<XmlNode>)
        requires
            self.wf(),
            self.live_node(node),
        ensures
            r@.len() == spec_preorder(
                self.spec_arena(),
                node.spec_index(),
                self.spec_arena().spec_len(),
            ).len(),
            forall|i: int|
                0 <= i < r@.len() ==> (#[trigger] r@[i]).spec_index() == spec_preorder(
                    self.spec_arena(),
                    node.spec_index(),
                    self.spec_arena().spec_len(),
                )[i],
    {
        let mut out: Vec<XmlNode> = Vec::new();
        let fuel = self.arena.len();
        self.collect_preorder(node.get(), fuel, &mut out);
        out
    }

    /// Collect the edge walk below `n`, descending at most `fuel` levels.
    fn collect_edges(&self, n: usize, fuel: usize, out: &mut Vec<XmlNodeEdge>)
        requires
            self.wf(),
            self.spec_arena().live(n as int),
        ensures
            final(out)@ == old(out)@ + spec_edges(self.spec_arena(), n as int, fuel as nat),
        decreases fuel,
    {
        out.push(XmlNodeEdge::Start(XmlNode::new(n)));
        let ghost base = out@;
        proof {
            assert(base =~= old(out)@ + seq![spec_edge_start(n)]);
        }
        if fuel > 0 {
            let count = self.arena.child_count(n);
            let mut i: usize = 0;
            proof {
                assert(self.spec_arena().spec_kids(n as int).take(0) =~= Seq::<usize>::empty());
                assert(out@ =~= base + spec_edges_list(
                    self.spec_arena(),
                    self.spec_arena().spec_kids(n as int).take(0),
                    (fuel - 1) as nat,
                ));
            }
            while i < count
                invariant
                    self.wf(),
                    self.spec_arena().live(n as int),
                    fuel > 0,
                    i <= count,
                    count == self.spec_arena().spec_kids(n as int).len(),
                    out@ == base + spec_edges_list(
                        self.spec_arena(),
                        self.spec_arena().spec_kids(n as int).take(i as int),
                        (fuel - 1) as nat,
                    ),
                decreases count - i,
            {
                let c = self.arena.child_at(n, i);
                proof {
                    assert(self.spec_arena().spec_kids(n as int)[i as int] == c);
                }
                self.collect_edges(c, fuel - 1, out);
                proof {
                    let a = self.spec_arena();
                    let ks = a.spec_kids(n as int);
                    assert(ks.take(i + 1) =~= ks.take(i as int) + seq![c]);
                    lemma_edges_list_concat(a, ks.take(i as int), seq![c], (fuel - 1) as nat);
                    assert(seq![c].drop_first() =~= Seq::<usize>::empty());
                    assert(seq![c][0] == c);
                    assert(spec_edges_list(a, Seq::<usize>::empty(), (fuel - 1) as nat)
                        =~= Seq::<XmlNodeEdge>::empty());
                    assert(spec_edges_list(a, seq![c], (fuel - 1) as nat) =~= spec_edges(
                        a,
                        c as int,
                        (fuel - 1) as nat,
                    ));
                    assert(out@ =~= base + spec_edges_list(
                        a,
                        ks.take(i + 1),
                        (fuel - 1) as nat,
                    ));
                }
                i += 1;
            }
            out.push(XmlNodeEdge::End(XmlNode::new(n)));
            proof {
                let a = self.spec_arena();
                let ks = a.spec_kids(n as int);
                assert(ks.take(count as int) =~= ks);
                assert(out@ =~= old(out)@ + spec_edges(a, n as int, fuel as nat));
            }
        } else {
            out.push(XmlNodeEdge::End(XmlNode::new(n)));
            proof {
                assert(out@ =~= old(out)@ + spec_edges(
                    self.spec_arena(),
                    n as int,
                    0,
                ));
            }
        }
    }

    /// The start/end edge walk of the node's subtree, suitable for a
    /// streaming serializer that needs open and close events per subtree.
    pub fn traverse(&self, node: XmlNode) -> (r: Vec<XmlNodeEdge>)
        requires
            self.wf(),
            self.live_node(node),
        ensures
            r@ == spec_edges(
                self.spec_arena(),
                node.spec_index(),
                self.spec_arena().spec_len() as nat,
            ),
    {
        let mut out: Vec<XmlNodeEdge> = Vec::new();
        let fuel = self.arena.len();
        self.collect_edges(node.get(), fuel, &mut out);
        proof {
            assert(Seq::<XmlNodeEdge>::empty() + spec_edges(
                self.spec_arena(),
                node.spec_index(),
                fuel as nat,
            ) =~= spec_edges(self.spec_arena(), node.spec_index(), fuel as nat));
        }
        out
    }

    /// The same edge walk as `traverse`, in reverse order.
    pub fn reverse_traverse(&self, node: XmlNode) -> (r: Vec<XmlNodeEdge>)
        requires
            self.wf(),
            self.live_node(node),
        ensures
            ({
                let t = spec_edges(
                    self.spec_arena(),
                    node.spec_index(),
                    self.spec_arena().spec_len() as nat,
                );
                r@.len() == t.len() && (forall|i: int|
                    0 <= i < r@.len() ==> #[trigger] r@[i] == t[t.len() - 1 - i])
            }),
    {
        let fwd = self.traverse(node);
        let mut out: Vec<XmlNodeEdge> = Vec::new();
        let len = fwd.len();
        let mut i: usize = 0;
        while i < len
            invariant
                i <= len,
                len == fwd@.len(),
                out@.len() == i,
                forall|j: int| 0 <= j < i ==> #[trigger] out@[j] == fwd@[len - 1 - j],
            decreases len - i,
        {
            out.push(fwd[len - 1 - i]);
            i += 1;
        }
        out
    }

    /// The siblings after the node, nearest first.
    pub fn following_siblings(&self, node: XmlNode) -> (r: Vec<XmlNode>)
        requires
            self.wf(),
            self.live_node(node),
        ensures
            match self.spec_arena().spec_parent(node.spec_index()) {
                Some(q) => {
                    let ks = self.spec_arena().spec_kids(q as int);
                    let pos = ks.index_of_first(node.spec_index() as usize)->Some_0;
                    r@.len() == ks.len() - pos - 1 && (forall|i: int|
                        0 <= i < r@.len() ==> (#[trigger] r@[i]).spec_index() == ks[pos + 1 + i])
                },
                None => r@.len() == 0,
            },
    {
        let n = node.get();
        match self.arena.parent(n) {
            Some(q) => {
                let pos = self.arena.position_of(q, n);
                proof {
                    self.lemma_pos_is_index_of_first(q as int, n, pos as int);
                }
                let count = self.arena.child_count(q);
                let mut r: Vec<XmlNode> = Vec::new();
                let mut i: usize = pos + 1;
                while i < count
                    invariant
                        self.wf(),
                        self.spec_arena().live(q as int),
                        pos < i <= count,
                        count == self.spec_arena().spec_kids(q as int).len(),
                        r@.len() == i - pos - 1,
                        forall|j: int|
                            0 <= j < r@.len() ==> (#[trigger] r@[j]).spec_index() == self
                                .spec_arena()
                                .spec_kids(q as int)[pos + 1 + j],
                    decreases count - i,
                {
                    let c = self.arena.child_at(q, i);
                    proof {
                        assert(self.spec_arena().spec_kids(q as int)[i as int] == c);
                    }
                    r.push(XmlNode::new(c));
                    i += 1;
                }
                r
            },
            None => Vec::new(),
        }
    }

    /// The siblings before the node, nearest first.
    pub fn preceding_siblings(&self, node: XmlNode) -> (r: Vec<XmlNode>)
        requires
            self.wf(),
            self.live_node(node),
        ensures
            match self.spec_arena().spec_parent(node.spec_index()) {
                Some(q) => {
                    let ks = self.spec_arena().spec_kids(q as int);
                    let pos = ks.index_of_first(node.spec_index() as usize)->Some_0;
                    r@.len() == pos && (forall|i: int|
                        0 <= i < r@.len() ==> (#[trigger] r@[i]).spec_index() == ks[pos - 1 - i])
                },
                None => r@.len() == 0,
            },
    {
        let n = node.get();
        match self.arena.parent(n) {
            Some(q) => {
                let pos = self.arena.position_of(q, n);
                proof {
                    self.lemma_pos_is_index_of_first(q as int, n, pos as int);
                }
                let mut r: Vec<XmlNode> = Vec::new();
                let mut i: usize = 0;
                while i < pos
                    invariant
                        self.wf(),
                        self.spec_arena().live(q as int),
                        i <= pos,
                        pos < self.spec_arena().spec_kids(q as int).len(),
                        r@.len() == i,
                        forall|j: int|
                            0 <= j < i ==> (#[trigger] r@[j]).spec_index() == self.spec_arena()
                                .spec_kids(q as int)[pos - 1 - j],
                    decreases pos - i,
                {
                    let c = self.arena.child_at(q, pos - 1 - i);
                    proof {
                        assert(self.spec_arena().spec_kids(q as int)[pos - 1 - i as int] == c);
                    }
                    r.push(XmlNode::new(c));
                    i += 1;
                }
                r
            },
            None => Vec::new(),
        }
    }

    /// Build a document around a detached element: a fresh `Root` node is
    /// allocated and the element becomes its single element child.
    pub fn new_document(&mut self, element: XmlNode) -> (r: Result<Document, Error>)
        requires
            old(self).wf(),
            old(self).live_node(element),
            old(self).spec_arena().spec_len() < usize::MAX,
        ensures
            final(self).wf(),
            XmlData::same_tables(*old(self), *final(self)),
            ({
                let a0 = old(self).spec_arena();
                let a1 = final(self).spec_arena();
                let c = element.spec_index();
                &&& (r is Err <==> !(spec_is_element(a0, c) && a0.spec_parent(c) is None))
                &&& (r matches Err(e) ==> e is InvalidOperation && a1 == a0)
                &&& (r matches Ok(d) ==> {
                    let rt = d.spec_root().spec_index();
                    &&& rt == a0.spec_len()
                    &&& a1.spec_len() == a0.spec_len() + 1
                    &&& a1.live(rt)
                    &&& spec_is_root(a1, rt)
                    &&& a1.spec_kids(rt) =~= seq![c as usize]
                    &&& a1.spec_parent(c) == Some(rt as usize)
                    &&& (forall|i: int|
                        0 <= i < a0.spec_len() && i != c ==> slot_eq(a0, a1, i))
                    &&& a1.spec_value(c) == a0.spec_value(c)
                    &&& a1.spec_kids(c) == a0.spec_kids(c)
                })
                &&& (r is Ok && shape_ok(a0) ==> shape_ok(a1))
                &&& (root_shape_all(a0) ==> root_shape_all(a1))
            }),
    {
        if !self.is_element(element) {
            return Err(
                Error::InvalidOperation(String::from_str("Document root must be an element")),
            );
        }
        match self.parent(element) {
            Some(_) => {
                return Err(
                    Error::InvalidOperation(
                        String::from_str("Document root element must be detached"),
                    ),
                );
            },
            None => {},
        }
        let ghost a0 = self.spec_arena();
        let root = self.new_node(XmlValue::Root);
        let ghost am = self.spec_arena();
        proof {
            assert(slot_eq(a0, am, element.spec_index()));
            assert(am.live(element.spec_index()));
        }
        let res = self.append(root, element);
        proof {
            let c = element.spec_index();
            let rt = root.spec_index();
            assert(slot_eq(a0, am, c));
            assert(res is Ok) by {
                if res is Err {
                    assert(!spec_insert_blocked(am, rt, c)) by {
                        assert(!spec_is_root(am, c));
                        assert(!under_root(am, c));
                        assert(!has_element_kid(am, rt)) by {
                            if has_element_kid(am, rt) {
                                let i = choose|i: int|
                                    0 <= i < am.spec_kids(rt).len() && spec_is_element(
                                        am,
                                        (am.spec_kids(rt)[i]) as int,
                                    );
                            }
                        }
                        assert(!spec_is_text(am, c));
                    }
                    assert(!spec_chain_has(am, rt, c, am.spec_len())) by {
                        assert(rt != c);
                        assert(am.spec_parent(rt) is None);
                    }
                }
            }
            let a1 = self.spec_arena();
            assert(!spec_append_merges(am, rt, c));
            assert(spec_moved_to(am, a1, rt, c, am.spec_kids(rt).remove_value(c as usize).len() as int));
            assert(a1.spec_kids(rt) =~= seq![c as usize]) by {
                assert(am.spec_kids(rt) =~= Seq::<usize>::empty());
                lemma_remove_value_absent(am.spec_kids(rt), c as usize);
                am.spec_kids(rt).remove_value(c as usize).insert_ensures(0, c as usize);
            }
            assert forall|i: int| 0 <= i < a0.spec_len() && i != c implies slot_eq(a0, a1, i) by {
                assert(slot_eq(a0, am, i));
                assert(a1.spec_kids(i) == am.spec_kids(i).remove_value(c as usize));
                assert(!am.spec_kids(i).contains(c as usize)) by {
                    if am.live(i) {
                        am.lemma_orphan_in_no_kids(c as usize);
                    } else {
                        assert(am.spec_removed(i));
                    }
                }
                lemma_remove_value_absent(am.spec_kids(i), c as usize);
            }
            assert(a1.spec_kids(c) == am.spec_kids(c).remove_value(c as usize));
            assert(!am.spec_kids(c).contains(c as usize)) by {
                am.lemma_orphan_in_no_kids(c as usize);
            }
            lemma_remove_value_absent(am.spec_kids(c), c as usize);
        }
        match res {
            Ok(_) => Ok(Document::from_root(root)),
            Err(e) => {
                proof {
                    assert(false);
                }
                Err(e)
            },
        }
    }

    /// The single element child of the document's root node, guaranteed to
    /// exist by the document invariant: the first element among the root's
    /// children.
    pub fn root_element(&self, document: &Document) -> (r: XmlNode)
        requires
            self.wf(),
            self.live_node(document.spec_root()),
            has_element_kid(self.spec_arena(), document.spec_root().spec_index()),
        ensures
            self.live_node(r),
            spec_is_element(self.spec_arena(), r.spec_index()),
            ({
                let ks = self.spec_arena().spec_kids(document.spec_root().spec_index());
                exists|i: int|
                    #![trigger ks[i]]
                    0 <= i < ks.len() && ks[i] == r.spec_index() as usize && (forall|j: int|
                        0 <= j < i ==> !spec_is_element(self.spec_arena(), (#[trigger] ks[j]) as int))
            }),
    {
        let root = document.root();
        let n = root.get();
        let count = self.arena.child_count(n);
        let mut i: usize = 0;
        while i < count
            invariant
                self.wf(),
                self.spec_arena().live(n as int),
                n as int == document.spec_root().spec_index(),
                has_element_kid(self.spec_arena(), n as int),
                i <= count,
                count == self.spec_arena().spec_kids(n as int).len(),
                forall|j: int|
                    0 <= j < i ==> !spec_is_element(
                        self.spec_arena(),
                        (#[trigger] self.spec_arena().spec_kids(n as int)[j]) as int,
                    ),
            decreases count - i,
        {
            let c = self.arena.child_at(n, i);
            proof {
                assert(self.spec_arena().spec_kids(n as int)[i as int] == c);
            }
            let cn = XmlNode::new(c);
            if self.is_element(cn) {
                return cn;
            }
            i += 1;
        }
        proof {
            let ks = self.spec_arena().spec_kids(n as int);
            let j = choose|j: int| 0 <= j < ks.len() && spec_is_element(self.spec_arena(), (#[trigger] ks[j]) as int);
            assert(false);
        }
        XmlNode::new(0)
    }

    /// Absorb the text of `c` into the text node `target` and discard `c`
    /// together with its subtree.
    fn merge_text_into(&mut self, target: XmlNode, c: XmlNode, c_first: bool)
        requires
            old(self).wf(),
            old(self).live_node(target),
            old(self).live_node(c),
            spec_is_text(old(self).spec_arena(), target.spec_index()),
            spec_is_text(old(self).spec_arena(), c.spec_index()),
        ensures
            final(self).wf(),
            XmlData::same_tables(*old(self), *final(self)),
            final(self).spec_arena().spec_len() == old(self).spec_arena().spec_len(),
            spec_text_merged(
                old(self).spec_arena(),
                final(self).spec_arena(),
                target.spec_index(),
                c.spec_index(),
                c_first,
            ),
            shape_ok(old(self).spec_arena()) ==> shape_ok(final(self).spec_arena()),
            root_shape_all(old(self).spec_arena()) ==> root_shape_all(final(self).spec_arena()),
    {
        let tn = target.get();
        let cn = c.get();
        let ghost a0 = self.spec_arena();
        let merged_text: Option<String> = if cn != tn {
            let t_text = self.text_content(target);
            let c_text = self.text_content(c);
            Some(
                if c_first {
                    c_text.concat(t_text.as_str())
                } else {
                    t_text.concat(c_text.as_str())
                },
            )
        } else {
            None
        };
        if self.arena.parent(cn).is_some() {
            self.arena.unlink(cn);
        }
        let ghost amid = self.spec_arena();
        proof {
            assert(spec_unlinked(a0, amid, cn as int)) by {
                match a0.spec_parent(cn as int) {
                    Some(q) => {
                        let ks = a0.spec_kids(q as int);
                        let j = choose|j: int|
                            0 <= j < ks.len() && ks[j] == cn && amid.spec_kids(q as int)
                                == ks.remove(j);
                        lemma_remove_is_remove_value(ks, j, cn);
                        assert forall|i: int|
                            0 <= i < a0.spec_len() implies (#[trigger] amid.spec_kids(i))
                            == a0.spec_kids(i).remove_value(cn) by {
                            if i != q as int {
                                assert(!a0.spec_kids(i).contains(cn)) by {
                                    if a0.live(i) {
                                        a0.lemma_kid_of_parent_only(cn, q);
                                    } else {
                                        assert(a0.spec_removed(i));
                                        assert(a0.spec_kids(i).len() == 0);
                                    }
                                }
                                lemma_remove_value_absent(a0.spec_kids(i), cn);
                                if i != cn as int {
                                    assert(slot_eq(a0, amid, i));
                                }
                            }
                        }
                        assert forall|i: int|
                            0 <= i < a0.spec_len() && i != cn as int implies (
                        #[trigger] amid.spec_parent(i)) == a0.spec_parent(i) by {
                            if i != q as int {
                                assert(slot_eq(a0, amid, i));
                            }
                        }
                        assert forall|i: int|
                            0 <= i < a0.spec_len() implies (#[trigger] amid.spec_value(i))
                            == a0.spec_value(i) && amid.spec_removed(i) == a0.spec_removed(i) by {
                            if i != q as int && i != cn as int {
                                assert(slot_eq(a0, amid, i));
                            }
                        }
                    },
                    None => {
                        a0.lemma_orphan_in_no_kids(cn);
                        assert forall|i: int|
                            0 <= i < a0.spec_len() implies (#[trigger] amid.spec_kids(i))
                            == a0.spec_kids(i).remove_value(cn) by {
                            assert(!a0.spec_kids(i).contains(cn)) by {
                                if !a0.live(i) {
                                    assert(a0.spec_removed(i));
                                    assert(a0.spec_kids(i).len() == 0);
                                }
                            }
                            lemma_remove_value_absent(a0.spec_kids(i), cn);
                        }
                    },
                }
            }
        }
        self.arena.remove_subtree(cn);
        let ghost amid2 = self.spec_arena();
        proof {
            assert(spec_subtree_removed(amid, amid2, cn as int));
        }
        match merged_text {
            Some(m) => {
                if !self.arena.is_removed(tn) {
                    self.arena.set_value(tn, XmlValue::Text(Text::new(m)));
                    proof {
                        lemma_merge_assemble(
                            a0,
                            amid,
                            amid2,
                            self.spec_arena(),
                            tn as int,
                            cn as int,
                            c_first,
                            true,
                            m@,
                        );
                    }
                } else {
                    proof {
                        lemma_merge_assemble(
                            a0,
                            amid,
                            amid2,
                            self.spec_arena(),
                            tn as int,
                            cn as int,
                            c_first,
                            false,
                            m@,
                        );
                    }
                }
            },
            None => {
                proof {
                    lemma_merge_assemble(
                        a0,
                        amid,
                        amid2,
                        self.spec_arena(),
                        tn as int,
                        cn as int,
                        c_first,
                        false,
                        Seq::<char>::empty(),
                    );
                }
            },
        }
        proof {
            let a1 = self.spec_arena();
            assert(spec_text_merged(a0, a1, tn as int, cn as int, c_first));
            assert forall|n: int|
                a1.live(n) implies (#[trigger] a1.spec_value(n)).wf() && (a1.spec_value(
                n,
            ) matches XmlValue::Element(e) ==> e.spec_name().spec_index()
                < self.spec_name_lookup().spec_len()) by {
                assert(a0.live(n));
                assert(!spec_descends(a0, n, cn as int)) by {
                    if spec_descends(a0, n, cn as int) {
                        assert(a1.spec_removed(n));
                    }
                }
                assert(n != cn as int) by {
                    assert(spec_chain_has(a0, cn as int, cn as int, 0));
                }
                assert(a1.spec_kids(n) == a0.spec_kids(n).remove_value(cn));
                if n == tn as int {
                    assert(spec_is_text(a1, n));
                } else {
                    assert(a1.spec_value(n) == a0.spec_value(n));
                }
            }
            if shape_ok(a0) {
                lemma_shape_merged(a0, a1, tn as int, cn as int, c_first);
            }
            if root_shape_all(a0) {
                lemma_root_merged(a0, a1, tn as int, cn as int, c_first);
            }
        }
    }
}

} // verus!
