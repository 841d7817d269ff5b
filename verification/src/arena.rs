//! The arena of node slots: stable handles, raw graph links, liveness.
//!
//! Every node lives in a slot addressed by a stable index. A slot stores the
//! node's tagged value, its optional parent link, its ordered children and a
//! liveness flag. Links are index fields, never owning references, so the
//! parent/children/sibling graph has no ownership cycles. This layer
//! guarantees link consistency only; document-shape rules are the mutation
//! engine's job.

use vstd::prelude::*;

use crate::xmlvalue::XmlValue;

verus! {

/// The slot store. Each of the four columns holds one field of every slot;
/// index `n` across the columns makes up node `n`.
pub struct XmlArena {
    pub(crate) values: Vec<XmlValue>,
    pub(crate) parents: Vec<Option<usize>>,
    pub(crate) children: Vec<Vec<usize>>,
    pub(crate) removed: Vec<bool>,
}

/// Slot `i` is identical in both arenas: same value, links and liveness.
pub open spec fn slot_eq(a: XmlArena, b: XmlArena, i: int) -> bool {
    &&& a.spec_value(i) == b.spec_value(i)
    &&& a.spec_parent(i) == b.spec_parent(i)
    &&& a.spec_kids(i) == b.spec_kids(i)
    &&& a.spec_removed(i) == b.spec_removed(i)
}

/// Inserting a fresh element keeps a children list duplicate-free, and the
/// members afterwards are the old members plus the new one.
pub proof fn lemma_insert_no_dup(s: Seq<usize>, pos: int, x: usize)
    requires
        0 <= pos <= s.len(),
        s.no_duplicates(),
        !s.contains(x),
    ensures
        s.insert(pos, x).no_duplicates(),
        forall|y: usize| s.insert(pos, x).contains(y) <==> (s.contains(y) || y == x),
{
    s.insert_ensures(pos, x);
    let t = s.insert(pos, x);
    assert forall|i: int, j: int|
        0 <= i < t.len() && 0 <= j < t.len() && i != j implies t[i] != t[j] by {
        if i < pos {
            assert(t[i] == s[i]);
        } else if i == pos {
            assert(t[i] == x);
        } else {
            assert(t[i] == s[i - 1]);
        }
        if j < pos {
            assert(t[j] == s[j]);
        } else if j == pos {
            assert(t[j] == x);
        } else {
            assert(t[j] == s[j - 1]);
        }
        if i != pos && j != pos {
        } else if i == pos {
            assert(s.contains(t[j])) by {
                let sj = if j < pos {
                    j
                } else {
                    j - 1
                };
                assert(t[j] == s[sj]);
            }
        } else {
            assert(s.contains(t[i])) by {
                let si = if i < pos {
                    i
                } else {
                    i - 1
                };
                assert(t[i] == s[si]);
            }
        }
    }
    assert forall|y: usize| t.contains(y) <==> (s.contains(y) || y == x) by {
        if t.contains(y) {
            let i = choose|i: int| 0 <= i < t.len() && t[i] == y;
            if i < pos {
                assert(t[i] == s[i]);
            } else if i == pos {
                assert(t[i] == x);
            } else {
                assert(t[i] == s[i - 1]);
            }
        }
        if s.contains(y) {
            let i = choose|i: int| 0 <= i < s.len() && s[i] == y;
            if i < pos {
                assert(t[i] == s[i]);
            } else {
                assert(t[i + 1] == s[i]);
            }
        }
        if y == x {
            assert(t[pos] == x);
        }
    }
}

/// Removing an element keeps a children list duplicate-free, and with
/// distinct members removes exactly that element from the membership.
pub proof fn lemma_remove_no_dup(s: Seq<usize>, pos: int)
    requires
        0 <= pos < s.len(),
        s.no_duplicates(),
    ensures
        s.remove(pos).no_duplicates(),
        forall|y: usize| s.remove(pos).contains(y) <==> (s.contains(y) && y != s[pos]),
{
    s.remove_ensures(pos);
    let t = s.remove(pos);
    assert forall|i: int, j: int|
        0 <= i < t.len() && 0 <= j < t.len() && i != j implies t[i] != t[j] by {
        if i < pos {
            assert(t[i] == s[i]);
        } else {
            assert(t[i] == s[i + 1]);
        }
        if j < pos {
            assert(t[j] == s[j]);
        } else {
            assert(t[j] == s[j + 1]);
        }
    }
    assert forall|y: usize| t.contains(y) <==> (s.contains(y) && y != s[pos]) by {
        if t.contains(y) {
            let i = choose|i: int| 0 <= i < t.len() && t[i] == y;
            if i < pos {
                assert(t[i] == s[i]);
            } else {
                assert(t[i] == s[i + 1]);
            }
        }
        if s.contains(y) && y != s[pos] {
            let i = choose|i: int| 0 <= i < s.len() && s[i] == y;
            if i < pos {
                assert(t[i] == s[i]);
            } else {
                assert(i > pos);
                assert(t[i - 1] == s[i]);
            }
        }
    }
}

/// The parent chain starting at `node` reaches `anc` within `fuel` steps.
///
/// With `fuel` at least the arena size this is exactly "`anc` is `node` or
/// an ancestor of `node`" on any tree the mutation engine can build.
pub open spec fn spec_chain_has(a: XmlArena, node: int, anc: int, fuel: nat) -> bool
    decreases fuel,
{
    if node == anc {
        true
    } else if fuel == 0 || !a.in_bounds(node) {
        false
    } else {
        match a.spec_parent(node) {
            Some(p) => spec_chain_has(a, p as int, anc, (fuel - 1) as nat),
            None => false,
        }
    }
}

/// The parent chain from `node` reaches `anc` in some number of steps.
pub open spec fn spec_descends(a: XmlArena, node: int, anc: int) -> bool {
    exists|fuel: nat| spec_chain_has(a, node, anc, fuel)
}

/// In an arena where every still-live slot is untouched, a removed node
/// takes all nodes that descended from it with it.
proof fn lemma_chain_removed(a: XmlArena, b: XmlArena, i: int, node: int, f: nat)
    requires
        a.wf(),
        b.wf(),
        b.spec_len() == a.spec_len(),
        b.in_bounds(node),
        b.spec_removed(node),
        forall|j: int| b.live(j) ==> slot_eq(a, b, j),
        a.live(i),
        spec_chain_has(a, i, node, f),
    ensures
        b.spec_removed(i),
    decreases f,
{
    if i == node {
    } else {
        let q = a.spec_parent(i)->Some_0 as int;
        assert(a.live(q));
        lemma_chain_removed(a, b, q, node, (f - 1) as nat);
        if b.live(i) {
            assert(slot_eq(a, b, i));
            assert(b.spec_parent(i) == Some(a.spec_parent(i)->Some_0));
            assert(b.live(q));
            assert(false);
        }
    }
}

/// How many of the first `upto` slots are still live.
pub closed spec fn count_live_upto(a: XmlArena, upto: int) -> nat
    decreases upto,
{
    if upto <= 0 {
        0
    } else {
        count_live_upto(a, upto - 1) + if a.spec_removed(upto - 1) {
            0nat
        } else {
            1nat
        }
    }
}

/// The total number of child links among the first `upto` slots.
pub closed spec fn kids_total_upto(a: XmlArena, upto: int) -> nat
    decreases upto,
{
    if upto <= 0 {
        0
    } else {
        kids_total_upto(a, upto - 1) + a.spec_kids(upto - 1).len()
    }
}

proof fn lemma_count_live_same(a: XmlArena, b: XmlArena, upto: int)
    requires
        forall|i: int| 0 <= i < upto ==> a.spec_removed(i) == b.spec_removed(i),
    ensures
        count_live_upto(a, upto) == count_live_upto(b, upto),
    decreases upto,
{
    if upto > 0 {
        lemma_count_live_same(a, b, upto - 1);
    }
}

proof fn lemma_count_live_drop(a: XmlArena, b: XmlArena, upto: int, j: int)
    requires
        0 <= j < upto,
        !a.spec_removed(j),
        b.spec_removed(j),
        forall|i: int| 0 <= i < upto && i != j ==> a.spec_removed(i) == b.spec_removed(i),
    ensures
        count_live_upto(b, upto) == count_live_upto(a, upto) - 1,
    decreases upto,
{
    if j == upto - 1 {
        lemma_count_live_same(a, b, upto - 1);
    } else {
        lemma_count_live_drop(a, b, upto - 1, j);
    }
}

proof fn lemma_kids_total_same(a: XmlArena, b: XmlArena, upto: int)
    requires
        forall|i: int| 0 <= i < upto ==> a.spec_kids(i).len() == b.spec_kids(i).len(),
    ensures
        kids_total_upto(a, upto) == kids_total_upto(b, upto),
    decreases upto,
{
    if upto > 0 {
        lemma_kids_total_same(a, b, upto - 1);
    }
}

proof fn lemma_kids_total_drop(a: XmlArena, b: XmlArena, upto: int, j: int)
    requires
        0 <= j < upto,
        b.spec_kids(j).len() == a.spec_kids(j).len() - 1,
        forall|i: int| 0 <= i < upto && i != j ==> a.spec_kids(i).len() == b.spec_kids(i).len(),
    ensures
        kids_total_upto(b, upto) == kids_total_upto(a, upto) - 1,
    decreases upto,
{
    if j == upto - 1 {
        lemma_kids_total_same(a, b, upto - 1);
    } else {
        lemma_kids_total_drop(a, b, upto - 1, j);
    }
}

/// Copy a children list element by element.
fn copy_kids(v: &Vec<usize>) -> (r: Vec<usize>)
    ensures
        r@ == v@,
{
    let mut r: Vec<usize> = Vec::new();
    let mut i: usize = 0;
    while i < v.len()
        invariant
            i <= v@.len(),
            r@ == v@.subrange(0, i as int),
        decreases v@.len() - i,
    {
        r.push(v[i]);
        proof {
            assert(r@ =~= v@.subrange(0, i as int + 1));
        }
        i += 1;
    }
    proof {
        assert(r@ =~= v@);
    }
    r
}

impl XmlArena {
    /// All four columns have one entry per slot.
    pub closed spec fn storage_ok(self) -> bool {
        &&& self.values@.len() <= usize::MAX
        &&& self.parents@.len() == self.values@.len()
        &&& self.children@.len() == self.values@.len()
        &&& self.removed@.len() == self.values@.len()
    }

    /// How many slots have ever been allocated.
    pub closed spec fn spec_len(self) -> nat {
        self.values@.len()
    }

    /// The liveness flag: a removed slot's handle is permanently invalid.
    pub closed spec fn spec_removed(self, n: int) -> bool {
        self.removed@[n]
    }

    /// The tagged value stored in slot `n`.
    pub closed spec fn spec_value(self, n: int) -> XmlValue {
        self.values@[n]
    }

    /// The parent link of slot `n`.
    pub closed spec fn spec_parent(self, n: int) -> Option<usize> {
        self.parents@[n]
    }

    /// The ordered children of slot `n`.
    pub closed spec fn spec_kids(self, n: int) -> Seq<usize> {
        self.children@[n]@
    }

    pub open spec fn in_bounds(self, n: int) -> bool {
        0 <= n < self.spec_len()
    }

    /// The slot exists and has not been removed.
    pub open spec fn live(self, n: int) -> bool {
        self.in_bounds(n) && !self.spec_removed(n)
    }

    /// Link consistency: children lists hold distinct live nodes whose
    /// parent link points back; a parent link is mirrored by membership in
    /// that parent's children; no node is its own parent; removed slots are
    /// fully unlinked.
    pub open spec fn wf(self) -> bool {
        &&& self.storage_ok()
        &&& (forall|n: int| self.live(n) ==> (#[trigger] self.spec_kids(n)).no_duplicates())
        &&& (forall|n: int, i: int|
            self.live(n) && 0 <= i < self.spec_kids(n).len() ==> {
                let c = (#[trigger] self.spec_kids(n)[i]) as int;
                &&& self.live(c)
                &&& self.spec_parent(c) == Some(n as usize)
            })
        &&& (forall|n: int|
            self.live(n) && (#[trigger] self.spec_parent(n)) is Some ==> {
                let p = self.spec_parent(n)->Some_0 as int;
                &&& self.live(p)
                &&& p != n
                &&& self.spec_kids(p).contains(n as usize)
            })
        &&& (forall|n: int|
            self.in_bounds(n) && #[trigger] self.spec_removed(n) ==> self.spec_parent(n) is None
                && self.spec_kids(n).len() == 0)
    }

    /// A node with no parent link sits in no children list.
    pub proof fn lemma_orphan_in_no_kids(self, c: usize)
        requires
            self.wf(),
            self.in_bounds(c as int),
            self.spec_parent(c as int) is None,
        ensures
            forall|n: int| self.live(n) ==> !(#[trigger] self.spec_kids(n)).contains(c),
    {
        assert forall|n: int| self.live(n) implies !(#[trigger] self.spec_kids(n)).contains(c) by {
            if self.spec_kids(n).contains(c) {
                let i = choose|i: int|
                    0 <= i < self.spec_kids(n).len() && self.spec_kids(n)[i] == c;
                assert(self.spec_kids(n)[i] == c);
                assert(self.spec_parent(c as int) == Some(n as usize));
            }
        }
    }

    /// A node sits in the children list of its parent only.
    pub proof fn lemma_kid_of_parent_only(self, c: usize, p: usize)
        requires
            self.wf(),
            self.in_bounds(c as int),
            self.spec_parent(c as int) == Some(p),
        ensures
            forall|n: int| self.live(n) && n != p ==> !(#[trigger] self.spec_kids(n)).contains(c),
    {
        assert forall|n: int|
            self.live(n) && n != p implies !(#[trigger] self.spec_kids(n)).contains(c) by {
            if self.spec_kids(n).contains(c) {
                let i = choose|i: int|
                    0 <= i < self.spec_kids(n).len() && self.spec_kids(n)[i] == c;
                assert(self.spec_kids(n)[i] == c);
                assert(self.spec_parent(c as int) == Some(n as usize));
                assert(false);
            }
        }
    }

    /// No more slots than `usize` can index.
    pub proof fn lemma_len_bound(self)
        requires
            self.wf(),
        ensures
            self.spec_len() <= usize::MAX,
    {
    }

    /// An empty arena.
    pub fn new() -> (a: XmlArena)
        ensures
            a.spec_len() == 0,
            a.wf(),
    {
        XmlArena {
            values: Vec::new(),
            parents: Vec::new(),
            children: Vec::new(),
            removed: Vec::new(),
        }
    }

    pub fn len(&self) -> (r: usize)
        ensures
            r == self.spec_len(),
    {
        self.values.len()
    }

    /// Allocate a fresh slot: unattached, childless, live.
    pub(crate) fn new_slot(&mut self, value: XmlValue) -> (n: usize)
        requires
            old(self).wf(),
            old(self).spec_len() < usize::MAX,
        ensures
            final(self).wf(),
            n == old(self).spec_len(),
            final(self).spec_len() == old(self).spec_len() + 1,
            final(self).live(n as int),
            final(self).spec_parent(n as int) is None,
            final(self).spec_kids(n as int) == Seq::<usize>::empty(),
            final(self).spec_value(n as int) == value,
            forall|i: int| 0 <= i < old(self).spec_len() ==> slot_eq(*old(self), *final(self), i),
    {
        let n = self.values.len();
        self.values.push(value);
        self.parents.push(None);
        self.children.push(Vec::new());
        self.removed.push(false);
        proof {
            let a = *old(self);
            let b = *self;
            assert(b.spec_kids(n as int) =~= Seq::<usize>::empty());
            assert(forall|i: int| 0 <= i < a.spec_len() ==> slot_eq(a, b, i));
            assert forall|m: int| b.live(m) implies (#[trigger] b.spec_kids(
                m,
            )).no_duplicates() by {
                if m < n {
                    assert(b.spec_kids(m) == a.spec_kids(m));
                }
            }
            assert forall|m: int, i: int|
                b.live(m) && 0 <= i < b.spec_kids(m).len() implies {
                let c = (#[trigger] b.spec_kids(m)[i]) as int;
                b.live(c) && b.spec_parent(c) == Some(m as usize)
            } by {
                if m < n {
                    let c = b.spec_kids(m)[i] as int;
                    assert(a.spec_kids(m)[i] == b.spec_kids(m)[i]);
                    assert(a.live(c) && a.spec_parent(c) == Some(m as usize));
                }
            }
            assert forall|m: int|
                b.live(m) && (#[trigger] b.spec_parent(m)) is Some implies {
                let p = b.spec_parent(m)->Some_0 as int;
                b.live(p) && p != m && b.spec_kids(p).contains(m as usize)
            } by {
                if m < n {
                    assert(a.spec_parent(m) == b.spec_parent(m));
                    let p = b.spec_parent(m)->Some_0 as int;
                    assert(a.live(p) && p != m && a.spec_kids(p).contains(m as usize));
                }
            }
            assert forall|m: int|
                b.in_bounds(m) && #[trigger] b.spec_removed(m) implies b.spec_parent(m) is None
                && b.spec_kids(m).len() == 0 by {
                assert(!b.spec_removed(n as int));
                assert(m < n);
                assert(slot_eq(a, b, m));
                assert(a.spec_removed(m));
            }
        }
        n
    }

    /// Read the value in a slot.
    pub fn value(&self, n: usize) -> (r: &XmlValue)
        requires
            self.in_bounds(n as int),
        ensures
            *r == self.spec_value(n as int),
    {
        &self.values[n]
    }

    /// Replace the value in a slot; links and liveness stay as they were.
    pub(crate) fn set_value(&mut self, n: usize, value: XmlValue)
        requires
            old(self).storage_ok(),
            old(self).in_bounds(n as int),
        ensures
            final(self).spec_len() == old(self).spec_len(),
            final(self).storage_ok(),
            final(self).spec_value(n as int) == value,
            final(self).spec_parent(n as int) == old(self).spec_parent(n as int),
            final(self).spec_kids(n as int) == old(self).spec_kids(n as int),
            final(self).spec_removed(n as int) == old(self).spec_removed(n as int),
            forall|i: int|
                0 <= i < old(self).spec_len() && i != n ==> slot_eq(*old(self), *final(self), i),
            old(self).wf() ==> final(self).wf(),
    {
        self.values.set(n, value);
        proof {
            let a = *old(self);
            let b = *self;
            if a.wf() {
                assert forall|m: int| b.live(m) implies (#[trigger] b.spec_kids(
                    m,
                )).no_duplicates() by {
                    assert(b.spec_kids(m) == a.spec_kids(m));
                }
                assert forall|m: int, i: int|
                    b.live(m) && 0 <= i < b.spec_kids(m).len() implies {
                    let c = (#[trigger] b.spec_kids(m)[i]) as int;
                    b.live(c) && b.spec_parent(c) == Some(m as usize)
                } by {
                    let c = b.spec_kids(m)[i] as int;
                    assert(a.spec_kids(m)[i] == b.spec_kids(m)[i]);
                    assert(a.live(c) && a.spec_parent(c) == Some(m as usize));
                }
                assert forall|m: int|
                    b.live(m) && (#[trigger] b.spec_parent(m)) is Some implies {
                    let p = b.spec_parent(m)->Some_0 as int;
                    b.live(p) && p != m && b.spec_kids(p).contains(m as usize)
                } by {
                    assert(a.spec_parent(m) == b.spec_parent(m));
                    let p = b.spec_parent(m)->Some_0 as int;
                    assert(a.live(p) && p != m && a.spec_kids(p).contains(m as usize));
                }
                assert forall|m: int|
                    b.in_bounds(m) && #[trigger] b.spec_removed(m) implies b.spec_parent(m)
                    is None && b.spec_kids(m).len() == 0 by {
                    assert(a.spec_removed(m));
                    assert(b.spec_parent(m) == a.spec_parent(m));
                    assert(b.spec_kids(m) == a.spec_kids(m));
                }
            }
        }
    }

    /// Read the parent link.
    pub fn parent(&self, n: usize) -> (r: Option<usize>)
        requires
            self.storage_ok(),
            self.in_bounds(n as int),
        ensures
            r == self.spec_parent(n as int),
    {
        self.parents[n]
    }

    /// Whether the slot's handle has been invalidated.
    pub fn is_removed(&self, n: usize) -> (r: bool)
        requires
            self.storage_ok(),
            self.in_bounds(n as int),
        ensures
            r == self.spec_removed(n as int),
    {
        self.removed[n]
    }

    pub fn child_count(&self, n: usize) -> (r: usize)
        requires
            self.storage_ok(),
            self.in_bounds(n as int),
        ensures
            r == self.spec_kids(n as int).len(),
    {
        self.children[n].len()
    }

    pub fn child_at(&self, n: usize, i: usize) -> (r: usize)
        requires
            self.storage_ok(),
            self.in_bounds(n as int),
            i < self.spec_kids(n as int).len(),
        ensures
            r == self.spec_kids(n as int)[i as int],
    {
        self.children[n][i]
    }

    /// The index of a child in its parent's children list.
    pub(crate) fn position_of(&self, p: usize, c: usize) -> (r: usize)
        requires
            self.storage_ok(),
            self.in_bounds(p as int),
            self.spec_kids(p as int).contains(c),
        ensures
            r < self.spec_kids(p as int).len(),
            self.spec_kids(p as int)[r as int] == c,
    {
        let n = self.children[p].len();
        let mut i: usize = 0;
        while i < n
            invariant
                i <= n,
                n == self.spec_kids(p as int).len(),
                self.storage_ok(),
                self.in_bounds(p as int),
                self.spec_kids(p as int).contains(c),
                forall|j: int| 0 <= j < i ==> self.spec_kids(p as int)[j] != c,
            decreases n - i,
        {
            if self.children[p][i] == c {
                return i;
            }
            i += 1;
        }
        proof {
            let j = choose|j: int|
                0 <= j < self.spec_kids(p as int).len() && self.spec_kids(p as int)[j] == c;
            assert(false);
        }
        0
    }

    /// Link a parentless node `c` into `p`'s children at position `idx`.
    pub(crate) fn attach_at(&mut self, p: usize, idx: usize, c: usize)
        requires
            old(self).wf(),
            old(self).live(p as int),
            old(self).live(c as int),
            old(self).spec_parent(c as int) is None,
            idx <= old(self).spec_kids(p as int).len(),
            c != p,
        ensures
            final(self).wf(),
            final(self).spec_len() == old(self).spec_len(),
            final(self).spec_kids(p as int) == old(self).spec_kids(p as int).insert(idx as int, c),
            final(self).spec_parent(c as int) == Some(p),
            final(self).spec_kids(c as int) == old(self).spec_kids(c as int),
            final(self).spec_value(c as int) == old(self).spec_value(c as int),
            final(self).spec_removed(c as int) == old(self).spec_removed(c as int),
            final(self).spec_parent(p as int) == old(self).spec_parent(p as int),
            final(self).spec_value(p as int) == old(self).spec_value(p as int),
            final(self).spec_removed(p as int) == old(self).spec_removed(p as int),
            forall|i: int|
                0 <= i < old(self).spec_len() && i != p && i != c ==> slot_eq(
                    *old(self),
                    *final(self),
                    i,
                ),
    {
        proof {
            old(self).lemma_orphan_in_no_kids(c);
        }
        let mut ks = copy_kids(&self.children[p]);
        ks.insert(idx, c);
        self.children.set(p, ks);
        self.parents.set(c, Some(p));
        proof {
            let a = *old(self);
            let b = *self;
            let s = a.spec_kids(p as int);
            let t = b.spec_kids(p as int);
            assert(t == s.insert(idx as int, c));
            assert(!s.contains(c));
            lemma_insert_no_dup(s, idx as int, c);
            s.insert_ensures(idx as int, c);
            assert(forall|i: int|
                0 <= i < b.spec_len() && i != c ==> b.spec_parent(i) == a.spec_parent(i));
            assert(forall|i: int|
                0 <= i < b.spec_len() && i != p ==> b.spec_kids(i) == a.spec_kids(i));
            assert(forall|i: int|
                0 <= i < b.spec_len() ==> b.spec_removed(i) == a.spec_removed(i) && b.spec_value(i)
                    == a.spec_value(i));
            assert forall|m: int| b.live(m) implies (#[trigger] b.spec_kids(
                m,
            )).no_duplicates() by {
                if m != p {
                    assert(b.spec_kids(m) == a.spec_kids(m));
                }
            }
            assert forall|m: int, i: int|
                b.live(m) && 0 <= i < b.spec_kids(m).len() implies {
                let ch = (#[trigger] b.spec_kids(m)[i]) as int;
                b.live(ch) && b.spec_parent(ch) == Some(m as usize)
            } by {
                let ch = b.spec_kids(m)[i] as int;
                if m == p as int {
                    assert(t.contains(t[i]));
                    if ch == c as int {
                        assert(b.spec_parent(ch) == Some(p));
                    } else {
                        assert(s.contains(ch as usize));
                        let si = choose|si: int| 0 <= si < s.len() && s[si] == ch as usize;
                        assert(a.spec_kids(p as int)[si] == ch as usize);
                        assert(a.live(ch) && a.spec_parent(ch) == Some(p));
                        assert(b.spec_parent(ch) == a.spec_parent(ch));
                    }
                } else {
                    assert(b.spec_kids(m) == a.spec_kids(m));
                    assert(a.live(m));
                    assert(a.spec_kids(m)[i] == b.spec_kids(m)[i]);
                    assert(a.live(ch) && a.spec_parent(ch) == Some(m as usize));
                    if ch == c as int {
                        assert(a.spec_kids(m).contains(c));
                        assert(false);
                    }
                    assert(b.spec_parent(ch) == a.spec_parent(ch));
                }
            }
            assert forall|m: int|
                b.live(m) && (#[trigger] b.spec_parent(m)) is Some implies {
                let q = b.spec_parent(m)->Some_0 as int;
                b.live(q) && q != m && b.spec_kids(q).contains(m as usize)
            } by {
                let q = b.spec_parent(m)->Some_0 as int;
                if m == c as int {
                    assert(q == p as int);
                    assert(t.contains(c));
                } else {
                    assert(b.spec_parent(m) == a.spec_parent(m));
                    assert(a.live(m));
                    assert(a.live(q) && q != m && a.spec_kids(q).contains(m as usize));
                    if q == p as int {
                        assert(t.contains(m as usize));
                    } else {
                        assert(b.spec_kids(q) == a.spec_kids(q));
                    }
                    assert(b.spec_removed(q) == a.spec_removed(q));
                }
            }
            assert forall|m: int|
                b.in_bounds(m) && #[trigger] b.spec_removed(m) implies b.spec_parent(m) is None
                && b.spec_kids(m).len() == 0 by {
                assert(a.spec_removed(m));
                assert(m != p && m != c);
                assert(b.spec_parent(m) == a.spec_parent(m));
                assert(b.spec_kids(m) == a.spec_kids(m));
            }
        }
    }

    /// Unlink a node from its parent; the node and its subtree stay live.
    pub(crate) fn unlink(&mut self, c: usize)
        requires
            old(self).wf(),
            old(self).live(c as int),
            old(self).spec_parent(c as int) is Some,
        ensures
            final(self).wf(),
            final(self).spec_len() == old(self).spec_len(),
            ({
                let p = old(self).spec_parent(c as int)->Some_0 as int;
                &&& final(self).spec_parent(c as int) is None
                &&& exists|i: int|
                    0 <= i < old(self).spec_kids(p).len() && old(self).spec_kids(p)[i] == c
                        && final(self).spec_kids(p) == old(self).spec_kids(p).remove(i)
                &&& final(self).spec_kids(c as int) == old(self).spec_kids(c as int)
                &&& final(self).spec_value(c as int) == old(self).spec_value(c as int)
                &&& final(self).spec_removed(c as int) == old(self).spec_removed(c as int)
                &&& final(self).spec_parent(p) == old(self).spec_parent(p)
                &&& final(self).spec_value(p) == old(self).spec_value(p)
                &&& final(self).spec_removed(p) == old(self).spec_removed(p)
                &&& forall|i: int|
                    0 <= i < old(self).spec_len() && i != p && i != c ==> slot_eq(
                        *old(self),
                        *final(self),
                        i,
                    )
            }),
    {
        let p = match self.parents[c] {
            Some(p) => p,
            None => {
                proof {
                    assert(false);
                }
                0
            },
        };
        let pos = self.position_of(p, c);
        let mut ks = copy_kids(&self.children[p]);
        ks.remove(pos);
        self.children.set(p, ks);
        self.parents.set(c, None);
        proof {
            let a = *old(self);
            let b = *self;
            let s = a.spec_kids(p as int);
            let t = b.spec_kids(p as int);
            assert(p != c);
            assert(t == s.remove(pos as int));
            assert(s[pos as int] == c);
            a.lemma_kid_of_parent_only(c, p);
            lemma_remove_no_dup(s, pos as int);
            s.remove_ensures(pos as int);
            assert(forall|i: int|
                0 <= i < b.spec_len() && i != c ==> b.spec_parent(i) == a.spec_parent(i));
            assert(forall|i: int|
                0 <= i < b.spec_len() && i != p ==> b.spec_kids(i) == a.spec_kids(i));
            assert(forall|i: int|
                0 <= i < b.spec_len() ==> b.spec_removed(i) == a.spec_removed(i) && b.spec_value(i)
                    == a.spec_value(i));
            assert(b.spec_parent(c as int) is None);
            assert forall|m: int| b.live(m) implies (#[trigger] b.spec_kids(
                m,
            )).no_duplicates() by {
                if m != p {
                    assert(b.spec_kids(m) == a.spec_kids(m));
                }
            }
            assert forall|m: int, i: int|
                b.live(m) && 0 <= i < b.spec_kids(m).len() implies {
                let ch = (#[trigger] b.spec_kids(m)[i]) as int;
                b.live(ch) && b.spec_parent(ch) == Some(m as usize)
            } by {
                let ch = b.spec_kids(m)[i] as int;
                if m == p as int {
                    assert(t.contains(t[i]));
                    assert(s.contains(ch as usize) && ch != c as int);
                    let si = choose|si: int| 0 <= si < s.len() && s[si] == ch as usize;
                    assert(a.spec_kids(p as int)[si] == ch as usize);
                    assert(a.live(ch) && a.spec_parent(ch) == Some(p));
                    assert(b.spec_parent(ch) == a.spec_parent(ch));
                } else {
                    assert(b.spec_kids(m) == a.spec_kids(m));
                    assert(a.live(m));
                    assert(a.spec_kids(m)[i] == b.spec_kids(m)[i]);
                    assert(a.live(ch) && a.spec_parent(ch) == Some(m as usize));
                    if ch == c as int {
                        assert(a.spec_parent(c as int) == Some(m as usize));
                        assert(a.spec_parent(c as int) == Some(p));
                        assert(m == p as int);
                        assert(false);
                    }
                    assert(b.spec_parent(ch) == a.spec_parent(ch));
                }
            }
            assert forall|m: int|
                b.live(m) && (#[trigger] b.spec_parent(m)) is Some implies {
                let q = b.spec_parent(m)->Some_0 as int;
                b.live(q) && q != m && b.spec_kids(q).contains(m as usize)
            } by {
                assert(m != c as int);
                let q = b.spec_parent(m)->Some_0 as int;
                assert(b.spec_parent(m) == a.spec_parent(m));
                assert(a.live(m));
                assert(a.live(q) && q != m && a.spec_kids(q).contains(m as usize));
                if q == p as int {
                    assert(m as usize != c);
                    assert(t.contains(m as usize));
                } else {
                    assert(b.spec_kids(q) == a.spec_kids(q));
                }
                assert(b.spec_removed(q) == a.spec_removed(q));
            }
            assert forall|m: int|
                b.in_bounds(m) && #[trigger] b.spec_removed(m) implies b.spec_parent(m) is None
                && b.spec_kids(m).len() == 0 by {
                assert(a.spec_removed(m));
                assert(m != p && m != c);
                assert(b.spec_parent(m) == a.spec_parent(m));
                assert(b.spec_kids(m) == a.spec_kids(m));
            }
        }
    }

    /// Whether the parent chain starting at `node` (itself included)
    /// reaches `anc`, examining at most one step per slot of the arena.
    pub(crate) fn chain_has(&self, node: usize, anc: usize) -> (r: bool)
        requires
            self.wf(),
            self.live(node as int),
        ensures
            r == spec_chain_has(*self, node as int, anc as int, self.spec_len()),
    {
        let mut cur = node;
        let mut fuel = self.len();
        loop
            invariant
                self.wf(),
                self.live(cur as int),
                fuel <= self.spec_len(),
                spec_chain_has(*self, node as int, anc as int, self.spec_len())
                    == spec_chain_has(*self, cur as int, anc as int, fuel as nat),
            decreases fuel,
        {
            if cur == anc {
                return true;
            }
            if fuel == 0 {
                return false;
            }
            match self.parent(cur) {
                Some(p) => {
                    cur = p;
                    fuel = fuel - 1;
                },
                None => {
                    return false;
                },
            }
        }
    }

    /// Remove a detached node together with everything that descends from
    /// it: every handle into the subtree becomes permanently invalid, every
    /// node outside it is untouched.
    pub(crate) fn remove_subtree(&mut self, node: usize)
        requires
            old(self).wf(),
            old(self).live(node as int),
            old(self).spec_parent(node as int) is None,
        ensures
            final(self).wf(),
            final(self).spec_len() == old(self).spec_len(),
            final(self).spec_removed(node as int),
            forall|i: int|
                0 <= i < old(self).spec_len() && old(self).spec_removed(i) ==> final(self).spec_removed(i),
            forall|i: int| final(self).live(i) ==> slot_eq(*old(self), *final(self), i),
            forall|i: int|
                old(self).live(i) && !spec_descends(*old(self), i, node as int) ==> final(self).live(i),
            forall|i: int|
                old(self).live(i) && spec_descends(*old(self), i, node as int) ==> final(self).spec_removed(i),
    {
        let ghost a = *old(self);
        let mut stack: Vec<usize> = Vec::new();
        stack.push(node);
        proof {
            assert(spec_chain_has(a, node as int, node as int, 0));
            assert(stack@[0] == node);
        }
        while stack.len() > 0
            invariant
                a.wf(),
                a.live(node as int),
                a.spec_parent(node as int) is None,
                self.wf(),
                self.spec_len() == a.spec_len(),
                forall|i: int| 0 <= i < a.spec_len() && a.spec_removed(i) ==> self.spec_removed(i),
                forall|j: int|
                    0 <= j < stack@.len() ==> {
                        let s = (#[trigger] stack@[j]) as int;
                        &&& self.in_bounds(s)
                        &&& (self.live(s) ==> self.spec_parent(s) is None)
                        &&& spec_descends(a, s, node as int)
                    },
                forall|i: int|
                    self.live(i) ==> (stack@.contains(i as usize) || slot_eq(a, *self, i)),
                forall|i: int| a.live(i) && !spec_descends(a, i, node as int) ==> self.live(i),
                self.spec_removed(node as int) || stack@.contains(node),
            decreases count_live_upto(*self, self.spec_len() as int) + 2 * kids_total_upto(
                *self,
                self.spec_len() as int,
            ) + stack@.len(),
        {
            let len = stack.len();
            let s = stack[len - 1];
            let ghost prev = stack@;
            let ghost mid = *self;
            proof {
                assert(prev[len - 1] == s);
            }
            if self.is_removed(s) {
                stack.pop();
                proof {
                    assert(stack@ == prev.subrange(0, len - 1));
                    assert forall|j: int|
                        0 <= j < stack@.len() implies {
                        let t = (#[trigger] stack@[j]) as int;
                        &&& self.in_bounds(t)
                        &&& (self.live(t) ==> self.spec_parent(t) is None)
                        &&& spec_descends(a, t, node as int)
                    } by {
                        assert(stack@[j] == prev[j]);
                    }
                    assert forall|i: int|
                        self.live(i) implies (stack@.contains(i as usize) || slot_eq(
                        a,
                        *self,
                        i,
                    )) by {
                        if prev.contains(i as usize) {
                            let j = choose|j: int| 0 <= j < prev.len() && prev[j] == i as usize;
                            if j < len - 1 {
                                assert(stack@[j] == i as usize);
                            } else {
                                assert(i == s as int);
                                assert(!self.live(i));
                            }
                        }
                    }
                    assert(self.spec_removed(node as int) || stack@.contains(node)) by {
                        if !self.spec_removed(node as int) {
                            let j = choose|j: int| 0 <= j < prev.len() && prev[j] == node;
                            assert(j < len - 1) by {
                                if j == len - 1 {
                                    assert(prev[j] == s);
                                }
                            }
                            assert(stack@[j] == node);
                        }
                    }
                }
            } else if self.child_count(s) > 0 {
                let k = self.child_at(s, 0);
                proof {
                    assert(mid.spec_kids(s as int).contains(k)) by {
                        assert(mid.spec_kids(s as int)[0] == k);
                    }
                    assert(mid.live(k as int) && mid.spec_parent(k as int) == Some(s));
                    assert(!prev.contains(k)) by {
                        if prev.contains(k) {
                            let j = choose|j: int| 0 <= j < prev.len() && prev[j] == k;
                            assert(mid.spec_parent(k as int) is None);
                        }
                    }
                    assert(slot_eq(a, mid, k as int));
                }
                self.unlink(k);
                stack.push(k);
                proof {
                    let b = *self;
                    assert(stack@ == prev.push(k));
                    assert(spec_descends(a, k as int, node as int)) by {
                        assert(spec_descends(a, s as int, node as int));
                        let f = choose|f: nat| spec_chain_has(a, s as int, node as int, f);
                        assert(a.spec_parent(k as int) == Some(s));
                        assert(spec_chain_has(a, k as int, node as int, f + 1));
                    }
                    assert forall|j: int|
                        0 <= j < stack@.len() implies {
                        let t = (#[trigger] stack@[j]) as int;
                        &&& b.in_bounds(t)
                        &&& (b.live(t) ==> b.spec_parent(t) is None)
                        &&& spec_descends(a, t, node as int)
                    } by {
                        if j < stack@.len() - 1 {
                            assert(stack@[j] == prev[j]);
                            let t = prev[j] as int;
                            if t != k as int && t != s as int {
                                assert(slot_eq(mid, b, t));
                            }
                        } else {
                            assert(stack@[j] == k);
                        }
                    }
                    assert forall|i: int|
                        b.live(i) implies (stack@.contains(i as usize) || slot_eq(a, b, i)) by {
                        assert(stack@[stack@.len() - 1] == k);
                        if i == k as int {
                            assert(stack@.contains(k));
                        } else if i == s as int {
                            assert(stack@[len - 1] == prev[len - 1]);
                            assert(stack@.contains(s));
                        } else {
                            assert(slot_eq(mid, b, i));
                            assert(mid.live(i));
                            if prev.contains(i as usize) {
                                let j = choose|j: int|
                                    0 <= j < prev.len() && prev[j] == i as usize;
                                assert(stack@[j] == i as usize);
                            }
                        }
                    }
                    assert forall|i: int|
                        a.live(i) && !spec_descends(a, i, node as int) implies b.live(i) by {
                        assert(mid.live(i));
                        if i != k as int && i != s as int {
                            assert(slot_eq(mid, b, i));
                        } else if i == k as int {
                            assert(b.live(i));
                        } else {
                            assert(b.live(i));
                        }
                    }
                    assert forall|i: int|
                        0 <= i < b.spec_len() implies b.spec_removed(i) == mid.spec_removed(
                        i,
                    ) by {
                        if i != s as int && i != k as int {
                            assert(slot_eq(mid, b, i));
                        }
                    }
                    assert forall|i: int|
                        0 <= i < b.spec_len() && i != s as int implies b.spec_kids(i).len()
                            == mid.spec_kids(i).len() by {
                        if i != k as int {
                            assert(slot_eq(mid, b, i));
                        }
                    }
                    assert(b.spec_removed(node as int) || stack@.contains(node)) by {
                        assert(mid.spec_removed(node as int) || prev.contains(node));
                        if mid.spec_removed(node as int) {
                            assert((node as int) < mid.spec_len());
                            assert(node as int != s as int && node as int != k as int);
                            assert(slot_eq(mid, b, node as int));
                            assert(b.spec_removed(node as int));
                        } else {
                            let j = choose|j: int| 0 <= j < prev.len() && prev[j] == node;
                            assert(0 <= j < prev.len() && prev[j] == node);
                            assert(stack@ == prev.push(k));
                            assert(stack@[j] == node);
                            assert(stack@.contains(node));
                        }
                    }
                    lemma_count_live_same(mid, b, b.spec_len() as int);
                    let i0 = choose|i0: int|
                        0 <= i0 < mid.spec_kids(s as int).len() && mid.spec_kids(s as int)[i0]
                            == k && b.spec_kids(s as int) == mid.spec_kids(s as int).remove(i0);
                    mid.spec_kids(s as int).remove_ensures(i0);
                    lemma_kids_total_drop(mid, b, b.spec_len() as int, s as int);
                }
            } else {
                stack.pop();
                self.mark_removed(s);
                proof {
                    let b = *self;
                    assert(stack@ == prev.subrange(0, len - 1));
                    assert forall|j: int|
                        0 <= j < stack@.len() implies {
                        let t = (#[trigger] stack@[j]) as int;
                        &&& b.in_bounds(t)
                        &&& (b.live(t) ==> b.spec_parent(t) is None)
                        &&& spec_descends(a, t, node as int)
                    } by {
                        assert(stack@[j] == prev[j]);
                        let t = prev[j] as int;
                        if t != s as int {
                            assert(slot_eq(mid, b, t));
                        }
                    }
                    assert forall|i: int|
                        b.live(i) implies (stack@.contains(i as usize) || slot_eq(a, b, i)) by {
                        assert(i != s as int);
                        assert(slot_eq(mid, b, i));
                        assert(mid.live(i));
                        if prev.contains(i as usize) {
                            let j = choose|j: int| 0 <= j < prev.len() && prev[j] == i as usize;
                            assert(j < len - 1) by {
                                if j == len - 1 {
                                    assert(prev[j] == s);
                                }
                            }
                            assert(stack@[j] == i as usize);
                        }
                    }
                    assert forall|i: int|
                        a.live(i) && !spec_descends(a, i, node as int) implies b.live(i) by {
                        assert(mid.live(i));
                        if i != s as int {
                            assert(slot_eq(mid, b, i));
                        } else {
                            assert(spec_descends(a, s as int, node as int));
                            assert(false);
                        }
                    }
                    assert(b.spec_removed(node as int) || stack@.contains(node)) by {
                        assert(mid.spec_removed(node as int) || prev.contains(node));
                        if s == node {
                            assert(b.spec_removed(node as int));
                        } else if mid.spec_removed(node as int) {
                            assert((node as int) < mid.spec_len() && node as int != s as int);
                            assert(slot_eq(mid, b, node as int));
                            assert(b.spec_removed(node as int));
                        } else {
                            let j = choose|j: int| 0 <= j < prev.len() && prev[j] == node;
                            assert(0 <= j < prev.len() && prev[j] == node);
                            assert(j < len - 1) by {
                                if j == len - 1 {
                                    assert(prev[j] == s);
                                }
                            }
                            assert(stack@ == prev.subrange(0, len - 1));
                            assert(stack@[j] == node);
                            assert(stack@.contains(node));
                        }
                    }
                    assert forall|i: int|
                        0 <= i < b.spec_len() && i != s as int implies b.spec_removed(i)
                            == mid.spec_removed(i) by {
                        assert(slot_eq(mid, b, i));
                    }
                    assert forall|i: int|
                        0 <= i < b.spec_len() implies b.spec_kids(i).len() == mid.spec_kids(
                        i,
                    ).len() by {
                        if i != s as int {
                            assert(slot_eq(mid, b, i));
                        }
                    }
                    lemma_count_live_drop(mid, b, b.spec_len() as int, s as int);
                    lemma_kids_total_same(mid, b, b.spec_len() as int);
                }
            }
        }
        proof {
            let b = *self;
            assert(b.spec_removed(node as int));
            assert forall|i: int|
                a.live(i) && spec_descends(a, i, node as int) implies b.spec_removed(i) by {
                let f = choose|f: nat| spec_chain_has(a, i, node as int, f);
                lemma_chain_removed(a, b, i, node as int, f);
            }
        }
    }

    /// Invalidate a fully unlinked, childless node's handle for good.
    pub(crate) fn mark_removed(&mut self, n: usize)
        requires
            old(self).wf(),
            old(self).live(n as int),
            old(self).spec_parent(n as int) is None,
            old(self).spec_kids(n as int).len() == 0,
        ensures
            final(self).wf(),
            final(self).spec_len() == old(self).spec_len(),
            final(self).spec_removed(n as int),
            final(self).spec_parent(n as int) is None,
            final(self).spec_kids(n as int) == old(self).spec_kids(n as int),
            final(self).spec_value(n as int) == old(self).spec_value(n as int),
            forall|i: int|
                0 <= i < old(self).spec_len() && i != n ==> slot_eq(*old(self), *final(self), i),
    {
        self.removed.set(n, true);
        proof {
            let a = *old(self);
            let b = *self;
            a.lemma_orphan_in_no_kids(n);
            assert(forall|i: int|
                0 <= i < b.spec_len() ==> b.spec_parent(i) == a.spec_parent(i) && b.spec_kids(i)
                    == a.spec_kids(i) && b.spec_value(i) == a.spec_value(i));
            assert(forall|i: int|
                0 <= i < b.spec_len() && i != n ==> b.spec_removed(i) == a.spec_removed(i));
            assert forall|m: int| b.live(m) implies (#[trigger] b.spec_kids(
                m,
            )).no_duplicates() by {
                assert(b.spec_kids(m) == a.spec_kids(m));
            }
            assert forall|m: int, i: int|
                b.live(m) && 0 <= i < b.spec_kids(m).len() implies {
                let ch = (#[trigger] b.spec_kids(m)[i]) as int;
                b.live(ch) && b.spec_parent(ch) == Some(m as usize)
            } by {
                assert(b.spec_kids(m) == a.spec_kids(m));
                assert(a.live(m));
                let ch = b.spec_kids(m)[i] as int;
                assert(a.spec_kids(m)[i] == b.spec_kids(m)[i]);
                assert(a.live(ch) && a.spec_parent(ch) == Some(m as usize));
                assert(a.spec_kids(m).contains(ch as usize));
                assert(ch != n as int);
                assert(b.spec_removed(ch) == a.spec_removed(ch));
            }
            assert forall|m: int|
                b.live(m) && (#[trigger] b.spec_parent(m)) is Some implies {
                let q = b.spec_parent(m)->Some_0 as int;
                b.live(q) && q != m && b.spec_kids(q).contains(m as usize)
            } by {
                assert(m != n as int || b.spec_parent(m) == a.spec_parent(m));
                assert(a.live(m));
                let q = b.spec_parent(m)->Some_0 as int;
                assert(a.live(q) && q != m && a.spec_kids(q).contains(m as usize));
                if q == n as int {
                    assert(a.spec_kids(n as int).contains(m as usize));
                    assert(false);
                }
                assert(b.spec_removed(q) == a.spec_removed(q));
            }
            assert forall|m: int|
                b.in_bounds(m) && #[trigger] b.spec_removed(m) implies b.spec_parent(m) is None
                && b.spec_kids(m).len() == 0 by {
                if m != n as int {
                    assert(a.spec_removed(m));
                }
            }
        }
    }
}

} // verus!
