//! Stable, totally ordered identifiers for task nodes.
//!
//! A key is the path of sibling indices from the root down to a node, so
//! its depth equals the node's nesting level. Keys are compared
//! lexicographically with a strict prefix sorting first, which is exactly
//! pre-order: a child sorts after its parent and before any of the
//! parent's later siblings' subtrees.

use vstd::prelude::*;

verus! {

/// The identifier of a task node: the path of sibling indices from the
/// root (whose own path is empty) down to the node.
pub struct TreeKey {
    path: Vec<u64>,
}

impl View for TreeKey {
    type V = Seq<u64>;

    closed spec fn view(&self) -> Seq<u64> {
        self.path@
    }
}

/// Pre-order on key paths: lexicographic, with a strict prefix sorting
/// before any of its extensions.
pub open spec fn key_lt(a: Seq<u64>, b: Seq<u64>) -> bool
    decreases a.len(),
{
    if a.len() == 0 {
        b.len() > 0
    } else if b.len() == 0 {
        false
    } else if a[0] != b[0] {
        a[0] < b[0]
    } else {
        key_lt(a.drop_first(), b.drop_first())
    }
}

/// The reflexive closure of [`key_lt`].
pub open spec fn key_le(a: Seq<u64>, b: Seq<u64>) -> bool {
    key_lt(a, b) || a == b
}

/// When the first `i` components agree, the order is decided by the rest.
proof fn lemma_key_lt_common_prefix(a: Seq<u64>, b: Seq<u64>, i: int)
    requires
        0 <= i <= a.len(),
        i <= b.len(),
        forall|j: int| 0 <= j < i ==> a[j] == b[j],
    ensures
        key_lt(a, b) == key_lt(a.skip(i), b.skip(i)),
    decreases i,
{
    if i > 0 {
        assert(a.len() > 0 && b.len() > 0);
        assert(a[0] == b[0]);
        assert(a.drop_first().skip(i - 1) =~= a.skip(i));
        assert(b.drop_first().skip(i - 1) =~= b.skip(i));
        lemma_key_lt_common_prefix(a.drop_first(), b.drop_first(), i - 1);
    } else {
        assert(a.skip(0) =~= a);
        assert(b.skip(0) =~= b);
    }
}

/// Exactly one of `a == b`, `key_lt(a, b)`, `key_lt(b, a)` holds.
pub proof fn lemma_key_lt_trichotomy(a: Seq<u64>, b: Seq<u64>)
    ensures
        a == b || key_lt(a, b) || key_lt(b, a),
        key_lt(a, b) ==> !key_lt(b, a) && a != b,
    decreases a.len(),
{
    if a.len() == 0 {
        if b.len() == 0 {
            assert(a =~= b);
        }
    } else if b.len() == 0 {
    } else if a[0] != b[0] {
    } else {
        lemma_key_lt_trichotomy(a.drop_first(), b.drop_first());
        if a.drop_first() == b.drop_first() {
            assert(a.len() == b.len());
            assert forall|i: int| 0 <= i < a.len() implies a[i] == b[i] by {
                if i > 0 {
                    assert(a[i] == a.drop_first()[i - 1]);
                    assert(b[i] == b.drop_first()[i - 1]);
                }
            }
            assert(a =~= b);
        }
        if a == b {
            assert(a.drop_first() =~= b.drop_first());
        }
    }
}

/// The order is transitive.
pub proof fn lemma_key_lt_trans(a: Seq<u64>, b: Seq<u64>, c: Seq<u64>)
    requires
        key_lt(a, b),
        key_lt(b, c),
    ensures
        key_lt(a, c),
    decreases a.len(),
{
    if a.len() == 0 {
    } else {
        assert(b.len() > 0);
        if a[0] == b[0] && b[0] == c[0] {
            lemma_key_lt_trans(a.drop_first(), b.drop_first(), c.drop_first());
        }
    }
}

/// A strict prefix sorts before any of its extensions: a parent's key
/// sorts before each of its descendants' keys.
pub proof fn lemma_key_lt_strict_prefix(a: Seq<u64>, b: Seq<u64>)
    requires
        a.len() < b.len(),
        a == b.take(a.len() as int),
    ensures
        key_lt(a, b),
    decreases a.len(),
{
    if a.len() > 0 {
        assert(a[0] == b.take(a.len() as int)[0]);
        assert(a.drop_first() =~= b.drop_first().take(a.len() - 1)) by {
            assert(forall|j: int|
                0 <= j < a.len() - 1 ==> a.drop_first()[j] == b.take(a.len() as int)[j + 1]);
        }
        lemma_key_lt_strict_prefix(a.drop_first(), b.drop_first());
    }
}

/// Keys that first differ at component `i` are ordered by that component:
/// a node under an earlier sibling sorts before a node under a later one.
pub proof fn lemma_key_lt_by_component(a: Seq<u64>, b: Seq<u64>, i: int)
    requires
        0 <= i < a.len(),
        i < b.len(),
        forall|j: int| 0 <= j < i ==> a[j] == b[j],
        a[i] < b[i],
    ensures
        key_lt(a, b),
{
    lemma_key_lt_common_prefix(a, b, i);
    assert(a.skip(i).len() > 0);
    assert(a.skip(i)[0] == a[i]);
    assert(b.skip(i)[0] == b[i]);
}

/// Any node under a parent's earlier child sorts before any node under a
/// later child: subtrees of siblings do not interleave, so sibling
/// insertion order is preserved across whole subtrees.
pub proof fn lemma_sibling_subtrees_ordered(p: Seq<u64>, i: u64, j: u64, c: Seq<u64>, d: Seq<u64>)
    requires
        i < j,
        c.len() > p.len(),
        c.take(p.len() as int + 1) == p.push(i),
        d.len() > p.len(),
        d.take(p.len() as int + 1) == p.push(j),
    ensures
        key_lt(c, d),
{
    let n = p.len() as int;
    assert forall|k: int| 0 <= k < n implies c[k] == d[k] by {
        assert(c.take(n + 1)[k] == c[k]);
        assert(d.take(n + 1)[k] == d[k]);
        assert(p.push(i)[k] == p[k]);
        assert(p.push(j)[k] == p[k]);
    }
    assert(c[n] == c.take(n + 1)[n] && c.take(n + 1)[n] == i);
    assert(d[n] == d.take(n + 1)[n] && d.take(n + 1)[n] == j);
    lemma_key_lt_by_component(c, d, n);
}

impl TreeKey {
    /// The key of the tree's root, above all tasks: the empty path.
    pub fn root() -> (k: TreeKey)
        ensures
            k@ == Seq::<u64>::empty(),
    {
        let k = TreeKey { path: Vec::new() };
        proof {
            assert(k@ =~= Seq::<u64>::empty());
        }
        k
    }

    /// The nesting level the key encodes: the root is at level zero, the
    /// first rendered nesting level is one.
    pub fn level(&self) -> (n: usize)
        ensures
            n == self@.len(),
    {
        self.path.len()
    }

    /// The key of this node's child with sibling index `idx`.
    pub fn child(&self, idx: u64) -> (k: TreeKey)
        ensures
            k@ == self@.push(idx),
    {
        let mut path: Vec<u64> = self.clone_path();
        path.push(idx);
        TreeKey { path }
    }

    /// The sibling index at depth `i`.
    pub fn component(&self, i: usize) -> (c: u64)
        requires
            i < self@.len(),
        ensures
            c == self@[i as int],
    {
        self.path[i]
    }

    /// An identical, independently owned key.
    pub fn duplicate(&self) -> (k: TreeKey)
        ensures
            k@ == self@,
    {
        TreeKey { path: self.clone_path() }
    }

    fn clone_path(&self) -> (r: Vec<u64>)
        ensures
            r@ == self@,
    {
        let mut r: Vec<u64> = Vec::new();
        let mut i: usize = 0;
        while i < self.path.len()
            invariant
                i <= self.path.len(),
                r@ == self.path@.take(i as int),
            decreases self.path.len() - i,
        {
            r.push(self.path[i]);
            proof {
                assert(r@ =~= self.path@.take(i + 1));
            }
            i += 1;
        }
        proof {
            assert(r@ =~= self.path@);
        }
        r
    }
}

/// Whether `a` sorts strictly before `b` in pre-order.
pub fn key_less(a: &TreeKey, b: &TreeKey) -> (r: bool)
    ensures
        r == key_lt(a@, b@),
{
    let alen = a.level();
    let blen = b.level();
    let mut i: usize = 0;
    while i < alen && i < blen
        invariant
            alen == a@.len(),
            blen == b@.len(),
            i <= alen,
            i <= blen,
            forall|j: int| 0 <= j < i ==> a@[j] == b@[j],
        decreases alen - i,
    {
        let ca = a.component(i);
        let cb = b.component(i);
        if ca != cb {
            proof {
                lemma_key_lt_common_prefix(a@, b@, i as int);
                assert(a@.skip(i as int)[0] == a@[i as int]);
                assert(b@.skip(i as int)[0] == b@[i as int]);
            }
            return ca < cb;
        }
        i += 1;
    }
    proof {
        lemma_key_lt_common_prefix(a@, b@, i as int);
        if alen < blen {
            assert(b@.skip(i as int).len() > 0);
        } else if alen == blen {
            assert(a@.skip(i as int) =~= Seq::<u64>::empty());
            assert(b@.skip(i as int) =~= Seq::<u64>::empty());
        } else {
            assert(a@.skip(i as int).len() > 0);
        }
    }
    alen < blen
}

} // verus!
