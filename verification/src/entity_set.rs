//! Dense sets of nodes and the counting facts the walks rest on.

use crate::node::NodeId;
use vstd::prelude::*;

verus! {

/// A set of nodes, one flag per id.
pub struct NodeIdSet {
    flags: Vec<bool>,
}

impl View for NodeIdSet {
    type V = Set<NodeId>;

    closed spec fn view(&self) -> Set<NodeId> {
        Set::new(|n: NodeId| n.0 < self.flags@.len() && self.flags@[n.0 as int])
    }
}

impl NodeIdSet {
    /// The empty set.
    pub fn new() -> (r: NodeIdSet)
        ensures
            r@ == Set::<NodeId>::empty(),
    {
        let r = NodeIdSet { flags: Vec::new() };
        assert(r@ =~= Set::<NodeId>::empty());
        r
    }

    /// Whether `node` is in the set.
    pub fn contains(&self, node: NodeId) -> (r: bool)
        ensures
            r == self@.contains(node),
    {
        (node.0 as usize) < self.flags.len() && self.flags[node.0 as usize]
    }

    /// Adds `node`; says whether it was missing.
    pub fn insert(&mut self, node: NodeId) -> (r: bool)
        ensures
            final(self)@ == old(self)@.insert(node),
            r == !old(self)@.contains(node),
    {
        let i: usize = node.0 as usize;
        while self.flags.len() <= i
            invariant
                i == node.0,
                self@ == old(self)@,
            decreases i + 1 - self.flags.len(),
        {
            let ghost before = self@;
            self.flags.push(false);
            assert(self@ =~= before);
        }
        let fresh = !self.flags[i];
        let ghost before = self@;
        self.flags.set(i, true);
        assert(self@ =~= before.insert(node));
        fresh
    }

    /// Takes `node` out; says whether it was there.
    pub fn remove(&mut self, node: NodeId) -> (r: bool)
        ensures
            final(self)@ == old(self)@.remove(node),
            r == old(self)@.contains(node),
    {
        let i: usize = node.0 as usize;
        if i < self.flags.len() {
            let there = self.flags[i];
            let ghost before = self@;
            self.flags.set(i, false);
            assert(self@ =~= before.remove(node));
            there
        } else {
            assert(self@ =~= self@.remove(node));
            false
        }
    }

    /// The members in ascending order.
    pub fn to_vec(&self) -> (r: Vec<NodeId>)
        ensures
            forall|n: NodeId| #[trigger] r@.contains(n) <==> self@.contains(n),
            forall|i: int, j: int| 0 <= i < j < r@.len() ==> r@[i].0 < r@[j].0,
    {
        let mut r: Vec<NodeId> = Vec::new();
        let mut i: usize = 0;
        while i < self.flags.len() && i <= 0xffff_ffff
            invariant
                i <= self.flags.len(),
                i <= 0x1_0000_0000,
                forall|k: int| 0 <= k < r@.len() ==> (#[trigger] r@[k]).0 < i && self@.contains(r@[k]),
                forall|n: NodeId| n.0 < i && #[trigger] self@.contains(n) ==> r@.contains(n),
                forall|k: int, j: int| 0 <= k < j < r@.len() ==> r@[k].0 < r@[j].0,
            decreases self.flags.len() - i,
        {
            if self.flags[i] {
                let ghost before = r@;
                let id = NodeId(i as u32);
                r.push(id);
                assert(r@[before.len() as int] == id);
                assert forall|n: NodeId| n.0 < i + 1 && #[trigger] self@.contains(n) implies r@.contains(
                    n,
                ) by {
                    if n.0 < i {
                        let k = before.index_of(n);
                        assert(r@[k] == n);
                    }
                }
            }
            i += 1;
        }
        assert forall|n: NodeId| #[trigger] r@.contains(n) implies self@.contains(n) by {
            let k = r@.index_of(n);
            assert(r@[k] == n);
        }
        r
    }

    /// An independent copy.
    pub fn duplicate(&self) -> (r: NodeIdSet)
        ensures
            r@ == self@,
    {
        let mut flags: Vec<bool> = Vec::new();
        let mut i: usize = 0;
        while i < self.flags.len()
            invariant
                i <= self.flags.len(),
                flags@ == self.flags@.take(i as int),
            decreases self.flags.len() - i,
        {
            flags.push(self.flags[i]);
            i += 1;
            assert(flags@ =~= self.flags@.take(i as int));
        }
        assert(flags@ =~= self.flags@);
        NodeIdSet { flags }
    }
}

/// What a longer list holds.
pub proof fn lemma_push_member<T>(s: Seq<T>, x: T, y: T)
    ensures
        s.push(x).contains(y) <==> s.contains(y) || y == x,
{
    if s.contains(y) {
        let k = s.index_of(y);
        assert(s.push(x)[k] == y);
    }
    if y == x {
        assert(s.push(x)[s.len() as int] == y);
    }
    if s.push(x).contains(y) {
        let k = s.push(x).index_of(y);
        if k < s.len() {
            assert(s[k] == y);
        }
    }
}

/// Distinct numbers from `0` up to `n` are at most `n` many.
pub proof fn lemma_distinct_ints(s: Seq<int>, n: nat)
    requires
        s.no_duplicates(),
        forall|i: int| 0 <= i < s.len() ==> 0 <= #[trigger] s[i] < n,
    ensures
        s.len() <= n,
    decreases n,
{
    if s.len() > 0 {
        if n == 0 {
            assert(s[0] < 0);
        } else {
            let top = n - 1;
            if s.contains(top) {
                let k = s.index_of(top);
                let t = s.remove(k);
                assert forall|i: int| 0 <= i < t.len() implies 0 <= #[trigger] t[i] < n - 1 by {
                    let j = if i < k {
                        i
                    } else {
                        i + 1
                    };
                    assert(t[i] == s[j]);
                    assert(s[j] != s[k]);
                }
                assert(t.no_duplicates()) by {
                    assert forall|i: int, j: int| 0 <= i < j < t.len() implies t[i] != t[j] by {
                        let ii = if i < k {
                            i
                        } else {
                            i + 1
                        };
                        let jj = if j < k {
                            j
                        } else {
                            j + 1
                        };
                        assert(t[i] == s[ii] && t[j] == s[jj]);
                    }
                }
                lemma_distinct_ints(t, (n - 1) as nat);
            } else {
                assert forall|i: int| 0 <= i < s.len() implies 0 <= #[trigger] s[i] < n - 1 by {
                    if s[i] == top {
                        assert(s.contains(top));
                    }
                }
                lemma_distinct_ints(s, (n - 1) as nat);
            }
        }
    }
}

/// Distinct ids below `n` are at most `n` many.
pub proof fn lemma_distinct_bounded(s: Seq<NodeId>, n: nat)
    requires
        s.no_duplicates(),
        forall|i: int| 0 <= i < s.len() ==> (#[trigger] s[i]).0 < n,
    ensures
        s.len() <= n,
{
    let t = Seq::new(s.len(), |i: int| s[i].0 as int);
    lemma_distinct_ints(t, n);
}

/// Ascending lists of the same nodes are the same.
pub proof fn lemma_ascending_nodes_unique(a: Seq<NodeId>, b: Seq<NodeId>)
    requires
        forall|i: int, j: int| 0 <= i < j < a.len() ==> a[i].0 < a[j].0,
        forall|i: int, j: int| 0 <= i < j < b.len() ==> b[i].0 < b[j].0,
        forall|n: NodeId| #[trigger] a.contains(n) <==> b.contains(n),
    ensures
        a == b,
{
    let c = Seq::new(a.len(), |i: int| a[i].0 as u64);
    let d = Seq::new(b.len(), |i: int| b[i].0 as u64);
    assert forall|x: u64| #[trigger] c.contains(x) <==> d.contains(x) by {
        if c.contains(x) {
            let i = c.index_of(x);
            assert(a.contains(a[i]));
            assert(d[b.index_of(a[i])] == x);
        }
        if d.contains(x) {
            let i = d.index_of(x);
            assert(b.contains(b[i]) && a.contains(b[i]));
            assert(c[a.index_of(b[i])] == x);
        }
    }
    crate::function::side_tables::lemma_ascending_unique(c, d);
    assert forall|i: int| 0 <= i < a.len() implies a[i] == b[i] by {
        assert(c[i] == d[i]);
    }
    assert(a =~= b);
}

} // verus!
