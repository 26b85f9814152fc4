//! Postorder over the readers of values: a node comes after its readers.

use super::model::GraphModel;
use super::walk::reachable;
use super::Graph;
use crate::entity_set::{lemma_distinct_bounded, lemma_push_member, NodeIdSet};
use crate::node::NodeId;
use vstd::prelude::*;

verus! {

/// The nodes at the given positions.
pub open spec fn position_nodes(ps: Seq<(NodeId, u32)>) -> Seq<NodeId> {
    Seq::new(ps.len(), |i: int| ps[i].0)
}

/// The readers of the first `k` outputs of a node.
pub open spec fn readers_upto(g: GraphModel, n: NodeId, k: int) -> Seq<NodeId>
    decreases k,
{
    if k <= 0 {
        Seq::empty()
    } else {
        readers_upto(g, n, k - 1) + position_nodes(g.reader_positions(g.outs(n)[k - 1]))
    }
}

/// The nodes that read an output of a node, output by output.
pub open spec fn reader_nodes(g: GraphModel, n: NodeId) -> Seq<NodeId> {
    readers_upto(g, n, g.outs(n).len() as int)
}

/// A walk from reader to reader inside a set of nodes.
pub open spec fn is_flow(g: GraphModel, view: Set<NodeId>, p: Seq<NodeId>) -> bool {
    &&& p.len() > 0
    &&& forall|k: int| 0 <= k < p.len() ==> view.contains(#[trigger] p[k])
    &&& forall|k: int|
        #![trigger p[k], p[k + 1]]
        0 <= k < p.len() - 1 ==> reader_nodes(g, p[k]).contains(p[k + 1])
}

/// What `a` defines leads to `b`, inside a set of nodes.
pub open spec fn leads(g: GraphModel, view: Set<NodeId>, a: NodeId, b: NodeId) -> bool {
    exists|p: Seq<NodeId>| #[trigger] is_flow(g, view, p) && p[0] == a && p.last() == b
}

/// Some root leads to `n`.
pub open spec fn led_to(g: GraphModel, view: Set<NodeId>, roots: Seq<NodeId>, n: NodeId) -> bool {
    exists|r: NodeId| #[trigger] roots.contains(r) && leads(g, view, r, n)
}

proof fn lemma_leads_self(g: GraphModel, view: Set<NodeId>, n: NodeId)
    requires
        view.contains(n),
    ensures
        leads(g, view, n, n),
{
    assert(is_flow(g, view, seq![n]));
}

proof fn lemma_leads_on(g: GraphModel, view: Set<NodeId>, a: NodeId, b: NodeId, c: NodeId)
    requires
        leads(g, view, a, b),
        reader_nodes(g, b).contains(c),
        view.contains(c),
    ensures
        leads(g, view, a, c),
{
    let p = choose|p: Seq<NodeId>| #[trigger] is_flow(g, view, p) && p[0] == a && p.last() == b;
    let q = p.push(c);
    assert forall|k: int|
        #![trigger q[k], q[k + 1]]
        0 <= k < q.len() - 1 implies reader_nodes(g, q[k]).contains(q[k + 1]) by {
        if k < p.len() - 1 {
            assert(q[k] == p[k] && q[k + 1] == p[k + 1]);
        }
    }
    assert forall|k: int| 0 <= k < q.len() implies view.contains(#[trigger] q[k]) by {
        if k < p.len() {
            assert(view.contains(p[k]));
        }
    }
    assert(is_flow(g, view, q));
}

/// A set that holds the roots and is closed under reading holds what they lead
/// to.
proof fn lemma_flow_stays(
    g: GraphModel,
    view: Set<NodeId>,
    p: Seq<NodeId>,
    members: Set<NodeId>,
    k: int,
)
    requires
        is_flow(g, view, p),
        members.contains(p[0]),
        0 <= k < p.len(),
        forall|a: NodeId, b: NodeId|
            #![trigger members.contains(a), reader_nodes(g, a).contains(b)]
            members.contains(a) && reader_nodes(g, a).contains(b) && view.contains(b)
                ==> members.contains(b),
    ensures
        members.contains(p[k]),
    decreases k,
{
    if k > 0 {
        lemma_flow_stays(g, view, p, members, k - 1);
        assert(p[k - 1 + 1] == p[k]);
        assert(reader_nodes(g, p[k - 1]).contains(p[k - 1 + 1]));
        assert(view.contains(p[k]));
    }
}

/// A depth-first search under way.
#[verifier::ext_equal]
pub struct Climb {
    pub seen: Seq<NodeId>,
    pub post: Seq<NodeId>,
    pub stack: Seq<(NodeId, nat)>,
    pub next_root: nat,
}

/// One step: take up the next root, look at the next reader of the node on
/// top, or be done with it.
pub open spec fn climb_step(g: GraphModel, view: Set<NodeId>, roots: Seq<NodeId>, s: Climb) -> Climb {
    if s.stack.len() == 0 {
        if s.next_root >= roots.len() {
            s
        } else {
            let root = roots[s.next_root as int];
            let next = Climb { next_root: s.next_root + 1, ..s };
            if s.seen.contains(root) || !view.contains(root) {
                next
            } else {
                Climb { seen: s.seen.push(root), stack: seq![(root, 0nat)], ..next }
            }
        }
    } else {
        let (node, idx) = s.stack.last();
        let succs = reader_nodes(g, node);
        if idx < succs.len() {
            let succ = succs[idx as int];
            let moved = s.stack.drop_last().push((node, idx + 1));
            if s.seen.contains(succ) || !view.contains(succ) {
                Climb { stack: moved, ..s }
            } else {
                Climb { seen: s.seen.push(succ), stack: moved.push((succ, 0)), ..s }
            }
        } else {
            Climb { post: s.post.push(node), stack: s.stack.drop_last(), ..s }
        }
    }
}

pub open spec fn climb_start() -> Climb {
    Climb { seen: Seq::empty(), post: Seq::empty(), stack: Seq::empty(), next_root: 0 }
}

pub open spec fn climb_done(roots: Seq<NodeId>, s: Climb) -> bool {
    s.stack.len() == 0 && s.next_root >= roots.len()
}

/// The search after `n` steps.
pub open spec fn climb_after(g: GraphModel, view: Set<NodeId>, roots: Seq<NodeId>, n: nat) -> Climb
    decreases n,
{
    if n == 0 {
        climb_start()
    } else {
        climb_step(g, view, roots, climb_after(g, view, roots, (n - 1) as nat))
    }
}

/// The nodes that roots lead to, in the order in which a depth-first search is
/// done with them.
pub open spec fn postorder_of(g: GraphModel, view: Set<NodeId>, roots: Seq<NodeId>) -> Seq<NodeId> {
    let end = choose|n: nat| climb_done(roots, #[trigger] climb_after(g, view, roots, n));
    climb_after(g, view, roots, end).post
}

proof fn lemma_climb_settles(g: GraphModel, view: Set<NodeId>, roots: Seq<NodeId>, a: nat, b: nat)
    requires
        a <= b,
        climb_done(roots, climb_after(g, view, roots, a)),
    ensures
        climb_after(g, view, roots, b) == climb_after(g, view, roots, a),
    decreases b - a,
{
    if a < b {
        lemma_climb_settles(g, view, roots, a, (b - 1) as nat);
    }
}

proof fn lemma_postorder_unique(g: GraphModel, view: Set<NodeId>, roots: Seq<NodeId>, n: nat)
    requires
        climb_done(roots, climb_after(g, view, roots, n)),
    ensures
        postorder_of(g, view, roots) == climb_after(g, view, roots, n).post,
{
    let m = choose|m: nat| climb_done(roots, #[trigger] climb_after(g, view, roots, m));
    if m <= n {
        lemma_climb_settles(g, view, roots, m, n);
    } else {
        lemma_climb_settles(g, view, roots, n, m);
    }
}

/// A node comes after its readers, but for one that leads back to it.
pub open spec fn reader_done(g: GraphModel, view: Set<NodeId>, post: Seq<NodeId>, i: int, m: NodeId) -> bool {
    (exists|k: int| 0 <= k < i && #[trigger] post[k] == m) || leads(g, view, m, post[i])
}

/// Every reader of the nodes done with is done with too, or leads back.
pub open spec fn readers_first(g: GraphModel, view: Set<NodeId>, post: Seq<NodeId>) -> bool {
    forall|i: int, m: NodeId|
        #![trigger post[i], reader_nodes(g, post[i]).contains(m)]
        0 <= i < post.len() && reader_nodes(g, post[i]).contains(m) && view.contains(m)
            ==> reader_done(g, view, post, i, m)
}

spec fn on_stack(s: Climb, n: NodeId) -> bool {
    exists|j: int| 0 <= j < s.stack.len() && (#[trigger] s.stack[j]).0 == n
}

/// Every reader of a node done with was found.
spec fn readers_seen(g: GraphModel, view: Set<NodeId>, s: Climb) -> bool {
    forall|i: int, m: NodeId|
        #![trigger s.post[i], reader_nodes(g, s.post[i]).contains(m)]
        0 <= i < s.post.len() && reader_nodes(g, s.post[i]).contains(m) && view.contains(m)
            ==> s.seen.contains(m)
}

/// What holds of the search all along.
spec fn climb_inv(g: GraphModel, view: Set<NodeId>, roots: Seq<NodeId>, s: Climb) -> bool {
    &&& s.seen.no_duplicates()
    &&& s.post.no_duplicates()
    &&& forall|i: int|
        0 <= i < s.seen.len() ==> g.has_node(#[trigger] s.seen[i]) && view.contains(s.seen[i])
            && led_to(g, view, roots, s.seen[i])
    &&& forall|n: NodeId| #[trigger] s.seen.contains(n) <==> s.post.contains(n) || on_stack(s, n)
    &&& forall|i: int, j: int|
        #![trigger s.stack[i], s.stack[j]]
        0 <= i < j < s.stack.len() ==> s.stack[i].0 != s.stack[j].0 && leads(
            g,
            view,
            s.stack[i].0,
            s.stack[j].0,
        )
    &&& forall|j: int| 0 <= j < s.stack.len() ==> !s.post.contains((#[trigger] s.stack[j]).0)
    &&& forall|j: int, k: int|
        #![trigger s.stack[j], reader_nodes(g, s.stack[j].0)[k]]
        0 <= j < s.stack.len() && 0 <= k < s.stack[j].1 && k < reader_nodes(g, s.stack[j].0).len()
            && view.contains(reader_nodes(g, s.stack[j].0)[k]) ==> s.seen.contains(
            reader_nodes(g, s.stack[j].0)[k],
        )
    &&& readers_first(g, view, s.post)
    &&& readers_seen(g, view, s)
    &&& forall|r: int|
        0 <= r < s.next_root && r < roots.len() && view.contains(#[trigger] roots[r])
            ==> s.seen.contains(roots[r])
    &&& s.next_root <= roots.len()
}

proof fn lemma_readers_are_nodes(g: GraphModel, n: NodeId, k: int)
    requires
        g.valid(),
        g.has_node(n),
        0 <= k <= g.outs(n).len(),
    ensures
        forall|i: int| 0 <= i < readers_upto(g, n, k).len() ==> g.has_node(
            #[trigger] readers_upto(g, n, k)[i],
        ),
    decreases k,
{
    if k > 0 {
        lemma_readers_are_nodes(g, n, k - 1);
        let v = g.outs(n)[k - 1];
        let sub = readers_upto(g, n, k - 1);
        let more = position_nodes(g.reader_positions(v));
        let all = readers_upto(g, n, k);
        assert(g.output_ok(n.0 as int, k - 1)) by {
            assert(g.nodes[n.0 as int].outputs[k - 1] == v);
        }
        assert forall|i: int| 0 <= i < all.len() implies g.has_node(#[trigger] all[i]) by {
            if i < sub.len() {
                assert(all[i] == sub[i]);
            } else {
                let j = i - sub.len();
                assert(all[i] == more[j]);
                assert(g.reader_ok(v.0 as int, j)) by {
                    assert(g.lists[v.0 as int][j] == g.readers(v)[j]);
                }
            }
        }
    }
}

/// Starting on a node, found as a root or as a reader of the node on top.
proof fn lemma_climb_enter(
    g: GraphModel,
    view: Set<NodeId>,
    roots: Seq<NodeId>,
    s: Climb,
    n: NodeId,
)
    requires
        climb_inv(g, view, roots, s),
        g.has_node(n),
        view.contains(n),
        !s.seen.contains(n),
        led_to(g, view, roots, n),
        s.stack.len() > 0 ==> reader_nodes(g, s.stack.last().0).contains(n),
    ensures
        climb_inv(
            g,
            view,
            roots,
            (Climb { seen: s.seen.push(n), stack: s.stack.push((n, 0)), ..s }),
        ),
{
    let t = Climb { seen: s.seen.push(n), stack: s.stack.push((n, 0)), ..s };
    let top = s.stack.len() as int;
    assert(!s.post.contains(n) && !on_stack(s, n));
    assert forall|m: NodeId| t.seen.contains(m) <==> s.seen.contains(m) || m == n by {
        lemma_push_member(s.seen, n, m);
    }
    assert forall|i: int, j: int| 0 <= i < t.seen.len() && 0 <= j < t.seen.len() && i != j implies t.seen[i]
        != t.seen[j] by {
        if i == s.seen.len() {
            assert(s.seen.contains(s.seen[j]));
        } else if j == s.seen.len() {
            assert(s.seen.contains(s.seen[i]));
        }
    }
    assert forall|m: NodeId| #[trigger] t.seen.contains(m) <==> t.post.contains(m) || on_stack(t, m) by {
        if on_stack(s, m) {
            let j = choose|j: int| 0 <= j < s.stack.len() && (#[trigger] s.stack[j]).0 == m;
            assert(t.stack[j].0 == m);
        }
        if m == n {
            assert(t.stack[top].0 == m);
        }
        if on_stack(t, m) {
            let j = choose|j: int| 0 <= j < t.stack.len() && (#[trigger] t.stack[j]).0 == m;
            if j < top {
                assert(s.stack[j].0 == m);
            }
        }
    }
    assert forall|i: int, j: int|
        #![trigger t.stack[i], t.stack[j]]
        0 <= i < j < t.stack.len() implies t.stack[i].0 != t.stack[j].0 && leads(
        g,
        view,
        t.stack[i].0,
        t.stack[j].0,
    ) by {
        assert(t.stack[i] == s.stack[i]);
        if j < top {
            assert(t.stack[j] == s.stack[j]);
        } else {
            assert(on_stack(s, s.stack[i].0));
            let last = s.stack[top - 1].0;
            assert(on_stack(s, last));
            assert(s.seen.contains(last));
            let x = s.seen.index_of(last);
            assert(view.contains(s.seen[x]));
            if i < top - 1 {
                assert(leads(g, view, s.stack[i].0, s.stack[top - 1].0));
            } else {
                lemma_leads_self(g, view, last);
            }
            lemma_leads_on(g, view, s.stack[i].0, last, n);
        }
    }
    assert forall|j: int| 0 <= j < t.stack.len() implies !t.post.contains((#[trigger] t.stack[j]).0) by {
        if j < top {
            assert(t.stack[j] == s.stack[j]);
        }
    }
    assert forall|j: int, k: int|
        #![trigger t.stack[j], reader_nodes(g, t.stack[j].0)[k]]
        0 <= j < t.stack.len() && 0 <= k < t.stack[j].1 && k < reader_nodes(g, t.stack[j].0).len()
            && view.contains(reader_nodes(g, t.stack[j].0)[k]) implies t.seen.contains(
        reader_nodes(g, t.stack[j].0)[k],
    ) by {
        assert(t.stack[j] == s.stack[j]);
        assert(s.seen.contains(reader_nodes(g, s.stack[j].0)[k]));
    }
    assert forall|i: int, m: NodeId|
        #![trigger t.post[i], reader_nodes(g, t.post[i]).contains(m)]
        0 <= i < t.post.len() && reader_nodes(g, t.post[i]).contains(m) && view.contains(m) implies t.seen.contains(
        m,
    ) by {
        assert(reader_nodes(g, s.post[i]).contains(m));
        assert(s.seen.contains(m));
    }
    assert forall|r: int|
        0 <= r < t.next_root && r < roots.len() && view.contains(
            #[trigger] roots[r],
        ) implies t.seen.contains(roots[r]) by {
        assert(s.seen.contains(roots[r]));
    }
}

/// Looking at the next reader of the node on top, which is not new.
proof fn lemma_climb_skip(g: GraphModel, view: Set<NodeId>, roots: Seq<NodeId>, s: Climb)
    requires
        climb_inv(g, view, roots, s),
        s.stack.len() > 0,
        s.stack.last().1 < reader_nodes(g, s.stack.last().0).len(),
    ensures
        ({
            let (node, idx) = s.stack.last();
            let succ = reader_nodes(g, node)[idx as int];
            let t = Climb { stack: s.stack.drop_last().push((node, idx + 1)), ..s };
            &&& s.seen.contains(succ) || !view.contains(succ) ==> climb_inv(g, view, roots, t)
            &&& forall|n: NodeId| #[trigger] on_stack(t, n) <==> on_stack(s, n)
        }),
{
    let (node, idx) = s.stack.last();
    let succ = reader_nodes(g, node)[idx as int];
    let t = Climb { stack: s.stack.drop_last().push((node, idx + 1)), ..s };
    let top = s.stack.len() - 1;
    assert(s.stack[top] == (node, idx));
    assert forall|j: int| 0 <= j < t.stack.len() implies (#[trigger] t.stack[j]).0 == s.stack[j].0 by {}
    assert forall|n: NodeId| #[trigger] on_stack(t, n) <==> on_stack(s, n) by {
        if on_stack(t, n) {
            let j = choose|j: int| 0 <= j < t.stack.len() && (#[trigger] t.stack[j]).0 == n;
            assert(s.stack[j].0 == n);
        }
        if on_stack(s, n) {
            let j = choose|j: int| 0 <= j < s.stack.len() && (#[trigger] s.stack[j]).0 == n;
            assert(t.stack[j].0 == n);
        }
    }
    if s.seen.contains(succ) || !view.contains(succ) {
        assert forall|i: int, j: int|
            #![trigger t.stack[i], t.stack[j]]
            0 <= i < j < t.stack.len() implies t.stack[i].0 != t.stack[j].0 && leads(
            g,
            view,
            t.stack[i].0,
            t.stack[j].0,
        ) by {
            assert(s.stack[i].0 != s.stack[j].0);
        }
        assert forall|j: int| 0 <= j < t.stack.len() implies !t.post.contains(
            (#[trigger] t.stack[j]).0,
        ) by {
            assert(!s.post.contains(s.stack[j].0));
        }
        assert forall|j: int, k: int|
            #![trigger t.stack[j], reader_nodes(g, t.stack[j].0)[k]]
            0 <= j < t.stack.len() && 0 <= k < t.stack[j].1 && k < reader_nodes(
                g,
                t.stack[j].0,
            ).len() && view.contains(reader_nodes(g, t.stack[j].0)[k]) implies t.seen.contains(
            reader_nodes(g, t.stack[j].0)[k],
        ) by {
            if j < top || k < idx {
                assert(reader_nodes(g, s.stack[j].0)[k] == reader_nodes(g, t.stack[j].0)[k]);
                assert(s.seen.contains(reader_nodes(g, s.stack[j].0)[k]));
            }
        }
        assert forall|n: NodeId| #[trigger] t.seen.contains(n) <==> t.post.contains(n) || on_stack(
            t,
            n,
        ) by {
            assert(s.seen.contains(n) <==> s.post.contains(n) || on_stack(s, n));
        }
    }
}

/// Being done with the node on top.
proof fn lemma_climb_leave(g: GraphModel, view: Set<NodeId>, roots: Seq<NodeId>, s: Climb)
    requires
        climb_inv(g, view, roots, s),
        s.stack.len() > 0,
        s.stack.last().1 >= reader_nodes(g, s.stack.last().0).len(),
    ensures
        climb_inv(
            g,
            view,
            roots,
            (Climb { post: s.post.push(s.stack.last().0), stack: s.stack.drop_last(), ..s }),
        ),
{
    let (node, idx) = s.stack.last();
    let t = Climb { post: s.post.push(node), stack: s.stack.drop_last(), ..s };
    let top = s.stack.len() - 1;
    assert(s.stack[top] == (node, idx));
    assert(!s.post.contains(s.stack[top].0));
    assert forall|m: NodeId| t.post.contains(m) <==> s.post.contains(m) || m == node by {
        lemma_push_member(s.post, node, m);
    }
    assert forall|i: int, j: int| 0 <= i < t.post.len() && 0 <= j < t.post.len() && i != j implies t.post[i]
        != t.post[j] by {
        if i == s.post.len() {
            assert(s.post.contains(s.post[j]));
        } else if j == s.post.len() {
            assert(s.post.contains(s.post[i]));
        }
    }
    assert forall|m: NodeId| #[trigger] t.seen.contains(m) <==> t.post.contains(m) || on_stack(t, m) by {
        if on_stack(s, m) && m != node {
            let j = choose|j: int| 0 <= j < s.stack.len() && (#[trigger] s.stack[j]).0 == m;
            assert(t.stack[j].0 == m);
        }
        if on_stack(t, m) {
            let j = choose|j: int| 0 <= j < t.stack.len() && (#[trigger] t.stack[j]).0 == m;
            assert(s.stack[j].0 == m);
        }
        if m == node {
            assert(on_stack(s, m));
        }
    }
    assert forall|j: int| 0 <= j < t.stack.len() implies !t.post.contains((#[trigger] t.stack[j]).0) by {
        assert(t.stack[j] == s.stack[j]);
        assert(s.stack[j].0 != s.stack[top].0);
    }
    assert forall|i: int, j: int|
        #![trigger t.stack[i], t.stack[j]]
        0 <= i < j < t.stack.len() implies t.stack[i].0 != t.stack[j].0 && leads(
        g,
        view,
        t.stack[i].0,
        t.stack[j].0,
    ) by {
        assert(s.stack[i].0 != s.stack[j].0);
    }
    assert forall|j: int, k: int|
        #![trigger t.stack[j], reader_nodes(g, t.stack[j].0)[k]]
        0 <= j < t.stack.len() && 0 <= k < t.stack[j].1 && k < reader_nodes(g, t.stack[j].0).len()
            && view.contains(reader_nodes(g, t.stack[j].0)[k]) implies t.seen.contains(
        reader_nodes(g, t.stack[j].0)[k],
    ) by {
        assert(t.stack[j] == s.stack[j]);
        assert(s.seen.contains(reader_nodes(g, s.stack[j].0)[k]));
    }
    assert(on_stack(s, node));
    assert(s.seen.contains(node));
    let x = s.seen.index_of(node);
    assert(view.contains(s.seen[x]));
    assert forall|i: int, m: NodeId|
        #![trigger t.post[i], reader_nodes(g, t.post[i]).contains(m)]
        0 <= i < t.post.len() && reader_nodes(g, t.post[i]).contains(m) && view.contains(m) implies reader_done(
        g,
        view,
        t.post,
        i,
        m,
    ) by {
        if i < s.post.len() {
            assert(t.post[i] == s.post[i]);
            assert(reader_done(g, view, s.post, i, m));
            if exists|k: int| 0 <= k < i && #[trigger] s.post[k] == m {
                let k = choose|k: int| 0 <= k < i && #[trigger] s.post[k] == m;
                assert(t.post[k] == m);
            }
        } else {
            let k = reader_nodes(g, node).index_of(m);
            assert(reader_nodes(g, s.stack[top].0)[k] == m);
            assert(s.seen.contains(m));
            if s.post.contains(m) {
                let y = s.post.index_of(m);
                assert(t.post[y] == m);
            } else {
                let j = choose|j: int| 0 <= j < s.stack.len() && (#[trigger] s.stack[j]).0 == m;
                if j < top {
                    assert(leads(g, view, s.stack[j].0, s.stack[top].0));
                } else {
                    lemma_leads_self(g, view, node);
                }
            }
        }
    }
    assert forall|i: int, m: NodeId|
        #![trigger t.post[i], reader_nodes(g, t.post[i]).contains(m)]
        0 <= i < t.post.len() && reader_nodes(g, t.post[i]).contains(m) && view.contains(m) implies t.seen.contains(
        m,
    ) by {
        if i < s.post.len() {
            assert(t.post[i] == s.post[i]);
            assert(reader_nodes(g, s.post[i]).contains(m));
        } else {
            let k = reader_nodes(g, node).index_of(m);
            assert(reader_nodes(g, s.stack[top].0)[k] == m);
        }
    }
}

proof fn lemma_climb_step(g: GraphModel, view: Set<NodeId>, roots: Seq<NodeId>, s: Climb)
    requires
        g.valid(),
        climb_inv(g, view, roots, s),
        forall|i: int| 0 <= i < roots.len() ==> g.has_node(#[trigger] roots[i]),
    ensures
        climb_inv(g, view, roots, climb_step(g, view, roots, s)),
{
    if s.stack.len() == 0 {
        if s.next_root < roots.len() {
            let root = roots[s.next_root as int];
            let next = Climb { next_root: s.next_root + 1, ..s };
            if s.seen.contains(root) || !view.contains(root) {
                assert forall|n: NodeId| #[trigger] next.seen.contains(n) <==> next.post.contains(n)
                    || on_stack(next, n) by {
                    assert(on_stack(next, n) <==> on_stack(s, n));
                }
                assert(climb_inv(g, view, roots, next));
            } else {
                let t = Climb { seen: s.seen.push(root), stack: s.stack.push((root, 0)), ..s };
                lemma_leads_self(g, view, root);
                assert(roots.contains(root));
                lemma_climb_enter(g, view, roots, s, root);
                assert(s.stack.push((root, 0nat)) =~= seq![(root, 0nat)]);
                let u = Climb { next_root: s.next_root + 1, ..t };
                lemma_push_member(s.seen, root, root);
                assert forall|n: NodeId| #[trigger] u.seen.contains(n) <==> u.post.contains(n)
                    || on_stack(u, n) by {
                    assert(t.seen.contains(n) <==> t.post.contains(n) || on_stack(t, n));
                    if on_stack(u, n) {
                        let j = choose|j: int| 0 <= j < u.stack.len() && (#[trigger] u.stack[j]).0 == n;
                        assert(t.stack[j].0 == n);
                    }
                    if on_stack(t, n) {
                        let j = choose|j: int| 0 <= j < t.stack.len() && (#[trigger] t.stack[j]).0 == n;
                        assert(u.stack[j].0 == n);
                    }
                }
                assert forall|r: int|
                    0 <= r < u.next_root && r < roots.len() && view.contains(
                        #[trigger] roots[r],
                    ) implies u.seen.contains(roots[r]) by {
                    if r < s.next_root {
                        assert(t.seen.contains(roots[r]));
                    }
                }
                assert(climb_inv(g, view, roots, u));
            }
        }
    } else {
        let (node, idx) = s.stack.last();
        let top = s.stack.len() - 1;
        assert(s.stack[top] == (node, idx));
        let succs = reader_nodes(g, node);
        if idx < succs.len() {
            let succ = succs[idx as int];
            let moved = s.stack.drop_last().push((node, idx + 1));
            lemma_climb_skip(g, view, roots, s);
            if !(s.seen.contains(succ) || !view.contains(succ)) {
                lemma_climb_descend(g, view, roots, s);
            }
        } else {
            lemma_climb_leave(g, view, roots, s);
        }
    }
}

/// Going on to a new reader of the node on top.
proof fn lemma_climb_descend(g: GraphModel, view: Set<NodeId>, roots: Seq<NodeId>, s: Climb)
    requires
        g.valid(),
        climb_inv(g, view, roots, s),
        s.stack.len() > 0,
        s.stack.last().1 < reader_nodes(g, s.stack.last().0).len(),
        view.contains(reader_nodes(g, s.stack.last().0)[s.stack.last().1 as int]),
        !s.seen.contains(reader_nodes(g, s.stack.last().0)[s.stack.last().1 as int]),
    ensures
        climb_inv(g, view, roots, climb_step(g, view, roots, s)),
{
    let (node, idx) = s.stack.last();
    let top = s.stack.len() - 1;
    assert(s.stack[top] == (node, idx));
    let succs = reader_nodes(g, node);
    let succ = succs[idx as int];
    assert(succs.contains(succ));
    assert(on_stack(s, node));
    assert(s.seen.contains(node));
    let x = s.seen.index_of(node);
    assert(g.has_node(s.seen[x]) && led_to(g, view, roots, s.seen[x]));
    let r = choose|r: NodeId| #[trigger] roots.contains(r) && leads(g, view, r, node);
    lemma_leads_on(g, view, r, node, succ);
    lemma_readers_are_nodes(g, node, g.outs(node).len() as int);
    // First start on the reader, then note that it was looked at.
    lemma_climb_enter(g, view, roots, s, succ);
    let t = Climb { seen: s.seen.push(succ), stack: s.stack.push((succ, 0)), ..s };
    let u = climb_step(g, view, roots, s);
    assert(u.stack.len() == t.stack.len());
    assert(u.seen == t.seen && u.post == t.post);
    assert forall|j: int| 0 <= j < u.stack.len() implies (#[trigger] u.stack[j]).0 == t.stack[j].0 by {}
    assert forall|n: NodeId| #[trigger] on_stack(u, n) <==> on_stack(t, n) by {
        if on_stack(u, n) {
            let j = choose|j: int| 0 <= j < u.stack.len() && (#[trigger] u.stack[j]).0 == n;
            assert(t.stack[j].0 == n);
        }
        if on_stack(t, n) {
            let j = choose|j: int| 0 <= j < t.stack.len() && (#[trigger] t.stack[j]).0 == n;
            assert(u.stack[j].0 == n);
        }
    }
    assert forall|n: NodeId| #[trigger] u.seen.contains(n) <==> u.post.contains(n) || on_stack(u, n) by {
        assert(t.seen.contains(n) <==> t.post.contains(n) || on_stack(t, n));
    }
    assert forall|i: int, j: int|
        #![trigger u.stack[i], u.stack[j]]
        0 <= i < j < u.stack.len() implies u.stack[i].0 != u.stack[j].0 && leads(
        g,
        view,
        u.stack[i].0,
        u.stack[j].0,
    ) by {
        assert(t.stack[i].0 != t.stack[j].0);
    }
    assert forall|j: int| 0 <= j < u.stack.len() implies !u.post.contains((#[trigger] u.stack[j]).0) by {
        assert(!t.post.contains(t.stack[j].0));
    }
    lemma_push_member(s.seen, succ, succ);
    assert forall|j: int, k: int|
        #![trigger u.stack[j], reader_nodes(g, u.stack[j].0)[k]]
        0 <= j < u.stack.len() && 0 <= k < u.stack[j].1 && k < reader_nodes(g, u.stack[j].0).len()
            && view.contains(reader_nodes(g, u.stack[j].0)[k]) implies u.seen.contains(
        reader_nodes(g, u.stack[j].0)[k],
    ) by {
        if j == top && k == idx {
        } else {
            assert(u.stack[j].0 == t.stack[j].0);
            assert(reader_nodes(g, t.stack[j].0)[k] == reader_nodes(g, u.stack[j].0)[k]);
            assert(t.seen.contains(reader_nodes(g, t.stack[j].0)[k]));
        }
    }
}

/// What is left to look at.
pub open spec fn climb_left(g: GraphModel, stack: Seq<(NodeId, nat)>) -> nat
    decreases stack.len(),
{
    if stack.len() == 0 {
        0
    } else {
        let (node, idx) = stack.last();
        let succs = reader_nodes(g, node);
        climb_left(g, stack.drop_last()) + 1 + (if idx < succs.len() {
            (succs.len() - idx) as nat
        } else {
            0
        })
    }
}

/// A frame of the search and its three parts.
spec fn frame_ok(
    g: GraphModel,
    frame: (NodeId, nat),
    node: NodeId,
    succs: Seq<NodeId>,
    place: usize,
) -> bool {
    frame.0 == node && frame.1 == place && succs == reader_nodes(g, node) && place <= succs.len()
}

spec fn lined_up(
    g: GraphModel,
    stack: Seq<(NodeId, nat)>,
    nodes: Seq<NodeId>,
    succs: Seq<Vec<NodeId>>,
    places: Seq<usize>,
) -> bool {
    forall|i: int|
        0 <= i < stack.len() ==> frame_ok(g, #[trigger] stack[i], nodes[i], succs[i]@, places[i])
}

impl Graph {
    /// The nodes that read an output of a node, output by output.
    pub fn reader_nodes(&self, node: NodeId) -> (r: Vec<NodeId>)
        requires
            self.wf(),
            self@.has_node(node),
        ensures
            r@ == reader_nodes(self@, node),
            forall|i: int| 0 <= i < r@.len() ==> self@.has_node(#[trigger] r@[i]),
    {
        let outs = self.node_outputs(node);
        let mut r: Vec<NodeId> = Vec::new();
        let mut i: usize = 0;
        while i < outs.len()
            invariant
                self.wf(),
                outs@ == self@.outs(node),
                forall|k: int| 0 <= k < outs@.len() ==> self@.has_value(#[trigger] outs@[k]),
                i <= outs.len(),
                r@ == readers_upto(self@, node, i as int),
                forall|k: int| 0 <= k < r@.len() ==> self@.has_node(#[trigger] r@[k]),
            decreases outs.len() - i,
        {
            let users = self.value_uses(outs[i]);
            let ghost before = r@;
            let ghost ns = position_nodes(users@);
            let mut j: usize = 0;
            while j < users.len()
                invariant
                    j <= users.len(),
                    ns == position_nodes(users@),
                    forall|k: int| 0 <= k < users@.len() ==> self@.has_node((#[trigger] users@[k]).0),
                    r@ == before + ns.take(j as int),
                    forall|k: int| 0 <= k < r@.len() ==> self@.has_node(#[trigger] r@[k]),
                decreases users.len() - j,
            {
                r.push(users[j].0);
                j += 1;
                assert(r@ =~= before + ns.take(j as int));
            }
            assert(ns.take(j as int) =~= ns);
            i += 1;
        }
        r
    }

    /// The nodes that roots lead to inside a set, or all if there is none,
    /// each after its readers, but for one that leads back to it.
    pub fn postorder(&self, view: Option<&NodeIdSet>, roots: &[NodeId]) -> (r: Vec<NodeId>)
        requires
            self.wf(),
            forall|i: int| 0 <= i < roots@.len() ==> self@.has_node(#[trigger] roots@[i]),
        ensures
            ({
                let inside = match view {
                    Some(set) => set@,
                    None => Set::full(),
                };
                &&& r@ == postorder_of(self@, inside, roots@)
                &&& r@.no_duplicates()
                &&& readers_first(self@, inside, r@)
                &&& forall|n: NodeId| #[trigger]
                    r@.contains(n) <==> led_to(self@, inside, roots@, n)
                &&& forall|i: int| 0 <= i < r@.len() ==> self@.has_node(#[trigger] r@[i])
            }),
    {
        let ghost g = self@;
        let ghost inside = match view {
            Some(set) => set@,
            None => Set::full(),
        };
        proof {
            self.lemma_wf_valid();
        }
        let mut seen = NodeIdSet::new();
        let mut post: Vec<NodeId> = Vec::new();
        let mut nodes: Vec<NodeId> = Vec::new();
        let mut succs: Vec<Vec<NodeId>> = Vec::new();
        let mut places: Vec<usize> = Vec::new();
        let mut next_root: usize = 0;
        let ghost mut s = climb_start();
        let ghost mut n: nat = 0;
        while nodes.len() > 0 || next_root < roots.len()
            invariant
                self.wf(),
                g == self@,
                g.valid(),
                forall|i: int| 0 <= i < roots@.len() ==> g.has_node(#[trigger] roots@[i]),
                inside == (match view {
                    Some(set) => set@,
                    None => Set::full(),
                }),
                s == climb_after(g, inside, roots@, n),
                climb_inv(g, inside, roots@, s),
                forall|m: NodeId| #[trigger] seen@.contains(m) <==> s.seen.contains(m),
                post@ == s.post,
                next_root == s.next_root,
                nodes@.len() == s.stack.len(),
                succs@.len() == s.stack.len(),
                places@.len() == s.stack.len(),
                lined_up(g, s.stack, nodes@, succs@, places@),
            decreases
                    g.nodes.len() - s.seen.len(),
                    roots@.len() - s.next_root,
                    climb_left(g, s.stack),
        {
            let ghost before = s;
            let ghost (n0, s0, p0) = (nodes@, succs@, places@);
            proof {
                lemma_climb_step(g, inside, roots@, s);
                s = climb_step(g, inside, roots@, s);
                n = n + 1;
                lemma_distinct_bounded(s.seen, g.nodes.len());
            }
            if nodes.len() == 0 {
                let root = roots[next_root];
                next_root += 1;
                let shown = match view {
                    Some(set) => set.contains(root),
                    None => true,
                };
                if shown && seen.insert(root) {
                    nodes.push(root);
                    succs.push(self.reader_nodes(root));
                    places.push(0);
                    proof {
                        assert forall|m: NodeId| #[trigger] seen@.contains(m) <==> s.seen.contains(
                            m,
                        ) by {
                            lemma_push_member(before.seen, root, m);
                        }
                    }
                } else {
                    proof {
                        if shown {
                            assert(seen@ =~= seen@.insert(root));
                        }
                    }
                }
            } else {
                let top = nodes.len() - 1;
                let node = nodes[top];
                let idx = places[top];
                let count = succs[top].len();
                proof {
                    assert(before.stack[top as int] == before.stack.last());
                    assert(frame_ok(g, before.stack[top as int], node, s0[top as int]@, idx));
                }
                if idx < count {
                    let succ = succs[top][idx];
                    places.set(top, idx + 1);
                    let ghost moved = before.stack.drop_last().push((node, (idx + 1) as nat));
                    proof {
                        assert(moved.drop_last() =~= before.stack.drop_last());
                        assert(moved.last() == (node, (idx + 1) as nat));
                    }
                    let shown = match view {
                        Some(set) => set.contains(succ),
                        None => true,
                    };
                    if shown && !seen.contains(succ) {
                        seen.insert(succ);
                        proof {
                            assert(g.has_node(s.seen[before.seen.len() as int]));
                        }
                        nodes.push(succ);
                        succs.push(self.reader_nodes(succ));
                        places.push(0);
                        proof {
                            assert forall|m: NodeId| #[trigger]
                                seen@.contains(m) <==> s.seen.contains(m) by {
                                lemma_push_member(before.seen, succ, m);
                            }
                        }
                    }
                    proof {
                        assert forall|i: int| 0 <= i < s.stack.len() implies frame_ok(
                            g,
                            #[trigger] s.stack[i],
                            nodes@[i],
                            succs@[i]@,
                            places@[i],
                        ) by {
                            if i < top {
                                assert(before.stack[i] == s.stack[i]);
                                assert(n0[i] == nodes@[i] && s0[i] == succs@[i] && p0[i]
                                    == places@[i]);
                            } else if i == top {
                                assert(n0[i] == nodes@[i] && s0[i] == succs@[i]);
                                assert(s.stack[i] == (node, (idx + 1) as nat));
                            }
                        }
                    }
                } else {
                    post.push(node);
                    nodes.pop();
                    succs.pop();
                    places.pop();
                    proof {
                        assert forall|i: int| 0 <= i < s.stack.len() implies frame_ok(
                            g,
                            #[trigger] s.stack[i],
                            nodes@[i],
                            succs@[i]@,
                            places@[i],
                        ) by {
                            assert(before.stack[i] == s.stack[i]);
                        }
                    }
                }
            }
        }
        proof {
            lemma_postorder_unique(g, inside, roots@, n);
            lemma_climb_complete(g, inside, roots@, s);
        }
        post
    }
}

/// When the search is done, it has found what the roots lead to.
proof fn lemma_climb_complete(g: GraphModel, view: Set<NodeId>, roots: Seq<NodeId>, s: Climb)
    requires
        climb_inv(g, view, roots, s),
        climb_done(roots, s),
    ensures
        forall|n: NodeId| #[trigger] s.post.contains(n) <==> led_to(g, view, roots, n),
        forall|i: int| 0 <= i < s.post.len() ==> g.has_node(#[trigger] s.post[i]),
{
    assert forall|n: NodeId| #[trigger] s.seen.contains(n) <==> s.post.contains(n) by {
        assert(!on_stack(s, n));
    }
    let members = Set::new(|n: NodeId| s.post.contains(n));
    assert forall|a: NodeId, b: NodeId|
        #![trigger members.contains(a), reader_nodes(g, a).contains(b)]
        members.contains(a) && reader_nodes(g, a).contains(b) && view.contains(b) implies members.contains(
        b,
    ) by {
        let i = s.post.index_of(a);
        assert(reader_nodes(g, s.post[i]).contains(b));
        assert(s.seen.contains(b));
    }
    assert forall|n: NodeId| #[trigger] s.post.contains(n) <==> led_to(g, view, roots, n) by {
        if s.post.contains(n) {
            assert(s.seen.contains(n));
            let x = s.seen.index_of(n);
            assert(led_to(g, view, roots, s.seen[x]));
        }
        if led_to(g, view, roots, n) {
            let r = choose|r: NodeId| #[trigger] roots.contains(r) && leads(g, view, r, n);
            let p = choose|p: Seq<NodeId>| #[trigger] is_flow(g, view, p) && p[0] == r && p.last() == n;
            let x = roots.index_of(r);
            assert(view.contains(p[0]));
            assert(s.seen.contains(roots[x]));
            lemma_flow_stays(g, view, p, members, p.len() - 1);
        }
    }
    assert forall|i: int| 0 <= i < s.post.len() implies g.has_node(#[trigger] s.post[i]) by {
        assert(s.post.contains(s.post[i]));
        assert(s.seen.contains(s.post[i]));
        let x = s.seen.index_of(s.post[i]);
        assert(g.has_node(s.seen[x]));
    }
}

/// The nodes without inputs among those that can be reached, by number.
pub open spec fn sources_of(g: GraphModel, seed: NodeId, roots: Seq<NodeId>) -> bool {
    &&& forall|n: NodeId| #[trigger]
        roots.contains(n) <==> reachable(g, seed, n) && g.ins(n).len() == 0
    &&& forall|i: int, j: int| 0 <= i < j < roots.len() ==> roots[i].0 < roots[j].0
}

/// What can be reached from a node.
pub open spec fn reachable_set(g: GraphModel, seed: NodeId) -> Set<NodeId> {
    Set::new(|n: NodeId| reachable(g, seed, n))
}

impl Graph {
    /// The nodes that can be reached from `seed` and that its sources lead to,
    /// each before its readers, but for one that leads back to it.
    pub fn reverse_postorder(&self, seed: NodeId) -> (r: Vec<NodeId>)
        requires
            self.wf(),
            self@.has_node(seed),
        ensures
            exists|roots: Seq<NodeId>| #[trigger]
                sources_of(self@, seed, roots) && r@ == postorder_of(
                    self@,
                    reachable_set(self@, seed),
                    roots,
                ).reverse(),
    {
        let nodes = self.walk_from(seed);
        let mut live = NodeIdSet::new();
        let mut sources = NodeIdSet::new();
        let mut i: usize = 0;
        while i < nodes.len()
            invariant
                self.wf(),
                i <= nodes.len(),
                forall|k: int| 0 <= k < nodes@.len() ==> self@.has_node(#[trigger] nodes@[k]),
                forall|n: NodeId| #[trigger]
                    live@.contains(n) <==> nodes@.take(i as int).contains(n),
                forall|n: NodeId| #[trigger]
                    sources@.contains(n) <==> nodes@.take(i as int).contains(n) && self@.ins(
                        n,
                    ).len() == 0,
            decreases nodes.len() - i,
        {
            let node = nodes[i];
            live.insert(node);
            if self.node_inputs(node).is_empty() {
                sources.insert(node);
            }
            proof {
                assert(nodes@.take(i + 1) =~= nodes@.take(i as int).push(node));
                assert forall|n: NodeId| #[trigger]
                    live@.contains(n) <==> nodes@.take(i + 1).contains(n) by {
                    lemma_push_member(nodes@.take(i as int), node, n);
                }
                assert forall|n: NodeId| #[trigger]
                    sources@.contains(n) <==> nodes@.take(i + 1).contains(n) && self@.ins(n).len()
                        == 0 by {
                    lemma_push_member(nodes@.take(i as int), node, n);
                }
            }
            i += 1;
        }
        assert(nodes@.take(i as int) =~= nodes@);
        let roots = sources.to_vec();
        proof {
            assert forall|k: int| 0 <= k < roots@.len() implies self@.has_node(
                #[trigger] roots@[k],
            ) by {
                assert(roots@.contains(roots@[k]));
                assert(nodes@.contains(roots@[k]));
                let x = nodes@.index_of(roots@[k]);
                assert(self@.has_node(nodes@[x]));
            }
            assert(sources_of(self@, seed, roots@));
            assert(live@ =~= reachable_set(self@, seed));
        }
        let post = self.postorder(Some(&live), roots.as_slice());
        let mut r: Vec<NodeId> = Vec::new();
        let mut k: usize = post.len();
        while k > 0
            invariant
                k <= post.len(),
                r@.len() == post@.len() - k,
                forall|j: int| 0 <= j < r@.len() ==> #[trigger] r@[j] == post@[post@.len() - 1 - j],
            decreases k,
        {
            k -= 1;
            r.push(post[k]);
        }
        assert(r@ =~= post@.reverse());
        r
    }
}

proof fn lemma_climb_ends(
    g: GraphModel,
    view: Set<NodeId>,
    roots: Seq<NodeId>,
    n: nat,
) -> (end: nat)
    requires
        g.valid(),
        forall|i: int| 0 <= i < roots.len() ==> g.has_node(#[trigger] roots[i]),
        climb_inv(g, view, roots, climb_after(g, view, roots, n)),
    ensures
        climb_done(roots, climb_after(g, view, roots, end)),
        climb_inv(g, view, roots, climb_after(g, view, roots, end)),
    decreases
            g.nodes.len() - climb_after(g, view, roots, n).seen.len(),
            roots.len() - climb_after(g, view, roots, n).next_root,
            climb_left(g, climb_after(g, view, roots, n).stack),
{
    let s = climb_after(g, view, roots, n);
    if climb_done(roots, s) {
        n
    } else {
        let t = climb_step(g, view, roots, s);
        assert(t == climb_after(g, view, roots, n + 1));
        lemma_climb_step(g, view, roots, s);
        lemma_distinct_bounded(t.seen, g.nodes.len());
        if s.stack.len() > 0 {
            let (node, idx) = s.stack.last();
            let moved = s.stack.drop_last().push((node, idx + 1));
            assert(moved.drop_last() =~= s.stack.drop_last());
        }
        lemma_climb_ends(g, view, roots, n + 1)
    }
}

/// The postorder lists what the roots lead to, each node once and after its
/// readers, but for those that lead back to it.
pub proof fn law_postorder(g: GraphModel, view: Set<NodeId>, roots: Seq<NodeId>)
    requires
        g.valid(),
        forall|i: int| 0 <= i < roots.len() ==> g.has_node(#[trigger] roots[i]),
    ensures
        postorder_of(g, view, roots).no_duplicates(),
        readers_first(g, view, postorder_of(g, view, roots)),
        forall|n: NodeId| #[trigger]
            postorder_of(g, view, roots).contains(n) <==> led_to(g, view, roots, n),
        forall|i: int|
            0 <= i < postorder_of(g, view, roots).len() ==> g.has_node(
                #[trigger] postorder_of(g, view, roots)[i],
            ),
{
    let end = lemma_climb_ends(g, view, roots, 0);
    lemma_postorder_unique(g, view, roots, end);
    lemma_climb_complete(g, view, roots, climb_after(g, view, roots, end));
}

} // verus!
