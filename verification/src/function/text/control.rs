//! Control nodes stand in reverse postorder of the control graph.

use super::alike::{lemma_search_ends, lemma_search_starts};
use super::order::{
    cfg_rpo, cfg_succs, cfg_succs_upto, lemma_search_step_inv, search_after, search_inv, search_start, search_step,
    Search,
};
use crate::entity_set::lemma_push_member;
use crate::graph::model::GraphModel;
use crate::node::{NodeId, ValueKind};
use vstd::prelude::*;

verus! {

/// A walk from control successor to control successor.
pub open spec fn is_flow(g: GraphModel, p: Seq<NodeId>) -> bool {
    &&& p.len() > 0
    &&& forall|k: int|
        #![trigger p[k], p[k + 1]]
        0 <= k < p.len() - 1 ==> cfg_succs(g, p[k]).contains(p[k + 1])
}

/// Control leads from `a` to `b`, in any number of steps.
pub open spec fn flows(g: GraphModel, a: NodeId, b: NodeId) -> bool {
    exists|p: Seq<NodeId>| #[trigger] is_flow(g, p) && p[0] == a && p.last() == b
}

proof fn lemma_flows_self(g: GraphModel, a: NodeId)
    ensures
        flows(g, a, a),
{
    let p = seq![a];
    assert(is_flow(g, p) && p[0] == a && p.last() == a);
}

proof fn lemma_flows_on(g: GraphModel, a: NodeId, b: NodeId, c: NodeId)
    requires
        flows(g, a, b),
        cfg_succs(g, b).contains(c),
    ensures
        flows(g, a, c),
{
    let p = choose|p: Seq<NodeId>| #[trigger] is_flow(g, p) && p[0] == a && p.last() == b;
    let q = p.push(c);
    assert forall|k: int|
        #![trigger q[k], q[k + 1]]
        0 <= k < q.len() - 1 implies cfg_succs(g, q[k]).contains(q[k + 1]) by {
        if k < p.len() - 1 {
            assert(q[k] == p[k] && q[k + 1] == p[k + 1]);
        }
    }
    assert(is_flow(g, q) && q[0] == a && q.last() == c);
}

/// What the search keeps beside its invariant: frames lead to those above,
/// everything looked at was found, and a node that is done has its successors
/// done before it, but for those that lead back to it.
spec fn finish_inv(g: GraphModel, entry: NodeId, s: Search) -> bool {
    &&& forall|i: int, j: int|
        #![trigger s.stack[i], s.stack[j]]
        0 <= i <= j < s.stack.len() ==> flows(g, s.stack[i].0, s.stack[j].0)
    &&& forall|j: int, k: int|
        #![trigger s.stack[j], cfg_succs(g, s.stack[j].0)[k]]
        0 <= j < s.stack.len() && 0 <= k < cfg_succs(g, s.stack[j].0).len() && cfg_succs(
            g,
            s.stack[j].0,
        ).len() - s.stack[j].1 <= k ==> s.seen.contains(cfg_succs(g, s.stack[j].0)[k])
    &&& forall|i: int, b: NodeId|
        #![trigger s.post[i], cfg_succs(g, s.post[i]).contains(b)]
        0 <= i < s.post.len() && cfg_succs(g, s.post[i]).contains(b) ==> s.seen.contains(b)
            && done_before(g, s.post, i, b)
    &&& forall|i: int| 0 <= i < s.seen.len() ==> flows(g, entry, #[trigger] s.seen[i])
}

/// `b` was done before the `i`-th node, or leads back to it.
spec fn done_before(g: GraphModel, post: Seq<NodeId>, i: int, b: NodeId) -> bool {
    (exists|k: int| 0 <= k < i && #[trigger] post[k] == b) || flows(g, b, post[i])
}

proof fn lemma_finish_step(g: GraphModel, entry: NodeId, s: Search)
    requires
        g.valid(),
        search_inv(g, entry, s),
        finish_inv(g, entry, s),
    ensures
        finish_inv(g, entry, search_step(g, s)),
{
    let t = search_step(g, s);
    if s.stack.len() > 0 {
        let top = s.stack.len() - 1;
        let (node, idx) = s.stack.last();
        assert(s.stack[top] == (node, idx));
        let succs = cfg_succs(g, node);
        if idx < succs.len() {
            let succ = succs[succs.len() - 1 - idx];
            assert(succs.contains(succ));
            let moved = s.stack.drop_last().push((node, idx + 1));
            assert forall|j: int| 0 <= j < moved.len() implies (#[trigger] moved[j]).0
                == s.stack[j].0 by {}
            assert forall|m: NodeId| #[trigger] t.seen.contains(m) <==> s.seen.contains(m) || m
                == succ by {
                lemma_push_member(s.seen, succ, m);
            }
            assert forall|i: int, j: int|
                #![trigger t.stack[i], t.stack[j]]
                0 <= i <= j < t.stack.len() implies flows(g, t.stack[i].0, t.stack[j].0) by {
                if j < moved.len() {
                    assert(flows(g, s.stack[i].0, s.stack[j].0));
                } else if i < moved.len() {
                    assert(flows(g, s.stack[i].0, s.stack[top].0));
                    lemma_flows_on(g, s.stack[i].0, node, succ);
                } else {
                    lemma_flows_self(g, succ);
                }
            }
            assert forall|j: int, k: int|
                #![trigger t.stack[j], cfg_succs(g, t.stack[j].0)[k]]
                0 <= j < t.stack.len() && 0 <= k < cfg_succs(g, t.stack[j].0).len() && cfg_succs(
                    g,
                    t.stack[j].0,
                ).len() - t.stack[j].1 <= k implies t.seen.contains(
                cfg_succs(g, t.stack[j].0)[k],
            ) by {
                if j < moved.len() {
                    assert(t.stack[j].0 == s.stack[j].0);
                    if j == top && k == succs.len() - 1 - idx {
                    } else {
                        assert(s.seen.contains(cfg_succs(g, s.stack[j].0)[k]));
                    }
                }
            }
            assert forall|i: int| 0 <= i < t.seen.len() implies flows(
                g,
                entry,
                #[trigger] t.seen[i],
            ) by {
                if i < s.seen.len() {
                    assert(t.seen[i] == s.seen[i]);
                } else {
                    assert(s.seen.contains(node)) by {
                        assert(s.seen.contains(s.stack[top].0));
                    }
                    let x = s.seen.index_of(node);
                    assert(flows(g, entry, s.seen[x]));
                    lemma_flows_on(g, entry, node, succ);
                }
            }
            assert forall|i: int, b: NodeId|
                #![trigger t.post[i], cfg_succs(g, t.post[i]).contains(b)]
                0 <= i < t.post.len() && cfg_succs(g, t.post[i]).contains(b) implies t.seen.contains(
                b,
            ) && done_before(g, t.post, i, b) by {
                assert(t.post[i] == s.post[i]);
                assert(s.seen.contains(b));
            }
        } else {
            assert forall|i: int, j: int|
                #![trigger t.stack[i], t.stack[j]]
                0 <= i <= j < t.stack.len() implies flows(g, t.stack[i].0, t.stack[j].0) by {
                assert(t.stack[i] == s.stack[i] && t.stack[j] == s.stack[j]);
            }
            assert forall|j: int, k: int|
                #![trigger t.stack[j], cfg_succs(g, t.stack[j].0)[k]]
                0 <= j < t.stack.len() && 0 <= k < cfg_succs(g, t.stack[j].0).len() && cfg_succs(
                    g,
                    t.stack[j].0,
                ).len() - t.stack[j].1 <= k implies t.seen.contains(
                cfg_succs(g, t.stack[j].0)[k],
            ) by {
                assert(t.stack[j] == s.stack[j]);
            }
            assert forall|i: int, b: NodeId|
                #![trigger t.post[i], cfg_succs(g, t.post[i]).contains(b)]
                0 <= i < t.post.len() && cfg_succs(g, t.post[i]).contains(b) implies t.seen.contains(
                b,
            ) && done_before(g, t.post, i, b) by {
                if i < s.post.len() {
                    assert(t.post[i] == s.post[i]);
                    assert(done_before(g, s.post, i, b));
                    if exists|k: int| 0 <= k < i && #[trigger] s.post[k] == b {
                        let k = choose|k: int| 0 <= k < i && #[trigger] s.post[k] == b;
                        assert(t.post[k] == b);
                    }
                } else {
                    assert(t.post[i] == node);
                    let k = succs.index_of(b);
                    assert(cfg_succs(g, s.stack[top].0)[k] == b);
                    assert(s.seen.contains(b));
                    if s.post.contains(b) {
                        let x = s.post.index_of(b);
                        assert(t.post[x] == b);
                    } else {
                        let j = choose|j: int|
                            0 <= j < s.stack.len() && (#[trigger] s.stack[j]).0 == b;
                        assert(flows(g, s.stack[j].0, s.stack[top].0));
                    }
                }
            }
        }
    }
}

proof fn lemma_finish(g: GraphModel, entry: NodeId, n: nat)
    requires
        g.valid(),
        g.has_node(entry),
    ensures
        search_inv(g, entry, search_after(g, entry, n)),
        finish_inv(g, entry, search_after(g, entry, n)),
    decreases n,
{
    if n == 0 {
        lemma_search_starts(g, entry);
        lemma_flows_self(g, entry);
        let s = search_start(entry);
        assert(s.stack[0] == (entry, 0nat));
        assert(s.seen[0] == entry);
    } else {
        let m = (n - 1) as nat;
        lemma_finish(g, entry, m);
        lemma_search_step_inv(g, entry, search_after(g, entry, m));
        lemma_finish_step(g, entry, search_after(g, entry, m));
    }
}

/// The control nodes are those that control leads to from the entry, each
/// once, in reverse postorder: a node stands before its control successors, but
/// for those that lead back to it.
pub proof fn law_control_in_reverse_postorder(g: GraphModel, entry: NodeId)
    requires
        g.valid(),
        g.has_node(entry),
    ensures
        cfg_rpo(g, entry).no_duplicates(),
        forall|n: NodeId| #[trigger] cfg_rpo(g, entry).contains(n) <==> flows(g, entry, n),
        forall|i: int, b: NodeId|
            #![trigger cfg_rpo(g, entry)[i], cfg_succs(g, cfg_rpo(g, entry)[i]).contains(b)]
            0 <= i < cfg_rpo(g, entry).len() && cfg_succs(g, cfg_rpo(g, entry)[i]).contains(b)
                ==> (exists|j: int|
                i < j < cfg_rpo(g, entry).len() && #[trigger] cfg_rpo(g, entry)[j] == b) || flows(
                g,
                b,
                cfg_rpo(g, entry)[i],
            ),
{
    let end = lemma_search_ends(g, entry);
    lemma_finish(g, entry, end);
    let s = search_after(g, entry, end);
    let r = cfg_rpo(g, entry);
    assert(r == s.post.reverse());
    assert forall|n: NodeId| #[trigger] s.seen.contains(n) <==> s.post.contains(n) by {
        if s.post.contains(n) {
            let i = s.post.index_of(n);
            assert(s.seen.contains(s.post[i]));
        }
    }
    assert forall|n: NodeId| #[trigger] r.contains(n) <==> s.post.contains(n) by {
        if r.contains(n) {
            let i = r.index_of(n);
            assert(s.post[s.post.len() - 1 - i] == n);
        }
        if s.post.contains(n) {
            let i = s.post.index_of(n);
            assert(r[s.post.len() - 1 - i] == n);
        }
    }
    assert forall|n: NodeId| #[trigger] r.contains(n) <==> flows(g, entry, n) by {
        if r.contains(n) {
            let x = s.seen.index_of(n);
            assert(flows(g, entry, s.seen[x]));
        }
        if flows(g, entry, n) {
            let p = choose|p: Seq<NodeId>| #[trigger]
                is_flow(g, p) && p[0] == entry && p.last() == n;
            assert(s.seen.contains(s.seen[0]));
            lemma_flow_seen(g, s, p, p.len() - 1);
        }
    }
    assert forall|i: int, b: NodeId|
        #![trigger r[i], cfg_succs(g, r[i]).contains(b)]
        0 <= i < r.len() && cfg_succs(g, r[i]).contains(b) implies (exists|j: int|
        i < j < r.len() && #[trigger] r[j] == b) || flows(g, b, r[i]) by {
        let x = s.post.len() - 1 - i;
        assert(s.post[x] == r[i]);
        assert(cfg_succs(g, s.post[x]).contains(b));
        assert(done_before(g, s.post, x, b));
        if exists|k: int| 0 <= k < x && #[trigger] s.post[k] == b {
            let k = choose|k: int| 0 <= k < x && #[trigger] s.post[k] == b;
            assert(r[s.post.len() - 1 - k] == b);
        }
    }
}

proof fn lemma_flow_seen(g: GraphModel, s: Search, p: Seq<NodeId>, k: int)
    requires
        is_flow(g, p),
        s.seen.contains(p[0]),
        0 <= k < p.len(),
        forall|n: NodeId| #[trigger] s.seen.contains(n) <==> s.post.contains(n),
        forall|i: int, b: NodeId|
            #![trigger s.post[i], cfg_succs(g, s.post[i]).contains(b)]
            0 <= i < s.post.len() && cfg_succs(g, s.post[i]).contains(b) ==> s.seen.contains(b),
    ensures
        s.seen.contains(p[k]),
    decreases k,
{
    if k > 0 {
        lemma_flow_seen(g, s, p, k - 1);
        let i = s.post.index_of(p[k - 1]);
        assert(cfg_succs(g, p[k - 1]).contains(p[k - 1 + 1]));
        assert(cfg_succs(g, s.post[i]).contains(p[k]));
    }
}

/// Once `a` was found, `b` is done, and `b` was done before `a`.
spec fn in_branch_order(s: Search, a: NodeId, b: NodeId) -> bool {
    &&& s.seen.contains(a) ==> s.post.contains(b)
    &&& forall|x: int|
        0 <= x < s.post.len() && #[trigger] s.post[x] == a ==> exists|y: int|
            0 <= y < x && #[trigger] s.post[y] == b
}

proof fn lemma_branch_order(
    g: GraphModel,
    entry: NodeId,
    n: NodeId,
    a: NodeId,
    b: NodeId,
    j: int,
    k: nat,
)
    requires
        g.valid(),
        g.has_node(entry),
        a != entry,
        a != b,
        0 <= j < cfg_succs(g, n).len(),
        cfg_succs(g, n)[j] == b,
        forall|x: int| 0 <= x < cfg_succs(g, n).len() && #[trigger] cfg_succs(g, n)[x] == a ==> x < j,
        forall|m: NodeId| #[trigger] cfg_succs(g, m).contains(a) ==> m == n,
        !flows(g, b, n),
    ensures
        in_branch_order(search_after(g, entry, k), a, b),
    decreases k,
{
    if k == 0 {
        let s = search_start(entry);
        assert(s.seen =~= seq![entry]);
    } else {
        let p = (k - 1) as nat;
        let s = search_after(g, entry, p);
        let t = search_after(g, entry, k);
        lemma_branch_order(g, entry, n, a, b, j, p);
        lemma_finish(g, entry, p);
        if s.stack.len() > 0 {
            let top = s.stack.len() - 1;
            let (node, idx) = s.stack.last();
            assert(s.stack[top] == (node, idx));
            let succs = cfg_succs(g, node);
            if idx < succs.len() {
                let at = succs.len() - 1 - idx;
                let succ = succs[at];
                if !s.seen.contains(succ) {
                    lemma_push_member(s.seen, succ, a);
                    if succ == a {
                        assert(succs.contains(a));
                        assert(node == n);
                        assert(at < j);
                        assert(cfg_succs(g, s.stack[top].0)[j] == b);
                        assert(s.seen.contains(b));
                        if !s.post.contains(b) {
                            let q = choose|q: int|
                                0 <= q < s.stack.len() && (#[trigger] s.stack[q]).0 == b;
                            assert(flows(g, s.stack[q].0, s.stack[top].0));
                        }
                    }
                }
            } else {
                assert(s.seen.contains(s.stack[top].0));
                lemma_push_member(s.post, node, b);
                assert forall|x: int| 0 <= x < t.post.len() && #[trigger] t.post[x]
                    == a implies exists|y: int| 0 <= y < x && #[trigger] t.post[y] == b by {
                    if x < s.post.len() {
                        assert(s.post[x] == a);
                        let y = choose|y: int| 0 <= y < x && #[trigger] s.post[y] == b;
                        assert(t.post[y] == b);
                    } else {
                        let y = s.post.index_of(b);
                        assert(t.post[y] == b);
                    }
                }
            }
        }
    }
}

/// Of two ways on from a node, the earlier one comes first, if control gets
/// there from the node alone and the later one does not lead back: the way that
/// an `If` takes when its condition holds comes before the other.
pub proof fn law_first_way_comes_first(
    g: GraphModel,
    entry: NodeId,
    n: NodeId,
    a: NodeId,
    b: NodeId,
    j: int,
    i: int,
)
    requires
        g.valid(),
        g.has_node(entry),
        a != entry,
        a != b,
        0 <= j < cfg_succs(g, n).len(),
        cfg_succs(g, n)[j] == b,
        forall|x: int| 0 <= x < cfg_succs(g, n).len() && #[trigger] cfg_succs(g, n)[x] == a ==> x < j,
        forall|m: NodeId| #[trigger] cfg_succs(g, m).contains(a) ==> m == n,
        !flows(g, b, n),
        0 <= i < cfg_rpo(g, entry).len(),
        cfg_rpo(g, entry)[i] == a,
    ensures
        exists|k: int| i < k < cfg_rpo(g, entry).len() && #[trigger] cfg_rpo(g, entry)[k] == b,
{
    let end = lemma_search_ends(g, entry);
    lemma_branch_order(g, entry, n, a, b, j, end);
    let s = search_after(g, entry, end);
    let r = cfg_rpo(g, entry);
    let x = s.post.len() - 1 - i;
    assert(s.post[x] == a);
    let y = choose|y: int| 0 <= y < x && #[trigger] s.post[y] == b;
    assert(r[s.post.len() - 1 - y] == b);
}

/// The ways on from a node are the readers of its control values, those of an
/// earlier value first.
pub proof fn law_ways_on_are_readers_of_control(g: GraphModel, n: NodeId)
    ensures
        g.outs(n).len() == 0 ==> cfg_succs(g, n).len() == 0,
        g.outs(n).len() == 2 && g.value_kind(g.outs(n)[0]) == ValueKind::Control && g.value_kind(
            g.outs(n)[1],
        ) == ValueKind::Control && g.reader_positions(g.outs(n)[0]).len() == 1
            && g.reader_positions(g.outs(n)[1]).len() == 1 ==> cfg_succs(g, n) == seq![
            g.reader_positions(g.outs(n)[0])[0].0,
            g.reader_positions(g.outs(n)[1])[0].0,
        ],
        (forall|k: int|
            0 <= k < g.outs(n).len() ==> g.value_kind(#[trigger] g.outs(n)[k])
                != ValueKind::Control) ==> cfg_succs(g, n).len() == 0,
{
    reveal_with_fuel(cfg_succs_upto, 3);
    if g.outs(n).len() == 2 && g.value_kind(g.outs(n)[0]) == ValueKind::Control && g.value_kind(
        g.outs(n)[1],
    ) == ValueKind::Control && g.reader_positions(g.outs(n)[0]).len() == 1 && g.reader_positions(
        g.outs(n)[1],
    ).len() == 1 {
        assert(cfg_succs(g, n) =~= seq![
            g.reader_positions(g.outs(n)[0])[0].0,
            g.reader_positions(g.outs(n)[1])[0].0,
        ]);
    }
    if forall|k: int|
        0 <= k < g.outs(n).len() ==> g.value_kind(#[trigger] g.outs(n)[k]) != ValueKind::Control {
        lemma_no_ways(g, n, g.outs(n).len() as int);
    }
}

proof fn lemma_no_ways(g: GraphModel, n: NodeId, k: int)
    requires
        0 <= k <= g.outs(n).len(),
        forall|i: int|
            0 <= i < g.outs(n).len() ==> g.value_kind(#[trigger] g.outs(n)[i]) != ValueKind::Control,
    ensures
        cfg_succs_upto(g, n, k).len() == 0,
    decreases k,
{
    if k > 0 {
        lemma_no_ways(g, n, k - 1);
    }
}

} // verus!
