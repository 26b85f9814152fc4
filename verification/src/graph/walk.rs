//! Reachability: forward over control outputs, backward over inputs.

use super::model::GraphModel;
use super::Graph;
use crate::entity_set::{lemma_distinct_bounded, NodeIdSet};
use crate::node::{NodeId, ValueId, ValueKind};
use vstd::prelude::*;

verus! {

/// `b` defines a value that `a` reads.
pub open spec fn feeds(g: GraphModel, a: NodeId, b: NodeId) -> bool {
    exists|i: int| 0 <= i < g.ins(a).len() && g.producer(#[trigger] g.ins(a)[i]) == b
}

/// `b` reads a control output of `a`.
pub open spec fn controls(g: GraphModel, a: NodeId, b: NodeId) -> bool {
    exists|i: int, j: int|
        #![trigger g.reader_positions(g.outs(a)[i])[j]]
        0 <= i < g.outs(a).len() && g.value_kind(g.outs(a)[i]) == ValueKind::Control && 0 <= j
            < g.reader_positions(g.outs(a)[i]).len() && g.reader_positions(g.outs(a)[i])[j].0 == b
}

/// The nodes that feed a node, slot by slot.
pub open spec fn fed_from(g: GraphModel, n: NodeId) -> Seq<NodeId> {
    Seq::new(g.ins(n).len(), |i: int| g.producer(g.ins(n)[i]))
}

/// The readers of the control outputs among the first `k` outputs.
pub open spec fn controlled_upto(g: GraphModel, n: NodeId, k: int) -> Seq<NodeId>
    decreases k,
{
    if k <= 0 {
        Seq::empty()
    } else if g.value_kind(g.outs(n)[k - 1]) == ValueKind::Control {
        controlled_upto(g, n, k - 1) + reader_list(g, g.outs(n)[k - 1], g.reader_positions(
            g.outs(n)[k - 1],
        ).len() as int)
    } else {
        controlled_upto(g, n, k - 1)
    }
}

/// The nodes that hold the first `k` readers of a value.
pub open spec fn reader_list(g: GraphModel, v: ValueId, k: int) -> Seq<NodeId> {
    Seq::new(k as nat, |j: int| g.reader_positions(v)[j].0)
}

/// The nodes one step of the walk away: those that feed a node, then those
/// that read its control outputs.
pub open spec fn next_nodes(g: GraphModel, n: NodeId) -> Seq<NodeId> {
    fed_from(g, n) + controlled_upto(g, n, g.outs(n).len() as int)
}

/// A list with those of the first `k` nodes that are new to it.
pub open spec fn with_new(order: Seq<NodeId>, nodes: Seq<NodeId>, k: int) -> Seq<NodeId>
    decreases k,
{
    if k <= 0 {
        order
    } else {
        let rest = with_new(order, nodes, k - 1);
        if rest.contains(nodes[k - 1]) {
            rest
        } else {
            rest.push(nodes[k - 1])
        }
    }
}

/// The nodes found once the first `k` of them were looked at.
pub open spec fn walk_upto(g: GraphModel, entry: NodeId, k: nat) -> Seq<NodeId>
    decreases k,
{
    if k == 0 {
        seq![entry]
    } else {
        let order = walk_upto(g, entry, (k - 1) as nat);
        if k - 1 < order.len() {
            let next = next_nodes(g, order[k - 1]);
            with_new(order, next, next.len() as int)
        } else {
            order
        }
    }
}

/// The nodes that can be reached, nearest first.
pub open spec fn walk_order(g: GraphModel, entry: NodeId) -> Seq<NodeId> {
    walk_upto(g, entry, g.nodes.len())
}

proof fn lemma_walk_settles(g: GraphModel, entry: NodeId, a: nat, b: nat)
    requires
        a <= b,
        walk_upto(g, entry, a).len() <= a,
    ensures
        walk_upto(g, entry, b) == walk_upto(g, entry, a),
    decreases b - a,
{
    if a < b {
        lemma_walk_settles(g, entry, a, (b - 1) as nat);
    }
}

/// One step of the walk.
pub open spec fn steps_to(g: GraphModel, a: NodeId, b: NodeId) -> bool {
    feeds(g, a, b) || controls(g, a, b)
}

/// A sequence of steps.
pub open spec fn is_path(g: GraphModel, p: Seq<NodeId>) -> bool {
    &&& p.len() > 0
    &&& forall|k: int| 0 <= k < p.len() - 1 ==> #[trigger] steps_to(g, p[k], p[k + 1])
}

/// `to` can be reached from `from`.
pub open spec fn reachable(g: GraphModel, from: NodeId, to: NodeId) -> bool {
    exists|p: Seq<NodeId>| #[trigger] is_path(g, p) && p[0] == from && p.last() == to
}

/// What can be reached in one more step can be reached.
pub proof fn lemma_reachable_step(g: GraphModel, from: NodeId, mid: NodeId, to: NodeId)
    requires
        reachable(g, from, mid),
        steps_to(g, mid, to),
    ensures
        reachable(g, from, to),
{
    let p = choose|p: Seq<NodeId>| #[trigger] is_path(g, p) && p[0] == from && p.last() == mid;
    let q = p.push(to);
    assert forall|k: int| 0 <= k < q.len() - 1 implies #[trigger] steps_to(
        g,
        q[k],
        q[k + 1],
    ) by {
        if k < p.len() - 1 {
            assert(steps_to(g, p[k], p[k + 1]));
            assert(q[k] == p[k] && q[k + 1] == p[k + 1]);
        }
    }
    assert(is_path(g, q));
}

/// Every node reaches itself.
pub proof fn lemma_reachable_self(g: GraphModel, n: NodeId)
    ensures
        reachable(g, n, n),
{
    assert(is_path(g, seq![n]));
}

/// A set that holds `from` and everything one step from its members holds
/// everything that can be reached.
pub proof fn lemma_closed_holds_reachable(
    g: GraphModel,
    from: NodeId,
    to: NodeId,
    members: Set<NodeId>,
)
    requires
        members.contains(from),
        forall|a: NodeId, b: NodeId|
            members.contains(a) && #[trigger] steps_to(g, a, b) ==> members.contains(b),
        reachable(g, from, to),
    ensures
        members.contains(to),
{
    let p = choose|p: Seq<NodeId>| #[trigger] is_path(g, p) && p[0] == from && p.last() == to;
    lemma_path_stays(g, p, members, (p.len() - 1) as nat);
}

proof fn lemma_path_stays(g: GraphModel, p: Seq<NodeId>, members: Set<NodeId>, k: nat)
    requires
        is_path(g, p),
        k < p.len(),
        members.contains(p[0]),
        forall|a: NodeId, b: NodeId|
            members.contains(a) && #[trigger] steps_to(g, a, b) ==> members.contains(b),
    ensures
        members.contains(p[k as int]),
    decreases k,
{
    if k > 0 {
        lemma_path_stays(g, p, members, (k - 1) as nat);
        assert(steps_to(g, p[k - 1], p[k - 1 + 1]));
    }
}

/// Readers of control outputs are nodes.
pub proof fn lemma_controls_node(g: GraphModel, n: NodeId, m: NodeId)
    requires
        g.valid(),
        g.has_node(n),
        controls(g, n, m),
    ensures
        g.has_node(m),
{
    let (i, j) = choose|i: int, j: int|
        #![trigger g.reader_positions(g.outs(n)[i])[j]]
        0 <= i < g.outs(n).len() && g.value_kind(g.outs(n)[i]) == ValueKind::Control && 0 <= j
            < g.reader_positions(g.outs(n)[i]).len() && g.reader_positions(g.outs(n)[i])[j].0 == m;
    let v = g.outs(n)[i];
    assert(g.output_ok(n.0 as int, i)) by {
        assert(g.nodes[n.0 as int].outputs[i] == v);
    }
    assert(g.reader_ok(v.0 as int, j)) by {
        assert(g.lists[v.0 as int][j] == g.readers(v)[j]);
    }
}

/// Producers of inputs are nodes.
pub proof fn lemma_feeds_node(g: GraphModel, n: NodeId, i: int)
    requires
        g.valid(),
        g.has_node(n),
        0 <= i < g.ins(n).len(),
    ensures
        g.has_value(g.ins(n)[i]),
        g.has_node(g.producer(g.ins(n)[i])),
        feeds(g, n, g.producer(g.ins(n)[i])),
{
    assert(g.slot_ok(n.0 as int, i)) by {
        assert(g.nodes[n.0 as int].inputs[i] == g.slots(n)[i]);
    }
    assert(g.value_ok(g.ins(n)[i].0 as int));
}

/// What can be reached from a node is a node.
pub proof fn lemma_reachable_node(g: GraphModel, from: NodeId, to: NodeId)
    requires
        g.valid(),
        g.has_node(from),
        reachable(g, from, to),
    ensures
        g.has_node(to),
{
    let members = Set::new(|n: NodeId| g.has_node(n));
    assert forall|a: NodeId, b: NodeId| members.contains(a) && #[trigger] steps_to(
        g,
        a,
        b,
    ) implies members.contains(b) by {
        if feeds(g, a, b) {
            let i = choose|i: int| 0 <= i < g.ins(a).len() && g.producer(#[trigger] g.ins(a)[i]) == b;
            lemma_feeds_node(g, a, i);
        } else {
            lemma_controls_node(g, a, b);
        }
    }
    lemma_closed_holds_reachable(g, from, to, members);
}

impl Graph {
    /// The producers of the values a node reads, in slot order.
    pub(crate) fn producers_of(&self, node: NodeId) -> (r: Vec<NodeId>)
        requires
            self.wf(),
            self@.has_node(node),
        ensures
            r@.len() == self@.ins(node).len(),
            forall|i: int|
                0 <= i < r@.len() ==> #[trigger] r@[i] == self@.producer(self@.ins(node)[i]),
            forall|i: int| 0 <= i < r@.len() ==> self@.has_node(#[trigger] r@[i]),
    {
        let inputs = self.node_inputs(node).iter();
        let mut r: Vec<NodeId> = Vec::new();
        let mut i: usize = 0;
        while i < inputs.len()
            invariant
                self.wf(),
                inputs@ == self@.ins(node),
                forall|k: int| 0 <= k < inputs@.len() ==> self@.has_value(#[trigger] inputs@[k]),
                i <= inputs.len(),
                r@.len() == i,
                forall|k: int|
                    0 <= k < r@.len() ==> #[trigger] r@[k] == self@.producer(self@.ins(node)[k]),
                forall|k: int| 0 <= k < r@.len() ==> self@.has_node(#[trigger] r@[k]),
            decreases inputs.len() - i,
        {
            r.push(self.get_node_from_output(inputs[i]));
            i += 1;
        }
        r
    }

    /// The nodes one step of the walk away: the producers of the inputs, then
    /// the readers of the control outputs.
    fn steps(&self, node: NodeId) -> (r: Vec<NodeId>)
        requires
            self.wf(),
            self@.has_node(node),
        ensures
            r@ == next_nodes(self@, node),
            forall|m: NodeId| #[trigger] r@.contains(m) <==> steps_to(self@, node, m),
            forall|i: int| 0 <= i < r@.len() ==> self@.has_node(#[trigger] r@[i]),
    {
        let ghost g = self@;
        let mut r = self.producers_of(node);
        assert(r@ =~= fed_from(g, node) + controlled_upto(g, node, 0));
        let ghost first = r@;
        proof {
            assert forall|m: NodeId| #[trigger] r@.contains(m) implies feeds(g, node, m) by {
                let i = r@.index_of(m);
                assert(r@[i] == g.producer(g.ins(node)[i]));
            }
            assert forall|m: NodeId| feeds(g, node, m) implies #[trigger] first.contains(m) by {
                let i = choose|i: int|
                    0 <= i < g.ins(node).len() && g.producer(#[trigger] g.ins(node)[i]) == m;
                assert(first[i] == m);
            }
        }
        let outputs = self.node_outputs(node);
        let mut i: usize = 0;
        while i < outputs.len()
            invariant
                self.wf(),
                g == self@,
                self@.has_node(node),
                outputs@ == g.outs(node),
                forall|k: int| 0 <= k < outputs@.len() ==> g.has_value(#[trigger] outputs@[k]),
                i <= outputs.len(),
                r@ == fed_from(g, node) + controlled_upto(g, node, i as int),
                forall|k: int| 0 <= k < r@.len() ==> g.has_node(#[trigger] r@[k]),
                forall|m: NodeId| feeds(g, node, m) ==> #[trigger] r@.contains(m),
                forall|m: NodeId| #[trigger] r@.contains(m) ==> steps_to(g, node, m),
                forall|a: int, b: int|
                    #![trigger g.reader_positions(g.outs(node)[a])[b]]
                    0 <= a < i && g.value_kind(g.outs(node)[a]) == ValueKind::Control && 0 <= b
                        < g.reader_positions(g.outs(node)[a]).len() ==> r@.contains(
                        g.reader_positions(g.outs(node)[a])[b].0,
                    ),
            decreases outputs.len() - i,
        {
            let out = outputs[i];
            if self.output_kind(out) == ValueKind::Control {
                let users = self.value_uses(out);
                let mut j: usize = 0;
                assert(r@ =~= r@ + reader_list(g, out, 0));
                while j < users.len()
                    invariant
                        self.wf(),
                        g == self@,
                        0 <= i < outputs@.len(),
                        outputs@ == g.outs(node),
                        out == outputs@[i as int],
                        g.value_kind(out) == ValueKind::Control,
                        users@ == g.reader_positions(out),
                        forall|k: int| 0 <= k < users@.len() ==> g.has_node((#[trigger] users@[k]).0),
                        j <= users.len(),
                        r@ == fed_from(g, node) + controlled_upto(g, node, i as int) + reader_list(
                            g,
                            out,
                            j as int,
                        ),
                        forall|k: int| 0 <= k < r@.len() ==> g.has_node(#[trigger] r@[k]),
                        forall|m: NodeId| feeds(g, node, m) ==> #[trigger] r@.contains(m),
                        forall|m: NodeId| #[trigger] r@.contains(m) ==> steps_to(g, node, m),
                        forall|a: int, b: int|
                            #![trigger g.reader_positions(g.outs(node)[a])[b]]
                            0 <= a < i && g.value_kind(g.outs(node)[a]) == ValueKind::Control
                                && 0 <= b < g.reader_positions(g.outs(node)[a]).len()
                                ==> r@.contains(g.reader_positions(g.outs(node)[a])[b].0),
                        forall|b: int|
                            #![trigger g.reader_positions(out)[b]]
                            0 <= b < j ==> r@.contains(g.reader_positions(out)[b].0),
                    decreases users.len() - j,
                {
                    let ghost before = r@;
                    let user = users[j].0;
                    r.push(user);
                    proof {
                        assert(r@ =~= fed_from(g, node) + controlled_upto(g, node, i as int)
                            + reader_list(g, out, j + 1));
                        assert(g.reader_positions(g.outs(node)[i as int])[j as int].0 == user);
                        assert(controls(g, node, user));
                        assert forall|m: NodeId| #[trigger] before.contains(m) implies r@.contains(
                            m,
                        ) by {
                            let k = before.index_of(m);
                            assert(r@[k] == m);
                        }
                        assert(r@[before.len() as int] == user);
                        assert forall|m: NodeId| #[trigger] r@.contains(m) implies steps_to(
                            g,
                            node,
                            m,
                        ) by {
                            let k = r@.index_of(m);
                            if k < before.len() {
                                assert(before[k] == m);
                                assert(before.contains(m));
                            }
                        }
                        assert forall|m: NodeId| feeds(
                            g,
                            node,
                            m,
                        ) implies #[trigger] r@.contains(m) by {
                            assert(before.contains(m));
                        }
                    }
                    j += 1;
                }
                assert(r@ =~= fed_from(g, node) + controlled_upto(g, node, i + 1));
            }
            i += 1;
        }
        proof {
            assert forall|m: NodeId| steps_to(g, node, m) implies #[trigger] r@.contains(m) by {
                if controls(g, node, m) {
                    let (a, b) = choose|a: int, b: int|
                        #![trigger g.reader_positions(g.outs(node)[a])[b]]
                        0 <= a < g.outs(node).len() && g.value_kind(g.outs(node)[a])
                            == ValueKind::Control && 0 <= b < g.reader_positions(
                            g.outs(node)[a],
                        ).len() && g.reader_positions(g.outs(node)[a])[b].0 == m;
                    assert(r@.contains(g.reader_positions(g.outs(node)[a])[b].0));
                }
            }
        }
        r
    }

    /// The nodes reachable from `entry`, `entry` first, each once, nearest
    /// first.
    pub fn walk_from(&self, entry: NodeId) -> (r: Vec<NodeId>)
        requires
            self.wf(),
            self@.has_node(entry),
        ensures
            r@ == walk_order(self@, entry),
            r@.len() > 0,
            r@[0] == entry,
            r@.no_duplicates(),
            r@.len() <= self@.nodes.len(),
            forall|i: int| 0 <= i < r@.len() ==> self@.has_node(#[trigger] r@[i]),
            forall|n: NodeId| #[trigger] r@.contains(n) <==> reachable(self@, entry, n),
    {
        let ghost g = self@;
        let mut seen = NodeIdSet::new();
        let mut order: Vec<NodeId> = Vec::new();
        seen.insert(entry);
        order.push(entry);
        let mut i: usize = 0;
        proof {
            lemma_reachable_self(g, entry);
            assert(order@[0] == entry);
        }
        while i < order.len()
            invariant
                self.wf(),
                g == self@,
                g.has_node(entry),
                i <= order.len(),
                order@ == walk_upto(g, entry, i as nat),
                order@.len() > 0,
                order@[0] == entry,
                order@.no_duplicates(),
                forall|n: NodeId| #[trigger] seen@.contains(n) <==> order@.contains(n),
                forall|k: int|
                    0 <= k < order@.len() ==> g.has_node(#[trigger] order@[k]) && reachable(
                        g,
                        entry,
                        order@[k],
                    ),
                forall|k: int, m: NodeId|
                    #![trigger steps_to(g, order@[k], m)]
                    0 <= k < i && steps_to(g, order@[k], m) ==> seen@.contains(m),
            decreases g.nodes.len() - i,
        {
            let node = order[i];
            proof {
                assert(order@[i as int] == node);
                lemma_distinct_bounded(order@, g.nodes.len());
            }
            let next = self.steps(node);
            let ghost found = order@;
            let mut j: usize = 0;
            while j < next.len()
                invariant
                    self.wf(),
                    g == self@,
                    g.has_node(entry),
                    i < order.len(),
                    node == order@[i as int],
                    order@.len() > 0,
                    order@[0] == entry,
                    order@.no_duplicates(),
                    j <= next.len(),
                    order@ == with_new(found, next@, j as int),
                    forall|m: NodeId| #[trigger] next@.contains(m) <==> steps_to(g, node, m),
                    forall|k: int| 0 <= k < next@.len() ==> g.has_node(#[trigger] next@[k]),
                    forall|n: NodeId| #[trigger] seen@.contains(n) <==> order@.contains(n),
                    forall|k: int|
                        0 <= k < order@.len() ==> g.has_node(#[trigger] order@[k]) && reachable(
                            g,
                            entry,
                            order@[k],
                        ),
                    forall|k: int, m: NodeId|
                        #![trigger steps_to(g, order@[k], m)]
                        0 <= k < i && steps_to(g, order@[k], m) ==> seen@.contains(m),
                    forall|k: int| 0 <= k < j ==> seen@.contains(#[trigger] next@[k]),
                decreases next.len() - j,
            {
                let m = next[j];
                let ghost before = order@;
                let ghost known = seen@;
                let fresh = seen.insert(m);
                if !fresh {
                    assert(seen@ =~= known);
                } else {
                    order.push(m);
                    proof {
                        assert(next@.contains(m));
                        assert(reachable(g, entry, before[i as int]));
                        lemma_reachable_step(g, entry, node, m);
                        assert(order@[before.len() as int] == m);
                        assert forall|n: NodeId| #[trigger] seen@.contains(
                            n,
                        ) implies order@.contains(n) by {
                            if n != m {
                                let k = before.index_of(n);
                                assert(order@[k] == n);
                            }
                        }
                        assert forall|n: NodeId| #[trigger] order@.contains(
                            n,
                        ) implies seen@.contains(n) by {
                            let k = order@.index_of(n);
                            if k < before.len() {
                                assert(before[k] == n);
                                assert(before.contains(n));
                            }
                        }
                        assert forall|a: int, b: int| 0 <= a < b < order@.len() implies order@[a]
                            != order@[b] by {
                            if b == before.len() {
                                assert(before.contains(before[a]));
                            }
                        }
                        assert forall|k: int, x: NodeId|
                            #![trigger steps_to(g, order@[k], x)]
                            0 <= k < i && steps_to(g, order@[k], x) implies seen@.contains(x) by {
                            assert(steps_to(g, before[k], x));
                        }
                    }
                }
                j += 1;
            }
            proof {
                assert forall|k: int, m: NodeId|
                    #![trigger steps_to(g, order@[k], m)]
                    0 <= k < i + 1 && steps_to(g, order@[k], m) implies seen@.contains(m) by {
                    if k == i {
                        assert(next@.contains(m));
                        let x = next@.index_of(m);
                        assert(seen@.contains(next@[x]));
                    }
                }
            }
            i += 1;
        }
        proof {
            lemma_distinct_bounded(order@, g.nodes.len());
            lemma_walk_settles(g, entry, i as nat, g.nodes.len());
            assert forall|n: NodeId| reachable(g, entry, n) implies #[trigger] order@.contains(
                n,
            ) by {
                assert(order@.contains(order@[0]));
                assert forall|a: NodeId, b: NodeId|
                    seen@.contains(a) && #[trigger] steps_to(g, a, b) implies seen@.contains(b) by {
                    let k = order@.index_of(a);
                    assert(order@[k] == a);
                    assert(steps_to(g, order@[k], b));
                }
                lemma_closed_holds_reachable(g, entry, n, seen@);
                assert(seen@.contains(n));
            }
            assert forall|n: NodeId| #[trigger] order@.contains(n) implies reachable(
                g,
                entry,
                n,
            ) by {
                let k = order@.index_of(n);
                assert(order@[k] == n);
            }
        }
        order
    }
}

proof fn lemma_controlled(g: GraphModel, n: NodeId, k: int, m: NodeId)
    requires
        0 <= k <= g.outs(n).len(),
    ensures
        controlled_upto(g, n, k).contains(m) <==> exists|i: int, j: int|
            #![trigger g.reader_positions(g.outs(n)[i])[j]]
            0 <= i < k && g.value_kind(g.outs(n)[i]) == ValueKind::Control && 0 <= j
                < g.reader_positions(g.outs(n)[i]).len() && g.reader_positions(g.outs(n)[i])[j].0
                == m,
    decreases k,
{
    if k > 0 {
        lemma_controlled(g, n, k - 1, m);
        let v = g.outs(n)[k - 1];
        let rest = controlled_upto(g, n, k - 1);
        let all = controlled_upto(g, n, k);
        let more = reader_list(g, v, g.reader_positions(v).len() as int);
        if g.value_kind(v) == ValueKind::Control {
            if all.contains(m) {
                let x = all.index_of(m);
                if x < rest.len() {
                    assert(rest[x] == m);
                } else {
                    assert(more[x - rest.len()] == m);
                    assert(g.reader_positions(g.outs(n)[k - 1])[x - rest.len()].0 == m);
                }
            }
            if rest.contains(m) {
                assert(all[rest.index_of(m)] == m);
            }
            assert forall|i: int, j: int|
                #![trigger g.reader_positions(g.outs(n)[i])[j]]
                0 <= i < k && g.value_kind(g.outs(n)[i]) == ValueKind::Control && 0 <= j
                    < g.reader_positions(g.outs(n)[i]).len() && g.reader_positions(
                    g.outs(n)[i],
                )[j].0 == m implies all.contains(m) by {
                if i == k - 1 {
                    assert(all[rest.len() + j] == m);
                }
            }
        }
    }
}

/// One step of the walk goes to the next nodes.
proof fn lemma_next_nodes(g: GraphModel, n: NodeId, m: NodeId)
    ensures
        next_nodes(g, n).contains(m) <==> steps_to(g, n, m),
{
    let a = fed_from(g, n);
    let b = controlled_upto(g, n, g.outs(n).len() as int);
    let all = next_nodes(g, n);
    lemma_controlled(g, n, g.outs(n).len() as int, m);
    if all.contains(m) {
        let x = all.index_of(m);
        if x < a.len() {
            assert(g.producer(g.ins(n)[x]) == m);
        } else {
            assert(b[x - a.len()] == m);
            assert(b.contains(m));
        }
    }
    if feeds(g, n, m) {
        let i = choose|i: int| 0 <= i < g.ins(n).len() && g.producer(#[trigger] g.ins(n)[i]) == m;
        assert(all[i] == m);
    }
    if b.contains(m) {
        assert(all[a.len() + b.index_of(m)] == m);
    }
}

proof fn lemma_with_new(order: Seq<NodeId>, nodes: Seq<NodeId>, k: int)
    requires
        order.no_duplicates(),
        0 <= k <= nodes.len(),
    ensures
        ({
            let all = with_new(order, nodes, k);
            &&& all.no_duplicates()
            &&& order.len() <= all.len()
            &&& forall|i: int| 0 <= i < order.len() ==> #[trigger] all[i] == order[i]
            &&& forall|i: int| 0 <= i < k ==> all.contains(#[trigger] nodes[i])
            &&& forall|i: int|
                order.len() <= i < all.len() ==> nodes.contains(#[trigger] all[i])
        }),
    decreases k,
{
    if k > 0 {
        lemma_with_new(order, nodes, k - 1);
        let rest = with_new(order, nodes, k - 1);
        let all = with_new(order, nodes, k);
        assert forall|i: int| 0 <= i < k implies all.contains(#[trigger] nodes[i]) by {
            if i < k - 1 {
                assert(rest.contains(nodes[i]));
                assert(all[rest.index_of(nodes[i])] == nodes[i]);
            } else if !rest.contains(nodes[i]) {
                assert(all[rest.len() as int] == nodes[i]);
            }
        }
        assert forall|i: int| order.len() <= i < all.len() implies nodes.contains(
            #[trigger] all[i],
        ) by {
            if i < rest.len() {
                assert(all[i] == rest[i]);
            } else {
                assert(all[i] == nodes[k - 1]);
            }
        }
        assert forall|a: int, b: int| 0 <= a < b < all.len() implies all[a] != all[b] by {
            if b == rest.len() {
                assert(rest.contains(rest[a]));
            }
        }
    }
}

proof fn lemma_walk_upto(g: GraphModel, entry: NodeId, k: nat)
    requires
        g.valid(),
        g.has_node(entry),
    ensures
        ({
            let s = walk_upto(g, entry, k);
            &&& s.no_duplicates()
            &&& s.len() > 0
            &&& s[0] == entry
            &&& forall|i: int|
                0 <= i < s.len() ==> g.has_node(#[trigger] s[i]) && reachable(g, entry, s[i])
            &&& forall|i: int, m: NodeId|
                #![trigger steps_to(g, s[i], m)]
                0 <= i < k && i < s.len() && steps_to(g, s[i], m) ==> s.contains(m)
        }),
    decreases k,
{
    if k == 0 {
        lemma_reachable_self(g, entry);
    } else {
        lemma_walk_upto(g, entry, (k - 1) as nat);
        let s = walk_upto(g, entry, (k - 1) as nat);
        let t = walk_upto(g, entry, k);
        if k - 1 < s.len() {
            let n = s[k - 1];
            let next = next_nodes(g, n);
            lemma_with_new(s, next, next.len() as int);
            assert forall|i: int| 0 <= i < t.len() implies g.has_node(#[trigger] t[i])
                && reachable(g, entry, t[i]) by {
                if i >= s.len() {
                    assert(next.contains(t[i]));
                    lemma_next_nodes(g, n, t[i]);
                    lemma_reachable_step(g, entry, n, t[i]);
                    lemma_reachable_node(g, entry, t[i]);
                } else {
                    assert(t[i] == s[i]);
                }
            }
            assert forall|i: int, m: NodeId|
                #![trigger steps_to(g, t[i], m)]
                0 <= i < k && i < t.len() && steps_to(g, t[i], m) implies t.contains(m) by {
                assert(t[i] == s[i]);
                if i < k - 1 {
                    assert(steps_to(g, s[i], m));
                    assert(t[s.index_of(m)] == m);
                } else {
                    lemma_next_nodes(g, n, m);
                    assert(t.contains(next[next.index_of(m)]));
                }
            }
        }
    }
}

/// The walk lists exactly what can be reached, each node once, the entry
/// first.
pub proof fn law_walk_order(g: GraphModel, entry: NodeId)
    requires
        g.valid(),
        g.has_node(entry),
    ensures
        walk_order(g, entry).no_duplicates(),
        walk_order(g, entry).len() > 0,
        walk_order(g, entry)[0] == entry,
        forall|n: NodeId| #[trigger] walk_order(g, entry).contains(n) <==> reachable(g, entry, n),
{
    let order = walk_order(g, entry);
    lemma_walk_upto(g, entry, g.nodes.len());
    lemma_distinct_bounded(order, g.nodes.len());
    let members = Set::new(|n: NodeId| order.contains(n));
    assert forall|a: NodeId, b: NodeId|
        members.contains(a) && #[trigger] steps_to(g, a, b) implies members.contains(b) by {
        let i = order.index_of(a);
        assert(steps_to(g, order[i], b));
    }
    assert forall|n: NodeId| #[trigger] order.contains(n) <==> reachable(g, entry, n) by {
        if order.contains(n) {
            assert(reachable(g, entry, order[order.index_of(n)]));
        }
        if reachable(g, entry, n) {
            assert(order.contains(order[0]));
            lemma_closed_holds_reachable(g, entry, n, members);
        }
    }
}

proof fn lemma_walk_grows(g: GraphModel, entry: NodeId, a: nat, b: nat)
    requires
        g.valid(),
        g.has_node(entry),
        a <= b,
    ensures
        walk_upto(g, entry, a).len() <= walk_upto(g, entry, b).len(),
        forall|i: int|
            0 <= i < walk_upto(g, entry, a).len() ==> #[trigger] walk_upto(g, entry, b)[i]
                == walk_upto(g, entry, a)[i],
    decreases b - a,
{
    if a < b {
        let c = (b - 1) as nat;
        lemma_walk_grows(g, entry, a, c);
        lemma_walk_upto(g, entry, c);
        let order = walk_upto(g, entry, c);
        if c < order.len() {
            let next = next_nodes(g, order[c as int]);
            lemma_with_new(order, next, next.len() as int);
        }
    }
}

proof fn lemma_walk_comes_from(g: GraphModel, entry: NodeId, k: nat, j: int)
    requires
        g.valid(),
        g.has_node(entry),
        0 < j < walk_upto(g, entry, k).len(),
    ensures
        exists|i: int|
            0 <= i < k && i < j && #[trigger] steps_to(
                g,
                walk_upto(g, entry, k)[i],
                walk_upto(g, entry, k)[j],
            ),
    decreases k,
{
    if k > 0 {
        let c = (k - 1) as nat;
        let order = walk_upto(g, entry, c);
        let all = walk_upto(g, entry, k);
        lemma_walk_upto(g, entry, c);
        lemma_walk_grows(g, entry, c, k);
        if j < order.len() {
            lemma_walk_comes_from(g, entry, c, j);
            let i = choose|i: int| 0 <= i < c && i < j && #[trigger] steps_to(g, order[i], order[j]);
            assert(steps_to(g, all[i], all[j]));
        } else {
            let next = next_nodes(g, order[c as int]);
            lemma_with_new(order, next, next.len() as int);
            lemma_next_nodes(g, order[c as int], all[j]);
            assert(steps_to(g, all[c as int], all[j]));
        }
    }
}

/// A walk goes breadth first: what is one step from an earlier node stands
/// before what is one step from later nodes only, and every node but the first
/// is one step from one before it.
pub proof fn law_walk_goes_breadth_first(g: GraphModel, entry: NodeId, a: int, i: int, j: int)
    requires
        g.valid(),
        g.has_node(entry),
        0 <= a < walk_order(g, entry).len(),
        0 <= i < walk_order(g, entry).len(),
        0 < j < walk_order(g, entry).len(),
        steps_to(g, walk_order(g, entry)[a], walk_order(g, entry)[i]),
        forall|x: int|
            0 <= x <= a ==> !steps_to(g, #[trigger] walk_order(g, entry)[x], walk_order(g, entry)[j]),
    ensures
        i < j,
        exists|x: int|
            0 <= x < j && #[trigger] steps_to(
                g,
                walk_order(g, entry)[x],
                walk_order(g, entry)[j],
            ),
{
    let order = walk_order(g, entry);
    let k = (a + 1) as nat;
    law_walk_order(g, entry);
    lemma_walk_upto(g, entry, g.nodes.len());
    lemma_distinct_bounded(order, g.nodes.len());
    lemma_walk_comes_from(g, entry, g.nodes.len(), j);
    lemma_walk_grows(g, entry, k, g.nodes.len());
    lemma_walk_upto(g, entry, k);
    let first = walk_upto(g, entry, k);
    if a < first.len() {
        assert(first[a] == order[a]);
        assert(steps_to(g, first[a], order[i]));
        assert(first.contains(order[i]));
        let y = first.index_of(order[i]);
        assert(order[y] == order[i]);
        assert(y == i);
        if j < first.len() {
            lemma_walk_comes_from(g, entry, k, j);
            let x = choose|x: int| 0 <= x < k && x < j && #[trigger] steps_to(g, first[x], first[j]);
            assert(order[x] == first[x]);
        }
    } else {
        lemma_walk_settles(g, entry, k, g.nodes.len());
    }
}

/// From a node a walk goes on to what feeds it, in the order of its inputs, and
/// then to what its control values lead to.
pub proof fn law_walk_goes_on_to_inputs_first(g: GraphModel, n: NodeId, i: int)
    ensures
        0 <= i < g.ins(n).len() ==> next_nodes(g, n)[i] == g.producer(g.ins(n)[i]),
        g.ins(n).len() <= i < next_nodes(g, n).len() ==> controls(g, n, next_nodes(g, n)[i]),
{
    let b = controlled_upto(g, n, g.outs(n).len() as int);
    if g.ins(n).len() <= i < next_nodes(g, n).len() {
        let m = next_nodes(g, n)[i];
        assert(b[i - g.ins(n).len()] == m);
        assert(b.contains(m));
        lemma_controlled(g, n, g.outs(n).len() as int, m);
    }
}

} // verus!
